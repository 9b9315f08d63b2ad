//! A parsed HTML page as a flat list of its elements, and the queries that
//! the shop pages need on it.
//!
//! The elements stand in document order (pre-order), the order in which
//! `soup` walks a page. Each one records how many elements its subtree
//! holds, itself included, so that the subtree of element `i` is the run of
//! elements that starts at `i`.

use markup5ever::rcdom::NodeData;
use soup::{NodeExt, QueryBuilderExt, Soup};
use vstd::prelude::*;

verus! {

/// One element of a page.
pub struct HtmlNode {
    /// The element's local name, such as `div`.
    pub tag: String,
    /// The element's attributes, as name and value.
    pub attrs: Vec<(String, String)>,
    /// The text of all text nodes below the element, in order.
    pub text: String,
    /// Number of elements in the element's subtree, itself included.
    pub size: usize,
}

/// What an [`HtmlNode`] holds, as mathematical values.
pub struct NodeView {
    pub tag: Seq<char>,
    pub attrs: Seq<(Seq<char>, Seq<char>)>,
    pub text: Seq<char>,
    pub size: nat,
}

impl View for HtmlNode {
    type V = NodeView;

    open spec fn view(&self) -> NodeView {
        NodeView {
            tag: self.tag@,
            attrs: self.attrs@.map_values(|a: (String, String)| (a.0@, a.1@)),
            text: self.text@,
            size: self.size as nat,
        }
    }
}

/// A page: its elements in document order.
pub struct HtmlDocument {
    pub nodes: Vec<HtmlNode>,
}

impl View for HtmlDocument {
    type V = Seq<NodeView>;

    open spec fn view(&self) -> Seq<NodeView> {
        self.nodes@.map_values(|n: HtmlNode| n@)
    }
}

/// Where a query looks: the whole page, or the subtree of one element
/// (the element itself included).
#[derive(Clone, Copy)]
pub enum Scope {
    Document,
    Element(usize),
}

/// The elements of the page that `html` holds, as `soup` parses it.
pub uninterp spec fn parsed_html(html: Seq<char>) -> Seq<NodeView>;

/// Parses `html` with `soup::Soup::new` and lists every element in the
/// order of `soup`'s `tag(true).find_all()` (document order), with its name
/// (`NodeExt::name`), its attributes in the order the element holds them
/// (local name and value, as `NodeExt::get` reads them), its text
/// (`NodeExt::text`) and the size of its subtree (the number of elements
/// that `tag(true).find_all()` yields on it, itself included).
/// Trusted: the contract claims only that the result is a function of the
/// text, named `parsed_html`; what the parser makes of a page is not stated.
#[verifier::external_body]
pub(crate) fn parse_html(html: &str) -> (doc: HtmlDocument)
    ensures
        doc@ == parsed_html(html@),
{
    let soup = Soup::new(html);
    let mut nodes = Vec::new();
    for n in soup.tag(true).find_all() {
        let mut attrs = Vec::new();
        if let NodeData::Element { attrs: list, .. } = &n.data {
            for a in list.borrow().iter() {
                attrs.push((a.name.local.to_string(), a.value.to_string()));
            }
        }
        let size = n.tag(true).find_all().count();
        nodes.push(HtmlNode { tag: n.name().to_string(), attrs, text: n.text(), size });
    }
    HtmlDocument { nodes }
}

/// One past the last element of the subtree of element `i`.
pub open spec fn subtree_end(d: Seq<NodeView>, i: int) -> int {
    if i + d[i].size > d.len() {
        d.len() as int
    } else if d[i].size == 0 {
        i + 1
    } else {
        i + d[i].size
    }
}

/// The run of elements that a scope covers, as start and end.
pub open spec fn scope_bounds(d: Seq<NodeView>, scope: Scope) -> (int, int) {
    match scope {
        Scope::Document => (0, d.len() as int),
        Scope::Element(i) => if i < d.len() {
            (i as int, subtree_end(d, i as int))
        } else {
            (d.len() as int, d.len() as int)
        },
    }
}

/// The value of the first attribute called `name`.
pub open spec fn attr_of(attrs: Seq<(Seq<char>, Seq<char>)>, name: Seq<char>) -> Option<Seq<char>>
    decreases attrs.len(),
{
    if attrs.len() == 0 {
        None
    } else if attrs[0].0 == name {
        Some(attrs[0].1)
    } else {
        attr_of(attrs.drop_first(), name)
    }
}

/// Element `n` is a `tag` whose attribute `attr` is exactly `value`.
pub open spec fn node_has(n: NodeView, tag: Seq<char>, attr: Seq<char>, value: Seq<char>) -> bool {
    n.tag == tag && attr_of(n.attrs, attr) == Some(value)
}

/// Element positions as integers.
pub open spec fn positions(v: Seq<usize>) -> Seq<int> {
    v.map_values(|i: usize| i as int)
}

/// The first element in `lo..hi` that is a `tag` with `attr` equal to `value`.
pub open spec fn first_with(
    d: Seq<NodeView>,
    lo: int,
    hi: int,
    tag: Seq<char>,
    attr: Seq<char>,
    value: Seq<char>,
) -> Option<int>
    decreases hi - lo,
{
    if lo >= hi {
        None
    } else if node_has(d[lo], tag, attr, value) {
        Some(lo)
    } else {
        first_with(d, lo + 1, hi, tag, attr, value)
    }
}

/// All elements in `lo..hi` that are a `tag` with `attr` equal to `value`,
/// in order.
pub open spec fn all_with(
    d: Seq<NodeView>,
    lo: int,
    hi: int,
    tag: Seq<char>,
    attr: Seq<char>,
    value: Seq<char>,
) -> Seq<int>
    decreases hi - lo,
{
    if lo >= hi {
        seq![]
    } else if node_has(d[hi - 1], tag, attr, value) {
        all_with(d, lo, hi - 1, tag, attr, value).push(hi - 1)
    } else {
        all_with(d, lo, hi - 1, tag, attr, value)
    }
}

/// The first element in `lo..hi` that is a `tag`.
pub open spec fn first_tag(d: Seq<NodeView>, lo: int, hi: int, tag: Seq<char>) -> Option<int>
    decreases hi - lo,
{
    if lo >= hi {
        None
    } else if d[lo].tag == tag {
        Some(lo)
    } else {
        first_tag(d, lo + 1, hi, tag)
    }
}

/// All elements in `lo..hi` that are a `tag`, in order.
pub open spec fn all_tags(d: Seq<NodeView>, lo: int, hi: int, tag: Seq<char>) -> Seq<int>
    decreases hi - lo,
{
    if lo >= hi {
        seq![]
    } else if d[hi - 1].tag == tag {
        all_tags(d, lo, hi - 1, tag).push(hi - 1)
    } else {
        all_tags(d, lo, hi - 1, tag)
    }
}

/// The subtree of an element ends after it, within the page.
pub proof fn lemma_subtree_end(d: Seq<NodeView>, i: int)
    requires
        0 <= i < d.len(),
    ensures
        i < subtree_end(d, i) <= d.len(),
{
}

/// What `first_with` finds lies in its range.
pub proof fn lemma_first_with_in_range(
    d: Seq<NodeView>,
    lo: int,
    hi: int,
    tag: Seq<char>,
    attr: Seq<char>,
    value: Seq<char>,
)
    ensures
        first_with(d, lo, hi, tag, attr, value) matches Some(k) ==> lo <= k < hi,
    decreases hi - lo,
{
    if lo < hi {
        lemma_first_with_in_range(d, lo + 1, hi, tag, attr, value);
    }
}

/// What `first_tag` finds lies in its range.
pub proof fn lemma_first_tag_in_range(d: Seq<NodeView>, lo: int, hi: int, tag: Seq<char>)
    ensures
        first_tag(d, lo, hi, tag) matches Some(k) ==> lo <= k < hi,
    decreases hi - lo,
{
    if lo < hi {
        lemma_first_tag_in_range(d, lo + 1, hi, tag);
    }
}

/// What `all_with` lists lies in its range.
pub proof fn lemma_all_with_in_range(
    d: Seq<NodeView>,
    lo: int,
    hi: int,
    tag: Seq<char>,
    attr: Seq<char>,
    value: Seq<char>,
)
    ensures
        forall|k: int|
            0 <= k < all_with(d, lo, hi, tag, attr, value).len() ==> lo <= #[trigger] all_with(
                d,
                lo,
                hi,
                tag,
                attr,
                value,
            )[k] < hi,
    decreases hi - lo,
{
    if lo < hi {
        lemma_all_with_in_range(d, lo, hi - 1, tag, attr, value);
        let rest = all_with(d, lo, hi - 1, tag, attr, value);
        let all = all_with(d, lo, hi, tag, attr, value);
        assert forall|k: int| 0 <= k < all.len() implies lo <= #[trigger] all[k] < hi by {
            if k < rest.len() {
                assert(all[k] == rest[k]);
            }
        }
    }
}

/// What `all_tags` lists lies in its range.
pub proof fn lemma_all_tags_in_range(d: Seq<NodeView>, lo: int, hi: int, tag: Seq<char>)
    ensures
        forall|k: int|
            0 <= k < all_tags(d, lo, hi, tag).len() ==> lo <= #[trigger] all_tags(d, lo, hi, tag)[k] < hi,
    decreases hi - lo,
{
    if lo < hi {
        lemma_all_tags_in_range(d, lo, hi - 1, tag);
        let rest = all_tags(d, lo, hi - 1, tag);
        let all = all_tags(d, lo, hi, tag);
        assert forall|k: int| 0 <= k < all.len() implies lo <= #[trigger] all[k] < hi by {
            if k < rest.len() {
                assert(all[k] == rest[k]);
            }
        }
    }
}

impl HtmlNode {
    /// The value of the attribute called `name`, if the element has one
    /// (`NodeExt::get`): the first attribute of that name wins. Names are
    /// compared as they are; the parser gives attribute names in lower case
    /// but for a few foreign (SVG, MathML) names in mixed case, none of which
    /// is asked for here.
    pub fn get(&self, name: &str) -> (res: Option<String>)
        ensures
            res matches Some(v) ==> attr_of(self@.attrs, name@) == Some(v@),
            res is None ==> attr_of(self@.attrs, name@) is None,
    {
        let key = name.to_owned();
        let ghost av = self@.attrs;
        let mut i: usize = 0;
        assert(av.skip(0) =~= av);
        while i < self.attrs.len()
            invariant
                i <= self.attrs.len(),
                av == self@.attrs,
                av.len() == self.attrs.len(),
                key@ == name@,
                attr_of(av, name@) == attr_of(av.skip(i as int), name@),
            decreases self.attrs.len() - i,
        {
            let pair = &self.attrs[i];
            assert(av.skip(i as int)[0] == (pair.0@, pair.1@));
            assert(av.skip(i as int).drop_first() =~= av.skip(i + 1));
            if pair.0 == key {
                return Some(pair.1.clone());
            }
            i = i + 1;
        }
        assert(av.skip(i as int) =~= Seq::<(Seq<char>, Seq<char>)>::empty());
        None
    }
}

impl HtmlDocument {
    /// The run of elements that `scope` covers.
    pub fn bounds(&self, scope: Scope) -> (res: (usize, usize))
        ensures
            res.0 as int == scope_bounds(self@, scope).0,
            res.1 as int == scope_bounds(self@, scope).1,
            res.0 <= res.1 <= self@.len(),
    {
        let len = self.nodes.len();
        match scope {
            Scope::Document => (0, len),
            Scope::Element(i) => {
                if i < len {
                    let size = self.nodes[i].size;
                    assert(self@[i as int].size == size);
                    if size > len - i {
                        (i, len)
                    } else if size == 0 {
                        (i, i + 1)
                    } else {
                        (i, i + size)
                    }
                } else {
                    (len, len)
                }
            },
        }
    }

    /// The first element of `scope` that is a `tag` whose attribute `attr`
    /// is exactly `value`.
    pub fn first_with_attr(&self, scope: Scope, tag: &str, attr: &str, value: &str) -> (res: Option<usize>)
        ensures
            res matches Some(i) ==> first_with(
                self@,
                scope_bounds(self@, scope).0,
                scope_bounds(self@, scope).1,
                tag@,
                attr@,
                value@,
            ) == Some(i as int),
            res is None ==> first_with(
                self@,
                scope_bounds(self@, scope).0,
                scope_bounds(self@, scope).1,
                tag@,
                attr@,
                value@,
            ) is None,
    {
        let (lo, hi) = self.bounds(scope);
        let tag_s = tag.to_owned();
        let value_s = value.to_owned();
        let mut i = lo;
        while i < hi
            invariant
                lo <= i <= hi <= self@.len(),
                lo as int == scope_bounds(self@, scope).0,
                hi as int == scope_bounds(self@, scope).1,
                self@.len() == self.nodes.len(),
                tag_s@ == tag@,
                value_s@ == value@,
                first_with(self@, lo as int, hi as int, tag@, attr@, value@) == first_with(
                    self@,
                    i as int,
                    hi as int,
                    tag@,
                    attr@,
                    value@,
                ),
            decreases hi - i,
        {
            let node = &self.nodes[i];
            assert(self@[i as int] == node@);
            if node.tag == tag_s {
                match node.get(attr) {
                    Some(v) => {
                        if v == value_s {
                            assert(node_has(self@[i as int], tag@, attr@, value@));
                            return Some(i);
                        }
                    },
                    None => {},
                }
            }
            i = i + 1;
        }
        None
    }

    /// All elements of `scope` that are a `tag` whose attribute `attr` is
    /// exactly `value`, in document order.
    pub fn all_with_attr(&self, scope: Scope, tag: &str, attr: &str, value: &str) -> (res: Vec<usize>)
        ensures
            positions(res@) == all_with(
                self@,
                scope_bounds(self@, scope).0,
                scope_bounds(self@, scope).1,
                tag@,
                attr@,
                value@,
            ),
    {
        let (lo, hi) = self.bounds(scope);
        let tag_s = tag.to_owned();
        let value_s = value.to_owned();
        let mut out: Vec<usize> = Vec::new();
        let mut i = lo;
        while i < hi
            invariant
                lo <= i <= hi <= self@.len(),
                lo as int == scope_bounds(self@, scope).0,
                hi as int == scope_bounds(self@, scope).1,
                self@.len() == self.nodes.len(),
                tag_s@ == tag@,
                value_s@ == value@,
                positions(out@) == all_with(self@, lo as int, i as int, tag@, attr@, value@),
            decreases hi - i,
        {
            let node = &self.nodes[i];
            assert(self@[i as int] == node@);
            let ghost before = out@;
            let mut hit = false;
            if node.tag == tag_s {
                match node.get(attr) {
                    Some(v) => {
                        hit = v == value_s;
                    },
                    None => {},
                }
            }
            if hit {
                out.push(i);
            }
            assert(positions(out@) =~= all_with(self@, lo as int, i + 1, tag@, attr@, value@));
            i = i + 1;
        }
        out
    }

    /// The first element of `scope` that is a `tag`.
    pub fn first_tag(&self, scope: Scope, tag: &str) -> (res: Option<usize>)
        ensures
            res matches Some(i) ==> first_tag(self@, scope_bounds(self@, scope).0, scope_bounds(self@, scope).1, tag@) == Some(i as int),
            res is None ==> first_tag(self@, scope_bounds(self@, scope).0, scope_bounds(self@, scope).1, tag@) is None,
    {
        let (lo, hi) = self.bounds(scope);
        let tag_s = tag.to_owned();
        let mut i = lo;
        while i < hi
            invariant
                lo <= i <= hi <= self@.len(),
                lo as int == scope_bounds(self@, scope).0,
                hi as int == scope_bounds(self@, scope).1,
                self@.len() == self.nodes.len(),
                tag_s@ == tag@,
                first_tag(self@, lo as int, hi as int, tag@) == first_tag(self@, i as int, hi as int, tag@),
            decreases hi - i,
        {
            assert(self@[i as int] == self.nodes[i as int]@);
            if self.nodes[i].tag == tag_s {
                assert(self@[i as int].tag == tag@);
                return Some(i);
            }
            i = i + 1;
        }
        None
    }

    /// All elements of `scope` that are a `tag`, in document order.
    pub fn all_tags(&self, scope: Scope, tag: &str) -> (res: Vec<usize>)
        ensures
            positions(res@) == all_tags(self@, scope_bounds(self@, scope).0, scope_bounds(self@, scope).1, tag@),
    {
        let (lo, hi) = self.bounds(scope);
        let tag_s = tag.to_owned();
        let mut out: Vec<usize> = Vec::new();
        let mut i = lo;
        while i < hi
            invariant
                lo <= i <= hi <= self@.len(),
                lo as int == scope_bounds(self@, scope).0,
                hi as int == scope_bounds(self@, scope).1,
                self@.len() == self.nodes.len(),
                tag_s@ == tag@,
                positions(out@) == all_tags(self@, lo as int, i as int, tag@),
            decreases hi - i,
        {
            assert(self@[i as int] == self.nodes[i as int]@);
            if self.nodes[i].tag == tag_s {
                out.push(i);
            }
            assert(positions(out@) =~= all_tags(self@, lo as int, i + 1, tag@));
            i = i + 1;
        }
        out
    }
}

/// The first element of `scope` that is a `tag` whose `class` attribute is
/// exactly `class`.
pub fn find_by_class(doc: &HtmlDocument, scope: Scope, tag: &str, class: &str) -> (res: Option<usize>)
    ensures
        res matches Some(i) ==> first_with(
            doc@,
            scope_bounds(doc@, scope).0,
            scope_bounds(doc@, scope).1,
            tag@,
            "class"@,
            class@,
        ) == Some(i as int),
        res is None ==> first_with(
            doc@,
            scope_bounds(doc@, scope).0,
            scope_bounds(doc@, scope).1,
            tag@,
            "class"@,
            class@,
        ) is None,
{
    doc.first_with_attr(scope, tag, "class", class)
}

/// The first element of `scope` that is a `tag` whose `id` attribute is
/// exactly `id`.
pub fn find_by_id(doc: &HtmlDocument, scope: Scope, tag: &str, id: &str) -> (res: Option<usize>)
    ensures
        res matches Some(i) ==> first_with(
            doc@,
            scope_bounds(doc@, scope).0,
            scope_bounds(doc@, scope).1,
            tag@,
            "id"@,
            id@,
        ) == Some(i as int),
        res is None ==> first_with(
            doc@,
            scope_bounds(doc@, scope).0,
            scope_bounds(doc@, scope).1,
            tag@,
            "id"@,
            id@,
        ) is None,
{
    doc.first_with_attr(scope, tag, "id", id)
}

/// All elements of `scope` that are a `tag` whose `class` attribute is
/// exactly `class`, in document order.
pub fn find_all_by_class(doc: &HtmlDocument, scope: Scope, tag: &str, class: &str) -> (res: Vec<usize>)
    ensures
        positions(res@) == all_with(
            doc@,
            scope_bounds(doc@, scope).0,
            scope_bounds(doc@, scope).1,
            tag@,
            "class"@,
            class@,
        ),
{
    doc.all_with_attr(scope, tag, "class", class)
}

} // verus!
