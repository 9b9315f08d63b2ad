//! Reading the articles off the search result page of each shop.
//!
//! Every shop lays its results out differently; for each of them a spec
//! function says, element by element, what the page yields: the list of
//! articles, no list at all (`None`), or a [`PageError`] where the page
//! breaks an assumption that the reading relies on.

use crate::html::{
    find_all_by_class, find_by_class, find_by_id, first_tag, first_with, all_tags, all_with,
    lemma_all_tags_in_range, lemma_all_with_in_range, lemma_first_tag_in_range,
    lemma_first_with_in_range, lemma_subtree_end, parse_html, parsed_html, attr_of,
    subtree_end, positions, HtmlDocument, NodeView, Scope,
};
use crate::text::{
    before_char, concat_str, first_piece, first_word, first_word_of, nth_line_1, nth_piece_1,
    remove_char, replace_char, second_line, second_piece, skip_bytes, drop_bytes, trim_whitespace,
    trimmed, with_char_replaced, without_char,
};
use vstd::prelude::*;

verus! {

/// An article offered by a shop.
pub struct Part {
    pub name: String,
    /// The price as a decimal number in text, with `.` before the decimals
    /// and no thousands separators, such as `1234.50`.
    pub price: String,
    pub description: String,
    pub link: String,
}

/// What a [`Part`] holds, as mathematical values.
pub struct PartView {
    pub name: Seq<char>,
    pub price: Seq<char>,
    pub description: Seq<char>,
    pub link: Seq<char>,
}

impl View for Part {
    type V = PartView;

    open spec fn view(&self) -> PartView {
        PartView {
            name: self.name@,
            price: self.price@,
            description: self.description@,
            link: self.link@,
        }
    }
}

impl Clone for Part {
    fn clone(&self) -> (res: Part)
        ensures
            res@ == self@,
    {
        Part {
            name: self.name.clone(),
            price: self.price.clone(),
            description: self.description.clone(),
            link: self.link.clone(),
        }
    }
}

/// What a page can lack that the reading of it relies on.
#[derive(Clone, Copy, Debug, PartialEq, Eq, Structural)]
pub enum PageError {
    /// An element that must be there is missing.
    MissingElement,
    /// A link has no `href`.
    MissingAttribute,
    /// An article name lacks its `| ` separator.
    MissingSeparator,
    /// A price cell has no second line.
    MissingLine,
    /// A price text has no word.
    MissingWord,
    /// A link is too short to drop its leading `..`.
    BadLink,
}

/// The shops whose pages this library reads.
#[derive(Clone, Copy, Debug, PartialEq, Eq, Structural)]
pub enum ShopKind {
    MikroPrinc,
    MgElectronic,
    Kelco,
    ProElectronic,
    Interhit,
}

/// The article with the given name, price and link, and no description.
pub open spec fn part_of(name: Seq<char>, price: Seq<char>, link: Seq<char>) -> PartView {
    PartView { name, price, description: Seq::empty(), link }
}

/// A price as written on a page (`1.234,50`) as a decimal number
/// (`1234.50`): thousands dots dropped, the decimal comma made a dot.
pub open spec fn price_text(w: Seq<char>) -> Seq<char> {
    with_char_replaced(without_char(w, '.'), ',', '.')
}

/// All but the first of `items`, none if there is none.
pub open spec fn after_first(items: Seq<int>) -> Seq<int> {
    if items.len() == 0 {
        items
    } else {
        items.skip(1)
    }
}

/// The article that the result block `j` of a Kelco page describes.
pub open spec fn kelco_entry(d: Seq<NodeView>, j: int) -> Result<Option<PartView>, PageError> {
    let end = subtree_end(d, j);
    match first_with(d, j, end, "div"@, "class"@, "pil_nameshort"@) {
        None => Ok(None),
        Some(n) => match second_piece(d[n].text, '|', ' ') {
            None => Err(PageError::MissingSeparator),
            Some(name) => match first_tag(d, n, subtree_end(d, n), "a"@) {
                None => Err(PageError::MissingElement),
                Some(a) => match attr_of(d[a].attrs, "href"@) {
                    None => Err(PageError::MissingAttribute),
                    Some(href) => match skip_bytes(href, 2) {
                        None => Err(PageError::BadLink),
                        Some(rest) => match first_with(d, j, end, "div"@, "class"@, "svecene"@) {
                            None => Ok(None),
                            Some(p) => match second_line(d[p].text) {
                                None => Err(PageError::MissingLine),
                                Some(line) => match first_word_of(trimmed(line)) {
                                    None => Err(PageError::MissingWord),
                                    Some(w) => Ok(
                                        Some(
                                            part_of(
                                                name,
                                                price_text(w),
                                                "http://www.kelco.rs"@ + rest,
                                            ),
                                        ),
                                    ),
                                },
                            },
                        },
                    },
                },
            },
        },
    }
}

/// The article that the table row `j` of a Mikroprinc page describes.
pub open spec fn mikro_princ_entry(d: Seq<NodeView>, j: int) -> Result<Option<PartView>, PageError> {
    let end = subtree_end(d, j);
    match first_with(d, j, end, "div"@, "class"@, "text-block"@) {
        None => Ok(None),
        Some(n) => match first_tag(d, n, subtree_end(d, n), "a"@) {
            None => Err(PageError::MissingElement),
            Some(a) => match attr_of(d[a].attrs, "href"@) {
                None => Err(PageError::MissingAttribute),
                Some(link) => match first_with(d, j, end, "div"@, "class"@, "price"@) {
                    None => Ok(None),
                    Some(p) => match first_word_of(trimmed(d[p].text)) {
                        None => Err(PageError::MissingWord),
                        Some(w) => Ok(Some(part_of(trimmed(d[a].text), price_text(w), link))),
                    },
                },
            },
        },
    }
}

/// The article that the table row `j` of an MG Elektronik page describes.
pub open spec fn mg_electronic_entry(d: Seq<NodeView>, j: int) -> Result<Option<PartView>, PageError> {
    let end = subtree_end(d, j);
    match first_with(d, j, end, "h4"@, "class"@, "list-view__title"@) {
        None => Ok(None),
        Some(t) => match first_tag(d, t, subtree_end(d, t), "a"@) {
            None => Ok(None),
            Some(a) => match attr_of(d[a].attrs, "href"@) {
                None => Err(PageError::MissingAttribute),
                Some(href) => match first_with(
                    d,
                    j,
                    end,
                    "td"@,
                    "class"@,
                    "list-view__cell list-view__price"@,
                ) {
                    None => Ok(None),
                    Some(c) => match first_tag(d, c, subtree_end(d, c), "li"@) {
                        None => Err(PageError::MissingElement),
                        Some(li) => Ok(
                            Some(
                                part_of(
                                    trimmed(d[a].text),
                                    price_text(before_char(trimmed(d[li].text), '(')),
                                    "https://www.mgelectronic.rs/"@ + href,
                                ),
                            ),
                        ),
                    },
                },
            },
        },
    }
}

/// The article that the product block `j` of a Proelectronic page describes.
pub open spec fn pro_electronic_entry(d: Seq<NodeView>, j: int) -> Result<Option<PartView>, PageError> {
    let end = subtree_end(d, j);
    match first_with(d, j, end, "div"@, "class"@, "xs-product-name"@) {
        None => Ok(None),
        Some(x) => match first_tag(d, x, subtree_end(d, x), "a"@) {
            None => Ok(None),
            Some(a) => match attr_of(d[a].attrs, "href"@) {
                None => Err(PageError::MissingAttribute),
                Some(href) => match first_with(d, j, end, "div"@, "class"@, "xs-product-price"@) {
                    None => Ok(None),
                    Some(p) => match first_word_of(trimmed(d[p].text)) {
                        None => Err(PageError::MissingWord),
                        Some(w) => Ok(
                            Some(
                                part_of(
                                    trimmed(d[a].text),
                                    without_char(w, ','),
                                    "http://www.proelectronic.rs/"@ + href,
                                ),
                            ),
                        ),
                    },
                },
            },
        },
    }
}

/// The article that the list item `j` of an Interhit page describes.
pub open spec fn interhit_entry(d: Seq<NodeView>, j: int) -> Result<Option<PartView>, PageError> {
    let end = subtree_end(d, j);
    match first_with(d, j, end, "div"@, "class"@, "product-shop"@) {
        None => Ok(None),
        Some(nd) => match first_tag(d, nd, subtree_end(d, nd), "a"@) {
            None => Ok(None),
            Some(a) => match first_with(d, j, end, "span"@, "class"@, "price"@) {
                None => Ok(None),
                Some(p) => match attr_of(d[a].attrs, "href"@) {
                    None => Err(PageError::MissingAttribute),
                    Some(link) => match first_word_of(d[p].text) {
                        None => Err(PageError::MissingWord),
                        Some(w) => Ok(Some(part_of(d[a].text, price_text(w), link))),
                    },
                },
            },
        },
    }
}

/// The article that the result block `j` of a page of shop `kind` describes.
pub open spec fn shop_entry(kind: ShopKind, d: Seq<NodeView>, j: int) -> Result<Option<PartView>, PageError> {
    match kind {
        ShopKind::MikroPrinc => mikro_princ_entry(d, j),
        ShopKind::MgElectronic => mg_electronic_entry(d, j),
        ShopKind::Kelco => kelco_entry(d, j),
        ShopKind::ProElectronic => pro_electronic_entry(d, j),
        ShopKind::Interhit => interhit_entry(d, j),
    }
}

/// The articles of the result blocks `items`, in order: blocks that
/// describe no article are passed over, and the first error stops it all.
pub open spec fn collect_entries(kind: ShopKind, d: Seq<NodeView>, items: Seq<int>) -> Result<Seq<PartView>, PageError>
    decreases items.len(),
{
    if items.len() == 0 {
        Ok(seq![])
    } else {
        match collect_entries(kind, d, items.drop_last()) {
            Err(e) => Err(e),
            Ok(ps) => match shop_entry(kind, d, items.last()) {
                Err(e) => Err(e),
                Ok(None) => Ok(ps),
                Ok(Some(p)) => Ok(ps.push(p)),
            },
        }
    }
}

/// The views of a list of articles.
pub open spec fn parts_view(v: Seq<Part>) -> Seq<PartView> {
    v.map_values(|p: Part| p@)
}

/// The view of what reading one result block gives.
pub open spec fn entry_view(r: Result<Option<Part>, PageError>) -> Result<Option<PartView>, PageError> {
    match r {
        Ok(Some(p)) => Ok(Some(p@)),
        Ok(None) => Ok(None),
        Err(e) => Err(e),
    }
}

/// The view of what reading a page gives.
pub open spec fn page_view(r: Result<Option<Vec<Part>>, PageError>) -> Result<Option<Seq<PartView>>, PageError> {
    match r {
        Ok(Some(v)) => Ok(Some(parts_view(v@))),
        Ok(None) => Ok(None),
        Err(e) => Err(e),
    }
}

/// A decimal price from a price word as a shop writes it.
pub fn normalize_price(w: &str) -> (res: String)
    ensures
        res@ == price_text(w@),
{
    let no_dots = remove_char(w, '.');
    proof {
        reveal_strlit(".");
    }
    replace_char(no_dots.as_str(), ',', ".")
}

fn read_kelco_entry(doc: &HtmlDocument, j: usize) -> (res: Result<Option<Part>, PageError>)
    requires
        j < doc@.len(),
    ensures
        entry_view(res) == kelco_entry(doc@, j as int),
{
    let ghost d = doc@;
    proof {
        lemma_subtree_end(d, j as int);
        lemma_first_with_in_range(d, j as int, subtree_end(d, j as int), "div"@, "class"@, "pil_nameshort"@);
        lemma_first_with_in_range(d, j as int, subtree_end(d, j as int), "div"@, "class"@, "svecene"@);
    }
    let n = match doc.first_with_attr(Scope::Element(j), "div", "class", "pil_nameshort") {
        None => return Ok(None),
        Some(n) => n,
    };
    assert(d[n as int] == doc.nodes[n as int]@);
    let name = match nth_piece_1(doc.nodes[n].text.as_str(), '|', ' ') {
        None => return Err(PageError::MissingSeparator),
        Some(x) => x,
    };
    proof {
        lemma_subtree_end(d, n as int);
        lemma_first_tag_in_range(d, n as int, subtree_end(d, n as int), "a"@);
    }
    let a = match doc.first_tag(Scope::Element(n), "a") {
        None => return Err(PageError::MissingElement),
        Some(a) => a,
    };
    assert(d[a as int] == doc.nodes[a as int]@);
    let href = match doc.nodes[a].get("href") {
        None => return Err(PageError::MissingAttribute),
        Some(h) => h,
    };
    let rest = match drop_bytes(href.as_str(), 2) {
        None => return Err(PageError::BadLink),
        Some(r) => r,
    };
    let link = concat_str("http://www.kelco.rs", rest.as_str());
    let p = match doc.first_with_attr(Scope::Element(j), "div", "class", "svecene") {
        None => return Ok(None),
        Some(p) => p,
    };
    assert(d[p as int] == doc.nodes[p as int]@);
    let line = match nth_line_1(doc.nodes[p].text.as_str()) {
        None => return Err(PageError::MissingLine),
        Some(l) => l,
    };
    let line = trim_whitespace(line.as_str());
    let word = match first_word(line.as_str()) {
        None => return Err(PageError::MissingWord),
        Some(w) => w,
    };
    let price = normalize_price(word.as_str());
    Ok(Some(Part { name, price, description: String::new(), link }))
}

fn read_mikro_princ_entry(doc: &HtmlDocument, j: usize) -> (res: Result<Option<Part>, PageError>)
    requires
        j < doc@.len(),
    ensures
        entry_view(res) == mikro_princ_entry(doc@, j as int),
{
    let ghost d = doc@;
    proof {
        lemma_subtree_end(d, j as int);
        lemma_first_with_in_range(d, j as int, subtree_end(d, j as int), "div"@, "class"@, "text-block"@);
        lemma_first_with_in_range(d, j as int, subtree_end(d, j as int), "div"@, "class"@, "price"@);
    }
    let n = match doc.first_with_attr(Scope::Element(j), "div", "class", "text-block") {
        None => return Ok(None),
        Some(n) => n,
    };
    proof {
        lemma_subtree_end(d, n as int);
        lemma_first_tag_in_range(d, n as int, subtree_end(d, n as int), "a"@);
    }
    let a = match doc.first_tag(Scope::Element(n), "a") {
        None => return Err(PageError::MissingElement),
        Some(a) => a,
    };
    assert(d[a as int] == doc.nodes[a as int]@);
    let name = trim_whitespace(doc.nodes[a].text.as_str());
    let link = match doc.nodes[a].get("href") {
        None => return Err(PageError::MissingAttribute),
        Some(h) => h,
    };
    let p = match doc.first_with_attr(Scope::Element(j), "div", "class", "price") {
        None => return Ok(None),
        Some(p) => p,
    };
    assert(d[p as int] == doc.nodes[p as int]@);
    let text = trim_whitespace(doc.nodes[p].text.as_str());
    let word = match first_word(text.as_str()) {
        None => return Err(PageError::MissingWord),
        Some(w) => w,
    };
    let price = normalize_price(word.as_str());
    Ok(Some(Part { name, price, description: String::new(), link }))
}

fn read_mg_electronic_entry(doc: &HtmlDocument, j: usize) -> (res: Result<Option<Part>, PageError>)
    requires
        j < doc@.len(),
    ensures
        entry_view(res) == mg_electronic_entry(doc@, j as int),
{
    let ghost d = doc@;
    proof {
        lemma_subtree_end(d, j as int);
        lemma_first_with_in_range(d, j as int, subtree_end(d, j as int), "h4"@, "class"@, "list-view__title"@);
        lemma_first_with_in_range(
            d,
            j as int,
            subtree_end(d, j as int),
            "td"@,
            "class"@,
            "list-view__cell list-view__price"@,
        );
    }
    let t = match doc.first_with_attr(Scope::Element(j), "h4", "class", "list-view__title") {
        None => return Ok(None),
        Some(t) => t,
    };
    proof {
        lemma_subtree_end(d, t as int);
        lemma_first_tag_in_range(d, t as int, subtree_end(d, t as int), "a"@);
    }
    let a = match doc.first_tag(Scope::Element(t), "a") {
        None => return Ok(None),
        Some(a) => a,
    };
    assert(d[a as int] == doc.nodes[a as int]@);
    let name = trim_whitespace(doc.nodes[a].text.as_str());
    let href = match doc.nodes[a].get("href") {
        None => return Err(PageError::MissingAttribute),
        Some(h) => h,
    };
    let link = concat_str("https://www.mgelectronic.rs/", href.as_str());
    let c = match doc.first_with_attr(
        Scope::Element(j),
        "td",
        "class",
        "list-view__cell list-view__price",
    ) {
        None => return Ok(None),
        Some(c) => c,
    };
    proof {
        lemma_subtree_end(d, c as int);
        lemma_first_tag_in_range(d, c as int, subtree_end(d, c as int), "li"@);
    }
    let li = match doc.first_tag(Scope::Element(c), "li") {
        None => return Err(PageError::MissingElement),
        Some(li) => li,
    };
    assert(d[li as int] == doc.nodes[li as int]@);
    let text = trim_whitespace(doc.nodes[li].text.as_str());
    let head = first_piece(text.as_str(), '(');
    let price = normalize_price(head.as_str());
    Ok(Some(Part { name, price, description: String::new(), link }))
}

fn read_pro_electronic_entry(doc: &HtmlDocument, j: usize) -> (res: Result<Option<Part>, PageError>)
    requires
        j < doc@.len(),
    ensures
        entry_view(res) == pro_electronic_entry(doc@, j as int),
{
    let ghost d = doc@;
    proof {
        lemma_subtree_end(d, j as int);
        lemma_first_with_in_range(d, j as int, subtree_end(d, j as int), "div"@, "class"@, "xs-product-name"@);
        lemma_first_with_in_range(d, j as int, subtree_end(d, j as int), "div"@, "class"@, "xs-product-price"@);
    }
    let x = match doc.first_with_attr(Scope::Element(j), "div", "class", "xs-product-name") {
        None => return Ok(None),
        Some(x) => x,
    };
    proof {
        lemma_subtree_end(d, x as int);
        lemma_first_tag_in_range(d, x as int, subtree_end(d, x as int), "a"@);
    }
    let a = match doc.first_tag(Scope::Element(x), "a") {
        None => return Ok(None),
        Some(a) => a,
    };
    assert(d[a as int] == doc.nodes[a as int]@);
    let name = trim_whitespace(doc.nodes[a].text.as_str());
    let href = match doc.nodes[a].get("href") {
        None => return Err(PageError::MissingAttribute),
        Some(h) => h,
    };
    let link = concat_str("http://www.proelectronic.rs/", href.as_str());
    let p = match doc.first_with_attr(Scope::Element(j), "div", "class", "xs-product-price") {
        None => return Ok(None),
        Some(p) => p,
    };
    assert(d[p as int] == doc.nodes[p as int]@);
    let text = trim_whitespace(doc.nodes[p].text.as_str());
    let word = match first_word(text.as_str()) {
        None => return Err(PageError::MissingWord),
        Some(w) => w,
    };
    let price = remove_char(word.as_str(), ',');
    Ok(Some(Part { name, price, description: String::new(), link }))
}

fn read_interhit_entry(doc: &HtmlDocument, j: usize) -> (res: Result<Option<Part>, PageError>)
    requires
        j < doc@.len(),
    ensures
        entry_view(res) == interhit_entry(doc@, j as int),
{
    let ghost d = doc@;
    proof {
        lemma_subtree_end(d, j as int);
        lemma_first_with_in_range(d, j as int, subtree_end(d, j as int), "div"@, "class"@, "product-shop"@);
        lemma_first_with_in_range(d, j as int, subtree_end(d, j as int), "span"@, "class"@, "price"@);
    }
    let nd = match doc.first_with_attr(Scope::Element(j), "div", "class", "product-shop") {
        None => return Ok(None),
        Some(nd) => nd,
    };
    proof {
        lemma_subtree_end(d, nd as int);
        lemma_first_tag_in_range(d, nd as int, subtree_end(d, nd as int), "a"@);
    }
    let a = match doc.first_tag(Scope::Element(nd), "a") {
        None => return Ok(None),
        Some(a) => a,
    };
    let p = match doc.first_with_attr(Scope::Element(j), "span", "class", "price") {
        None => return Ok(None),
        Some(p) => p,
    };
    assert(d[a as int] == doc.nodes[a as int]@);
    assert(d[p as int] == doc.nodes[p as int]@);
    let name = doc.nodes[a].text.clone();
    let link = match doc.nodes[a].get("href") {
        None => return Err(PageError::MissingAttribute),
        Some(h) => h,
    };
    let word = match first_word(doc.nodes[p].text.as_str()) {
        None => return Err(PageError::MissingWord),
        Some(w) => w,
    };
    let price = normalize_price(word.as_str());
    Ok(Some(Part { name, price, description: String::new(), link }))
}

/// Reads the result block `j` of a page of shop `kind`.
fn read_entry(kind: ShopKind, doc: &HtmlDocument, j: usize) -> (res: Result<Option<Part>, PageError>)
    requires
        j < doc@.len(),
    ensures
        entry_view(res) == shop_entry(kind, doc@, j as int),
{
    match kind {
        ShopKind::MikroPrinc => read_mikro_princ_entry(doc, j),
        ShopKind::MgElectronic => read_mg_electronic_entry(doc, j),
        ShopKind::Kelco => read_kelco_entry(doc, j),
        ShopKind::ProElectronic => read_pro_electronic_entry(doc, j),
        ShopKind::Interhit => read_interhit_entry(doc, j),
    }
}

/// Reads the result blocks `items[from..]` of a page of shop `kind`, in
/// order.
fn read_entries(kind: ShopKind, doc: &HtmlDocument, items: &Vec<usize>, from: usize) -> (res: Result<Vec<Part>, PageError>)
    requires
        from <= items.len(),
        forall|k: int| 0 <= k < items.len() ==> items@[k] < doc@.len(),
    ensures
        res matches Ok(v) ==> collect_entries(kind, doc@, positions(items@).skip(from as int)) == Ok::<Seq<PartView>, PageError>(parts_view(v@)),
        res matches Err(e) ==> collect_entries(kind, doc@, positions(items@).skip(from as int)) == Err::<Seq<PartView>, PageError>(e),
{
    let ghost all = positions(items@).skip(from as int);
    let mut out: Vec<Part> = Vec::new();
    let mut i = from;
    assert(all.take(0) =~= Seq::<int>::empty());
    assert(parts_view(out@) =~= Seq::<PartView>::empty());
    while i < items.len()
        invariant
            from <= i <= items.len(),
            all == positions(items@).skip(from as int),
            all.len() == items.len() - from,
            forall|k: int| 0 <= k < items.len() ==> items@[k] < doc@.len(),
            collect_entries(kind, doc@, all.take(i - from)) == Ok::<Seq<PartView>, PageError>(parts_view(out@)),
        decreases items.len() - i,
    {
        let j = items[i];
        let ghost prefix = all.take(i + 1 - from);
        assert(prefix.drop_last() =~= all.take(i - from));
        assert(prefix.last() == j as int);
        match read_entry(kind, doc, j) {
            Err(e) => {
                proof {
                    lemma_collect_err_extends(kind, doc@, all, (i + 1 - from) as int);
                }
                return Err(e);
            },
            Ok(None) => {},
            Ok(Some(p)) => {
                let ghost before = out@;
                out.push(p);
                assert(parts_view(out@) =~= parts_view(before).push(p@));
            },
        }
        i = i + 1;
    }
    assert(all.take(items.len() - from) =~= all);
    Ok(out)
}

/// Once the articles of a prefix of `items` end in an error, those of all
/// of `items` end in the same error.
proof fn lemma_collect_err_extends(kind: ShopKind, d: Seq<NodeView>, items: Seq<int>, k: int)
    requires
        0 <= k <= items.len(),
        collect_entries(kind, d, items.take(k)) is Err,
    ensures
        collect_entries(kind, d, items) == collect_entries(kind, d, items.take(k)),
    decreases items.len() - k,
{
    if k == items.len() {
        assert(items.take(k) =~= items);
    } else {
        assert(items.take(k + 1).drop_last() =~= items.take(k));
        lemma_collect_err_extends(kind, d, items, k + 1);
    }
}

/// The articles, or `None` for a page without any.
pub open spec fn some_if_any(r: Result<Seq<PartView>, PageError>) -> Result<Option<Seq<PartView>>, PageError> {
    match r {
        Err(e) => Err(e),
        Ok(ps) => if ps.len() == 0 {
            Ok(None)
        } else {
            Ok(Some(ps))
        },
    }
}

/// The articles, even if there are none.
pub open spec fn always_some(r: Result<Seq<PartView>, PageError>) -> Result<Option<Seq<PartView>>, PageError> {
    match r {
        Err(e) => Err(e),
        Ok(ps) => Ok(Some(ps)),
    }
}

/// What a Kelco search page yields: the result blocks of the first
/// `div.row` inside the first `div.products_list`.
pub open spec fn kelco_page(d: Seq<NodeView>) -> Result<Option<Seq<PartView>>, PageError> {
    match first_with(d, 0, d.len() as int, "div"@, "class"@, "products_list"@) {
        None => Ok(None),
        Some(pl) => match first_with(d, pl, subtree_end(d, pl), "div"@, "class"@, "row"@) {
            None => Ok(None),
            Some(row) => some_if_any(
                collect_entries(
                    ShopKind::Kelco,
                    d,
                    all_with(d, row, subtree_end(d, row), "div"@, "class"@, "asinItem"@),
                ),
            ),
        },
    }
}

/// What a Mikroprinc search page yields: the table rows, but the first,
/// of the first `div.products-table`, which the page must have.
pub open spec fn mikro_princ_page(d: Seq<NodeView>) -> Result<Option<Seq<PartView>>, PageError> {
    match first_with(d, 0, d.len() as int, "div"@, "class"@, "products-table"@) {
        None => Err(PageError::MissingElement),
        Some(t) => some_if_any(
            collect_entries(ShopKind::MikroPrinc, d, after_first(all_tags(d, t, subtree_end(d, t), "tr"@))),
        ),
    }
}

/// What an MG Elektronik search page yields: the table rows, but the
/// first, of the first `table.list-view` in the first `div` of the first
/// `div.search-results`.
pub open spec fn mg_electronic_page(d: Seq<NodeView>) -> Result<Option<Seq<PartView>>, PageError> {
    match first_with(d, 0, d.len() as int, "div"@, "class"@, "search-results"@) {
        None => Ok(None),
        Some(sm) => match first_tag(d, sm, subtree_end(d, sm), "div"@) {
            None => Err(PageError::MissingElement),
            Some(out) => match first_with(d, out, subtree_end(d, out), "table"@, "class"@, "list-view"@) {
                None => Ok(None),
                Some(tb) => always_some(
                    collect_entries(
                        ShopKind::MgElectronic,
                        d,
                        after_first(all_tags(d, tb, subtree_end(d, tb), "tr"@)),
                    ),
                ),
            },
        },
    }
}

/// What a Proelectronic search page yields: the product blocks of the
/// first `div.row.row-fix-flex`.
pub open spec fn pro_electronic_page(d: Seq<NodeView>) -> Result<Option<Seq<PartView>>, PageError> {
    match first_with(d, 0, d.len() as int, "div"@, "class"@, "row row-fix-flex"@) {
        None => Ok(None),
        Some(sd) => some_if_any(
            collect_entries(
                ShopKind::ProElectronic,
                d,
                all_with(d, sd, subtree_end(d, sd), "div"@, "class"@, "col-lg-3 col-md-4 col-sm-6 col-xs-12"@),
            ),
        ),
    }
}

/// What an Interhit search page yields: the list items of the first
/// `ul#product_list`.
pub open spec fn interhit_page(d: Seq<NodeView>) -> Result<Option<Seq<PartView>>, PageError> {
    match first_with(d, 0, d.len() as int, "ul"@, "id"@, "product_list"@) {
        None => Ok(None),
        Some(sd) => always_some(collect_entries(ShopKind::Interhit, d, all_tags(d, sd, subtree_end(d, sd), "li"@))),
    }
}

/// What a search page of shop `kind` yields.
pub open spec fn shop_page(kind: ShopKind, d: Seq<NodeView>) -> Result<Option<Seq<PartView>>, PageError> {
    match kind {
        ShopKind::MikroPrinc => mikro_princ_page(d),
        ShopKind::MgElectronic => mg_electronic_page(d),
        ShopKind::Kelco => kelco_page(d),
        ShopKind::ProElectronic => pro_electronic_page(d),
        ShopKind::Interhit => interhit_page(d),
    }
}

/// Reads the result blocks `items` (all of them, or all but the first) of a
/// page of shop `kind`.
fn read_blocks(kind: ShopKind, doc: &HtmlDocument, items: &Vec<usize>, skip_first: bool) -> (res: Result<Vec<Part>, PageError>)
    requires
        forall|k: int| 0 <= k < positions(items@).len() ==> 0 <= #[trigger] positions(items@)[k] < doc@.len(),
    ensures
        ({
            let ints = positions(items@);
            let blocks = if skip_first { after_first(ints) } else { ints };
            &&& res matches Ok(v) ==> collect_entries(kind, doc@, blocks) == Ok::<Seq<PartView>, PageError>(parts_view(v@))
            &&& res matches Err(e) ==> collect_entries(kind, doc@, blocks) == Err::<Seq<PartView>, PageError>(e)
        }),
{
    let ghost ints = positions(items@);
    assert forall|k: int| 0 <= k < items.len() implies items@[k] < doc@.len() by {
        assert(ints[k] == items@[k] as int);
    }
    let from: usize = if skip_first && items.len() > 0 { 1 } else { 0 };
    assert(ints.skip(0) =~= ints);
    read_entries(kind, doc, items, from)
}

/// How many of the result blocks `items` of a Kelco page its reading passes
/// over for lack of a name block or a price block (the reading says so for
/// each), counted up to the first error.
pub open spec fn kelco_skipped(d: Seq<NodeView>, items: Seq<int>) -> nat
    decreases items.len(),
{
    if items.len() == 0 {
        0
    } else {
        let before = kelco_skipped(d, items.drop_last());
        match collect_entries(ShopKind::Kelco, d, items.drop_last()) {
            Err(_) => before,
            Ok(_) => if kelco_entry(d, items.last()) == Ok::<Option<PartView>, PageError>(None) {
                before + 1
            } else {
                before
            },
        }
    }
}

/// How many result blocks the reading of a Kelco page passes over.
pub open spec fn kelco_notices(d: Seq<NodeView>) -> nat {
    match first_with(d, 0, d.len() as int, "div"@, "class"@, "products_list"@) {
        None => 0,
        Some(pl) => match first_with(d, pl, subtree_end(d, pl), "div"@, "class"@, "row"@) {
            None => 0,
            Some(row) => kelco_skipped(d, all_with(d, row, subtree_end(d, row), "div"@, "class"@, "asinItem"@)),
        },
    }
}

/// How many result blocks the reading of a page of shop `kind` reports as
/// passed over: only Kelco's reading reports them.
pub open spec fn page_notices(kind: ShopKind, d: Seq<NodeView>) -> nat {
    match kind {
        ShopKind::Kelco => kelco_notices(d),
        _ => 0,
    }
}

/// Once the reading of a prefix of `items` ends in an error, the blocks
/// after it count for nothing.
proof fn lemma_skipped_after_err(d: Seq<NodeView>, items: Seq<int>, k: int)
    requires
        0 <= k <= items.len(),
        collect_entries(ShopKind::Kelco, d, items.take(k)) is Err,
    ensures
        kelco_skipped(d, items) == kelco_skipped(d, items.take(k)),
    decreases items.len() - k,
{
    if k == items.len() {
        assert(items.take(k) =~= items);
    } else {
        assert(items.take(k + 1).drop_last() =~= items.take(k));
        lemma_skipped_after_err(d, items, k + 1);
    }
}

/// Counts the result blocks that the reading of a Kelco page passes over.
pub fn count_kelco_notices(doc: &HtmlDocument) -> (res: usize)
    ensures
        res == kelco_notices(doc@),
{
    let ghost d = doc@;
    let pl = match find_by_class(doc, Scope::Document, "div", "products_list") {
        None => return 0,
        Some(pl) => pl,
    };
    proof {
        lemma_first_with_in_range(d, 0, d.len() as int, "div"@, "class"@, "products_list"@);
        lemma_subtree_end(d, pl as int);
        lemma_first_with_in_range(d, pl as int, subtree_end(d, pl as int), "div"@, "class"@, "row"@);
    }
    let row = match find_by_class(doc, Scope::Element(pl), "div", "row") {
        None => return 0,
        Some(row) => row,
    };
    proof {
        lemma_subtree_end(d, row as int);
        lemma_all_with_in_range(d, row as int, subtree_end(d, row as int), "div"@, "class"@, "asinItem"@);
    }
    let items = find_all_by_class(doc, Scope::Element(row), "div", "asinItem");
    let ghost all = positions(items@);
    assert forall|k: int| 0 <= k < items.len() implies items@[k] < doc@.len() by {
        assert(all[k] == items@[k] as int);
    }
    let mut count: usize = 0;
    let mut i: usize = 0;
    assert(all.take(0) =~= Seq::<int>::empty());
    assert(kelco_notices(d) == kelco_skipped(d, all));
    while i < items.len()
        invariant
            i <= items.len(),
            count <= i,
            d == doc@,
            kelco_notices(d) == kelco_skipped(d, all),
            all == positions(items@),
            all.len() == items.len(),
            forall|k: int| 0 <= k < items.len() ==> items@[k] < doc@.len(),
            collect_entries(ShopKind::Kelco, d, all.take(i as int)) is Ok,
            count == kelco_skipped(d, all.take(i as int)),
        decreases items.len() - i,
    {
        let j = items[i];
        let ghost prefix = all.take(i + 1);
        assert(prefix.drop_last() =~= all.take(i as int));
        assert(prefix.last() == j as int);
        match read_entry(ShopKind::Kelco, doc, j) {
            Err(_) => {
                proof {
                    assert(kelco_entry(d, j as int) is Err);
                    assert(collect_entries(ShopKind::Kelco, d, prefix) is Err);
                    lemma_skipped_after_err(d, all, (i + 1) as int);
                    assert(all.take(items.len() as int) =~= all);
                }
                return count;
            },
            Ok(None) => {
                count = count + 1;
            },
            Ok(Some(_)) => {},
        }
        i = i + 1;
    }
    assert(all.take(items.len() as int) =~= all);
    count
}

/// Counts the result blocks that the reading of a page of shop `kind`
/// reports as passed over.
pub fn count_notices(kind: ShopKind, doc: &HtmlDocument) -> (res: usize)
    ensures
        res == page_notices(kind, doc@),
{
    match kind {
        ShopKind::Kelco => count_kelco_notices(doc),
        _ => 0,
    }
}

/// Reads the articles off a Kelco search page.
pub fn scrape_kelco(doc: &HtmlDocument) -> (res: Result<Option<Vec<Part>>, PageError>)
    ensures
        page_view(res) == kelco_page(doc@),
{
    let ghost d = doc@;
    let pl = match find_by_class(doc, Scope::Document, "div", "products_list") {
        None => return Ok(None),
        Some(pl) => pl,
    };
    proof {
        lemma_first_with_in_range(d, 0, d.len() as int, "div"@, "class"@, "products_list"@);
        lemma_subtree_end(d, pl as int);
        lemma_first_with_in_range(d, pl as int, subtree_end(d, pl as int), "div"@, "class"@, "row"@);
    }
    let row = match find_by_class(doc, Scope::Element(pl), "div", "row") {
        None => return Ok(None),
        Some(row) => row,
    };
    proof {
        lemma_subtree_end(d, row as int);
        lemma_all_with_in_range(d, row as int, subtree_end(d, row as int), "div"@, "class"@, "asinItem"@);
    }
    let items = find_all_by_class(doc, Scope::Element(row), "div", "asinItem");
    match read_blocks(ShopKind::Kelco, doc, &items, false) {
        Err(e) => Err(e),
        Ok(parts) => if parts.len() == 0 {
            Ok(None)
        } else {
            Ok(Some(parts))
        },
    }
}

/// Reads the articles off a Mikroprinc search page.
pub fn scrape_mikro_princ(doc: &HtmlDocument) -> (res: Result<Option<Vec<Part>>, PageError>)
    ensures
        page_view(res) == mikro_princ_page(doc@),
{
    let ghost d = doc@;
    let t = match find_by_class(doc, Scope::Document, "div", "products-table") {
        None => return Err(PageError::MissingElement),
        Some(t) => t,
    };
    proof {
        lemma_first_with_in_range(d, 0, d.len() as int, "div"@, "class"@, "products-table"@);
        lemma_subtree_end(d, t as int);
        lemma_all_tags_in_range(d, t as int, subtree_end(d, t as int), "tr"@);
    }
    let rows = doc.all_tags(Scope::Element(t), "tr");
    match read_blocks(ShopKind::MikroPrinc, doc, &rows, true) {
        Err(e) => Err(e),
        Ok(parts) => if parts.len() == 0 {
            Ok(None)
        } else {
            Ok(Some(parts))
        },
    }
}

/// Reads the articles off an MG Elektronik search page.
pub fn scrape_mg_electronic(doc: &HtmlDocument) -> (res: Result<Option<Vec<Part>>, PageError>)
    ensures
        page_view(res) == mg_electronic_page(doc@),
{
    let ghost d = doc@;
    let sm = match find_by_class(doc, Scope::Document, "div", "search-results") {
        None => return Ok(None),
        Some(sm) => sm,
    };
    proof {
        lemma_first_with_in_range(d, 0, d.len() as int, "div"@, "class"@, "search-results"@);
        lemma_subtree_end(d, sm as int);
        lemma_first_tag_in_range(d, sm as int, subtree_end(d, sm as int), "div"@);
    }
    let out = match doc.first_tag(Scope::Element(sm), "div") {
        None => return Err(PageError::MissingElement),
        Some(out) => out,
    };
    proof {
        lemma_subtree_end(d, out as int);
        lemma_first_with_in_range(d, out as int, subtree_end(d, out as int), "table"@, "class"@, "list-view"@);
    }
    let tb = match find_by_class(doc, Scope::Element(out), "table", "list-view") {
        None => return Ok(None),
        Some(tb) => tb,
    };
    proof {
        lemma_subtree_end(d, tb as int);
        lemma_all_tags_in_range(d, tb as int, subtree_end(d, tb as int), "tr"@);
    }
    let rows = doc.all_tags(Scope::Element(tb), "tr");
    match read_blocks(ShopKind::MgElectronic, doc, &rows, true) {
        Err(e) => Err(e),
        Ok(parts) => Ok(Some(parts)),
    }
}

/// Reads the articles off a Proelectronic search page.
pub fn scrape_pro_electronic(doc: &HtmlDocument) -> (res: Result<Option<Vec<Part>>, PageError>)
    ensures
        page_view(res) == pro_electronic_page(doc@),
{
    let ghost d = doc@;
    let sd = match find_by_class(doc, Scope::Document, "div", "row row-fix-flex") {
        None => return Ok(None),
        Some(sd) => sd,
    };
    proof {
        lemma_first_with_in_range(d, 0, d.len() as int, "div"@, "class"@, "row row-fix-flex"@);
        lemma_subtree_end(d, sd as int);
        lemma_all_with_in_range(
            d,
            sd as int,
            subtree_end(d, sd as int),
            "div"@,
            "class"@,
            "col-lg-3 col-md-4 col-sm-6 col-xs-12"@,
        );
    }
    let items = find_all_by_class(doc, Scope::Element(sd), "div", "col-lg-3 col-md-4 col-sm-6 col-xs-12");
    match read_blocks(ShopKind::ProElectronic, doc, &items, false) {
        Err(e) => Err(e),
        Ok(parts) => if parts.len() == 0 {
            Ok(None)
        } else {
            Ok(Some(parts))
        },
    }
}

/// Reads the articles off an Interhit search page.
pub fn scrape_interhit(doc: &HtmlDocument) -> (res: Result<Option<Vec<Part>>, PageError>)
    ensures
        page_view(res) == interhit_page(doc@),
{
    let ghost d = doc@;
    let sd = match find_by_id(doc, Scope::Document, "ul", "product_list") {
        None => return Ok(None),
        Some(sd) => sd,
    };
    proof {
        lemma_first_with_in_range(d, 0, d.len() as int, "ul"@, "id"@, "product_list"@);
        lemma_subtree_end(d, sd as int);
        lemma_all_tags_in_range(d, sd as int, subtree_end(d, sd as int), "li"@);
    }
    let items = doc.all_tags(Scope::Element(sd), "li");
    match read_blocks(ShopKind::Interhit, doc, &items, false) {
        Err(e) => Err(e),
        Ok(parts) => Ok(Some(parts)),
    }
}

/// Reads the articles off a search page of shop `kind`.
pub fn scrape_page(kind: ShopKind, doc: &HtmlDocument) -> (res: Result<Option<Vec<Part>>, PageError>)
    ensures
        page_view(res) == shop_page(kind, doc@),
{
    match kind {
        ShopKind::MikroPrinc => scrape_mikro_princ(doc),
        ShopKind::MgElectronic => scrape_mg_electronic(doc),
        ShopKind::Kelco => scrape_kelco(doc),
        ShopKind::ProElectronic => scrape_pro_electronic(doc),
        ShopKind::Interhit => scrape_interhit(doc),
    }
}

/// The articles on the Mikroprinc search page `html`. The page must not break
/// what its reading relies on (see [`query_shop`] for any page).
pub fn query_mikro_princ(html: String) -> (res: Option<Vec<Part>>)
    requires
        mikro_princ_page(parsed_html(html@)) is Ok,
    ensures
        page_view(Ok(res)) == mikro_princ_page(parsed_html(html@)),
{
    let doc = parse_html(html.as_str());
    match scrape_mikro_princ(&doc) {
        Ok(r) => r,
        Err(_) => None,
    }
}

/// The articles on the MG Elektronik search page `html`. The page must not break
/// what its reading relies on (see [`query_shop`] for any page).
pub fn query_mg_electronic(html: String) -> (res: Option<Vec<Part>>)
    requires
        mg_electronic_page(parsed_html(html@)) is Ok,
    ensures
        page_view(Ok(res)) == mg_electronic_page(parsed_html(html@)),
{
    let doc = parse_html(html.as_str());
    match scrape_mg_electronic(&doc) {
        Ok(r) => r,
        Err(_) => None,
    }
}

/// The articles on the Kelco search page `html`. The page must not break
/// what its reading relies on (see [`query_shop`] for any page).
pub fn query_kelco(html: String) -> (res: Option<Vec<Part>>)
    requires
        kelco_page(parsed_html(html@)) is Ok,
    ensures
        page_view(Ok(res)) == kelco_page(parsed_html(html@)),
{
    let doc = parse_html(html.as_str());
    match scrape_kelco(&doc) {
        Ok(r) => r,
        Err(_) => None,
    }
}

/// The articles on the Proelectronic search page `html`. The page must not break
/// what its reading relies on (see [`query_shop`] for any page).
pub fn query_pro_electronic(html: String) -> (res: Option<Vec<Part>>)
    requires
        pro_electronic_page(parsed_html(html@)) is Ok,
    ensures
        page_view(Ok(res)) == pro_electronic_page(parsed_html(html@)),
{
    let doc = parse_html(html.as_str());
    match scrape_pro_electronic(&doc) {
        Ok(r) => r,
        Err(_) => None,
    }
}

/// The articles on the Interhit search page `html`. The page must not break
/// what its reading relies on (see [`query_shop`] for any page).
pub fn query_interhit(html: String) -> (res: Option<Vec<Part>>)
    requires
        interhit_page(parsed_html(html@)) is Ok,
    ensures
        page_view(Ok(res)) == interhit_page(parsed_html(html@)),
{
    let doc = parse_html(html.as_str());
    match scrape_interhit(&doc) {
        Ok(r) => r,
        Err(_) => None,
    }
}

/// The articles on the search page `html` of shop `kind`, or the error
/// that stops its reading.
pub fn query_shop(kind: ShopKind, html: String) -> (res: Result<Option<Vec<Part>>, PageError>)
    ensures
        page_view(res) == shop_page(kind, parsed_html(html@)),
{
    let doc = parse_html(html.as_str());
    match scrape_page(kind, &doc) {
        Err(e) => Err(e),
        Ok(_) => Ok(
            match kind {
                ShopKind::MikroPrinc => query_mikro_princ(html),
                ShopKind::MgElectronic => query_mg_electronic(html),
                ShopKind::Kelco => query_kelco(html),
                ShopKind::ProElectronic => query_pro_electronic(html),
                ShopKind::Interhit => query_interhit(html),
            },
        ),
    }
}

} // verus!
