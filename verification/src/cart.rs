//! The shops, their baskets, and the choices that fill the baskets while a
//! bill of materials is being bought.

use crate::html::{parse_html, parsed_html};
use crate::shops::{
    count_notices, page_notices, page_view, query_shop, scrape_page, shop_page, PageError, Part,
    PartView, ShopKind,
};
use crate::text::{
    lemma_encode_len, string_views, byte_len, concat_str, contains, decimal, is_boundary, padded_end, padded_start, str_contains,
    to_decimal, trunc_padd, trunc_padd_start,
};
use vstd::prelude::*;

verus! {

/// The articles chosen in one shop, each with the number of pieces.
pub struct Korpa {
    pub artikli: Vec<(Part, usize)>,
}

/// The view of basket entries.
pub open spec fn basket_view(v: Seq<(Part, usize)>) -> Seq<(PartView, nat)> {
    v.map_values(|e: (Part, usize)| (e.0@, e.1 as nat))
}

impl View for Korpa {
    type V = Seq<(PartView, nat)>;

    open spec fn view(&self) -> Seq<(PartView, nat)> {
        basket_view(self.artikli@)
    }
}

/// A shop: its name, which page layout it has, the basket filled in it, and
/// the two halves of its search address, between which the searched name
/// goes.
pub struct Prodavnica {
    pub name: String,
    pub shop: ShopKind,
    pub korpa: Korpa,
    pub url: (String, String),
}

/// What a [`Prodavnica`] holds, as mathematical values.
pub struct ShopView {
    pub name: Seq<char>,
    pub shop: ShopKind,
    pub basket: Seq<(PartView, nat)>,
    pub url: (Seq<char>, Seq<char>),
}

impl View for Prodavnica {
    type V = ShopView;

    open spec fn view(&self) -> ShopView {
        ShopView { name: self.name@, shop: self.shop, basket: self.korpa@, url: (self.url.0@, self.url.1@) }
    }
}

/// The views of a list of shops.
pub open spec fn shops_view(v: Seq<Prodavnica>) -> Seq<ShopView> {
    v.map_values(|p: Prodavnica| p@)
}

impl Clone for Korpa {
    fn clone(&self) -> (res: Korpa)
        ensures
            res@ == self@,
    {
        let mut artikli: Vec<(Part, usize)> = Vec::new();
        let mut i: usize = 0;
        while i < self.artikli.len()
            invariant
                i <= self.artikli.len(),
                basket_view(artikli@) == basket_view(self.artikli@.take(i as int)),
            decreases self.artikli.len() - i,
        {
            let ghost before = artikli@;
            let e = &self.artikli[i];
            let c = e.0.clone();
            artikli.push((c, e.1));
            assert(basket_view(artikli@) =~= basket_view(before).push((e.0@, e.1 as nat)));
            assert(self.artikli@.take(i + 1) =~= self.artikli@.take(i as int).push(*e));
            assert(basket_view(self.artikli@.take(i + 1)) =~= basket_view(self.artikli@.take(i as int)).push(
                (e.0@, e.1 as nat),
            ));
            i = i + 1;
        }
        assert(self.artikli@.take(i as int) =~= self.artikli@);
        Korpa { artikli }
    }
}

impl Clone for Prodavnica {
    fn clone(&self) -> (res: Prodavnica)
        ensures
            res@ == self@,
    {
        Prodavnica {
            name: self.name.clone(),
            shop: self.shop,
            korpa: self.korpa.clone(),
            url: (self.url.0.clone(), self.url.1.clone()),
        }
    }
}

/// A shop with an empty basket.
pub open spec fn new_shop(name: Seq<char>, shop: ShopKind, start: Seq<char>, end: Seq<char>) -> ShopView {
    ShopView { name, shop, basket: Seq::empty(), url: (start, end) }
}

impl Prodavnica {
    /// A shop with an empty basket.
    pub fn new(name: &str, shop: ShopKind, url_start: &str, url_end: &str) -> (res: Prodavnica)
        ensures
            res@ == new_shop(name@, shop, url_start@, url_end@),
    {
        let res = Prodavnica {
            name: name.to_owned(),
            shop,
            korpa: Korpa { artikli: Vec::new() },
            url: (url_start.to_owned(), url_end.to_owned()),
        };
        assert(res.korpa@ =~= Seq::<(PartView, nat)>::empty());
        res
    }

    /// The address of the shop's search page for `part_name`.
    pub fn search_url(&self, part_name: &str) -> (res: String)
        ensures
            res@ == self.url.0@ + part_name@ + self.url.1@,
    {
        let head = concat_str(self.url.0.as_str(), part_name);
        concat_str(head.as_str(), self.url.1.as_str())
    }

    /// The articles on the shop's search page `html`, or the error that
    /// stops its reading.
    pub fn query(&self, html: String) -> (res: Result<Option<Vec<Part>>, PageError>)
        ensures
            page_view(res) == shop_page(self.shop, parsed_html(html@)),
    {
        query_shop(self.shop, html)
    }
}

/// The shops that are searched, in the order in which they are listed.
pub fn shop_list() -> (res: Vec<Prodavnica>)
    ensures
        shops_view(res@) == seq![
            new_shop(
                "Mikroprinc"@,
                ShopKind::MikroPrinc,
                "https://www.mikroprinc.com/sr/pretraga?phrase="@,
                "&min_price=0.00&max_price=1170833.32&limit=80&sort[price]=1"@,
            ),
            new_shop(
                "MG Elektronik"@,
                ShopKind::MgElectronic,
                "https://www.mgelectronic.rs/search?Cid=0&As=true&Isc=true&Sid=true&q="@,
                "&AsUI=false&sos=false&orderby=10&pagesize=100&viewmode=list"@,
            ),
            new_shop(
                "Kelco"@,
                ShopKind::Kelco,
                "http://www.kelco.rs/katalog/komponente.php?q="@,
                "&search="@,
            ),
            new_shop(
                "Proelekronik"@,
                ShopKind::ProElectronic,
                "http://www.proelectronic.rs/pretraga?cat=0&q="@,
                ""@,
            ),
            new_shop(
                "Interhit"@,
                ShopKind::Interhit,
                "http://www.interhit.rs/pretraga?orderby=position&orderway=desc&search_query="@,
                "&submit_search.x=0&submit_search.y=0"@,
            ),
        ],
{
    let mut res = Vec::new();
    res.push(
        Prodavnica::new(
            "Mikroprinc",
            ShopKind::MikroPrinc,
            "https://www.mikroprinc.com/sr/pretraga?phrase=",
            "&min_price=0.00&max_price=1170833.32&limit=80&sort[price]=1",
        ),
    );
    res.push(
        Prodavnica::new(
            "MG Elektronik",
            ShopKind::MgElectronic,
            "https://www.mgelectronic.rs/search?Cid=0&As=true&Isc=true&Sid=true&q=",
            "&AsUI=false&sos=false&orderby=10&pagesize=100&viewmode=list",
        ),
    );
    res.push(
        Prodavnica::new(
            "Kelco",
            ShopKind::Kelco,
            "http://www.kelco.rs/katalog/komponente.php?q=",
            "&search=",
        ),
    );
    res.push(
        Prodavnica::new(
            "Proelekronik",
            ShopKind::ProElectronic,
            "http://www.proelectronic.rs/pretraga?cat=0&q=",
            "",
        ),
    );
    res.push(
        Prodavnica::new(
            "Interhit",
            ShopKind::Interhit,
            "http://www.interhit.rs/pretraga?orderby=position&orderway=desc&search_query=",
            "&submit_search.x=0&submit_search.y=0",
        ),
    );
    assert(shops_view(res@) =~= seq![
        new_shop(
            "Mikroprinc"@,
            ShopKind::MikroPrinc,
            "https://www.mikroprinc.com/sr/pretraga?phrase="@,
            "&min_price=0.00&max_price=1170833.32&limit=80&sort[price]=1"@,
        ),
        new_shop(
            "MG Elektronik"@,
            ShopKind::MgElectronic,
            "https://www.mgelectronic.rs/search?Cid=0&As=true&Isc=true&Sid=true&q="@,
            "&AsUI=false&sos=false&orderby=10&pagesize=100&viewmode=list"@,
        ),
        new_shop("Kelco"@, ShopKind::Kelco, "http://www.kelco.rs/katalog/komponente.php?q="@, "&search="@),
        new_shop(
            "Proelekronik"@,
            ShopKind::ProElectronic,
            "http://www.proelectronic.rs/pretraga?cat=0&q="@,
            ""@,
        ),
        new_shop(
            "Interhit"@,
            ShopKind::Interhit,
            "http://www.interhit.rs/pretraga?orderby=position&orderway=desc&search_query="@,
            "&submit_search.x=0&submit_search.y=0"@,
        ),
    ]);
    res
}

/// The search addresses of all `shops` for `part_name`, in order.
pub fn search_urls(shops: &Vec<Prodavnica>, part_name: &str) -> (res: Vec<String>)
    ensures
        res@.len() == shops@.len(),
        forall|i: int| 0 <= i < shops@.len() ==> #[trigger] res@[i]@ == shops@[i].url.0@ + part_name@ + shops@[i].url.1@,
{
    let mut res: Vec<String> = Vec::new();
    let mut i: usize = 0;
    while i < shops.len()
        invariant
            i <= shops.len(),
            res@.len() == i,
            forall|k: int| 0 <= k < i ==> #[trigger] res@[k]@ == shops@[k].url.0@ + part_name@ + shops@[k].url.1@,
        decreases shops.len() - i,
    {
        res.push(shops[i].search_url(part_name));
        i = i + 1;
    }
    res
}

/// The shops of `shops` whose position is not in `removed`, in order.
pub open spec fn kept_shops(shops: Seq<ShopView>, removed: Seq<usize>) -> Seq<ShopView>
    decreases shops.len(),
{
    if shops.len() == 0 {
        seq![]
    } else if removed.contains((shops.len() - 1) as usize) {
        kept_shops(shops.drop_last(), removed)
    } else {
        kept_shops(shops.drop_last(), removed).push(shops.last())
    }
}

/// Whether `v` holds `x`.
fn holds(v: &Vec<usize>, x: usize) -> (b: bool)
    ensures
        b == v@.contains(x),
{
    let mut i: usize = 0;
    while i < v.len()
        invariant
            i <= v.len(),
            forall|k: int| 0 <= k < i ==> v@[k] != x,
        decreases v.len() - i,
    {
        if v[i] == x {
            return true;
        }
        i = i + 1;
    }
    false
}

/// The shops of `shops` whose position is not in `removed`, in their
/// order: the shops that stay after some were dropped.
pub fn keep_shops(shops: Vec<Prodavnica>, removed: &Vec<usize>) -> (res: Vec<Prodavnica>)
    ensures
        shops_view(res@) == kept_shops(shops_view(shops@), removed@),
{
    let ghost all = shops_view(shops@);
    let total = shops.len();
    let mut rest = shops;
    let mut out: Vec<Prodavnica> = Vec::new();
    let mut n: usize = 0;
    assert(all.take(0) =~= Seq::<ShopView>::empty());
    assert(shops_view(out@) =~= Seq::<ShopView>::empty());
    while rest.len() > 0
        invariant
            n + rest@.len() == all.len(),
            all.len() == total,
            shops_view(rest@) == all.skip(n as int),
            shops_view(out@) == kept_shops(all.take(n as int), removed@),
        decreases rest.len(),
    {
        let ghost before_rest = rest@;
        let p = rest.remove(0);
        assert(p@ == all[n as int]) by {
            assert(shops_view(before_rest)[0] == before_rest[0]@);
        }
        assert forall|k: int| 0 <= k < rest@.len() implies shops_view(rest@)[k] == all.skip(n + 1)[k] by {
            assert(rest@[k] == before_rest[k + 1]);
            assert(shops_view(before_rest)[k + 1] == before_rest[k + 1]@);
        }
        assert(shops_view(rest@) =~= all.skip(n + 1));
        let ghost before_out = out@;
        let ghost prefix = all.take(n + 1);
        assert(prefix.drop_last() =~= all.take(n as int));
        assert(prefix.last() == all[n as int]);
        if !holds(removed, n) {
            out.push(p);
            assert(shops_view(out@) =~= shops_view(before_out).push(p@));
        }
        n = n + 1;
    }
    assert(all.take(n as int) =~= all);
    out
}

/// A basket whose last entry gets the number of pieces `qty`.
pub open spec fn with_last_quantity(basket: Seq<(PartView, nat)>, qty: nat) -> Seq<(PartView, nat)> {
    basket.update(basket.len() - 1, (basket.last().0, qty))
}

/// A shop whose last basket entry gets the number of pieces `qty`.
pub open spec fn with_last_set(v: ShopView, qty: nat) -> ShopView {
    ShopView { basket: with_last_quantity(v.basket, qty), ..v }
}

/// Sets the number of pieces of the article chosen last in each shop to
/// `qty`; every basket must hold an entry.
pub fn set_last_quantities(shops: &mut Vec<Prodavnica>, qty: usize)
    requires
        forall|i: int| 0 <= i < old(shops)@.len() ==> #[trigger] old(shops)@[i].korpa.artikli@.len() > 0,
    ensures
        final(shops)@.len() == old(shops)@.len(),
        forall|i: int|
            0 <= i < old(shops)@.len() ==> #[trigger] final(shops)@[i]@ == with_last_set(old(shops)@[i]@, qty as nat),
{
    let ghost orig = shops@;
    let mut i: usize = 0;
    while i < shops.len()
        invariant
            shops@.len() == orig.len(),
            i <= shops@.len(),
            forall|k: int| i <= k < orig.len() ==> #[trigger] shops@[k] == orig[k],
            forall|k: int| 0 <= k < orig.len() ==> #[trigger] orig[k].korpa.artikli@.len() > 0,
            forall|k: int|
                0 <= k < i ==> #[trigger] shops@[k]@ == with_last_set(orig[k]@, qty as nat),
        decreases shops@.len() - i,
    {
        let ghost before = shops@;
        let mut p = shops.remove(i);
        assert(p == orig[i as int]);
        let ghost pb = p.korpa.artikli@;
        let last = p.korpa.artikli.pop();
        match last {
            Some(e) => {
                p.korpa.artikli.push((e.0, qty));
                assert(basket_view(p.korpa.artikli@) =~= with_last_quantity(basket_view(pb), qty as nat));
            },
            None => {},
        }
        shops.insert(i, p);
        assert forall|k: int| 0 <= k < orig.len() && k != i implies #[trigger] shops@[k] == before[k] by {
            assert(shops@[k] == before[k]);
        }
        i = i + 1;
    }
}

/// The basket entry for a shop that lacks a part the user still buys.
pub open spec fn placeholder() -> PartView {
    PartView { name: "None"@, price: "0"@, description: "None"@, link: ""@ }
}

/// Puts the article at `index` of `artikli` into the basket `list`, with no
/// pieces yet.
pub fn choose_article(list: &mut Vec<(Part, usize)>, artikli: &Vec<Part>, index: usize)
    requires
        index < artikli@.len(),
    ensures
        basket_view(final(list)@) == basket_view(old(list)@).push((artikli@[index as int]@, 0nat)),
{
    let ghost before = list@;
    list.push((artikli[index].clone(), 0));
    assert(basket_view(list@) =~= basket_view(before).push((artikli@[index as int]@, 0nat)));
}

/// Answers a shop that lacks the part: an answer with a `y` in it drops
/// shop `n` (its position is returned and the basket is left alone); any
/// other answer puts a placeholder with no pieces into the basket `list`.
pub fn answer_missing(n: usize, answer: &str, list: &mut Vec<(Part, usize)>) -> (res: Option<usize>)
    ensures
        contains(answer@, "y"@) ==> res == Some(n) && final(list)@ == old(list)@,
        !contains(answer@, "y"@) ==> res is None && basket_view(final(list)@) == basket_view(
            old(list)@,
        ).push((placeholder(), 0nat)),
{
    if str_contains(answer, "y") {
        Some(n)
    } else {
        let ghost before = list@;
        let part = Part {
            name: "None".to_owned(),
            price: "0".to_owned(),
            description: "None".to_owned(),
            link: "".to_owned(),
        };
        list.push((part, 0));
        assert(basket_view(list@) =~= basket_view(before).push((placeholder(), 0nat)));
        None
    }
}

/// The label of article `n` of a listing: its number, a dot and its name.
pub open spec fn article_label(n: nat, name: Seq<char>) -> Seq<char> {
    decimal(n) + seq!['.'] + name
}

/// One line of the listing of a shop's articles: `n.name` in a column of 30
/// bytes, the price text right-aligned in a column of 10 bytes, then
/// ` RSD`. Neither column may be cut in the middle of a character.
pub fn article_line(n: usize, name: &str, price: &str) -> (res: String)
    requires
        byte_len(article_label(n as nat, name@)) > 30 ==> is_boundary(article_label(n as nat, name@), 30),
        byte_len(price@) > 10 ==> is_boundary(price@, 10),
    ensures
        res@ == padded_end(article_label(n as nat, name@), 30) + padded_start(price@, 10) + " RSD"@,
{
    let mut label = to_decimal(n);
    proof {
        reveal_strlit(".");
    }
    label.append(".");
    label.append(name);
    assert(label@ =~= article_label(n as nat, name@));
    let left = trunc_padd(label.as_str(), 30);
    let right = trunc_padd_start(price, 10);
    let line = concat_str(left.as_str(), right.as_str());
    concat_str(line.as_str(), " RSD")
}

/// Whether an answer ends the list of parts to buy.
pub fn wants_to_finish(answer: &str) -> (b: bool)
    ensures
        b == contains(answer@, "kraj kupovine"@),
{
    str_contains(answer, "kraj kupovine")
}

/// Whether a downloaded page is too short (under 10 bytes) to be the shop's
/// search page, as when the shop has left its address.
pub fn page_is_missing(html: &str) -> (b: bool)
    ensures
        b == (byte_len(html@) < 10),
{
    proof {
        lemma_encode_len(html@);
    }
    html.as_bytes().len() < 10
}

/// Each shop that stays is a shop at a position that was not dropped.
pub proof fn lemma_kept_come_from_kept_positions(shops: Seq<ShopView>, removed: Seq<usize>)
    ensures
        forall|k: int|
            0 <= k < kept_shops(shops, removed).len() ==> exists|i: int|
                0 <= i < shops.len() && !removed.contains(i as usize) && #[trigger] kept_shops(
                    shops,
                    removed,
                )[k] == shops[i],
    decreases shops.len(),
{
    if shops.len() > 0 {
        let init = shops.drop_last();
        lemma_kept_come_from_kept_positions(init, removed);
        let rest = kept_shops(init, removed);
        let all = kept_shops(shops, removed);
        assert forall|k: int| 0 <= k < all.len() implies exists|i: int|
            0 <= i < shops.len() && !removed.contains(i as usize) && #[trigger] all[k] == shops[i] by {
            if k < rest.len() {
                assert(all[k] == rest[k]);
                let i = choose|i: int| 0 <= i < init.len() && !removed.contains(i as usize) && rest[k] == init[i];
                assert(shops[i] == init[i]);
            } else {
                assert(all[k] == shops[shops.len() - 1]);
            }
        }
    }
}

/// Ends the round of one part: drops the shops at the positions `removed`
/// and sets the number of pieces of the article chosen last in each shop
/// that stays to `qty`. Every shop that stays must hold an entry.
pub fn end_round(shops: Vec<Prodavnica>, removed: &Vec<usize>, qty: usize) -> (res: Vec<Prodavnica>)
    requires
        forall|i: int|
            0 <= i < shops@.len() && !removed@.contains(i as usize) ==> #[trigger] shops@[i].korpa.artikli@.len() > 0,
    ensures
        res@.len() == kept_shops(shops_view(shops@), removed@).len(),
        forall|i: int|
            0 <= i < res@.len() ==> #[trigger] res@[i]@ == with_last_set(
                kept_shops(shops_view(shops@), removed@)[i],
                qty as nat,
            ),
{
    let ghost all = shops_view(shops@);
    let mut kept = keep_shops(shops, removed);
    proof {
        lemma_kept_come_from_kept_positions(all, removed@);
        assert forall|k: int| 0 <= k < kept@.len() implies #[trigger] kept@[k].korpa.artikli@.len() > 0 by {
            assert(shops_view(kept@)[k] == kept@[k]@);
            let i = choose|i: int|
                0 <= i < all.len() && !removed@.contains(i as usize) && kept_shops(all, removed@)[k] == all[i];
            assert(all[i] == shops@[i]@);
            assert(shops@[i].korpa.artikli@.len() == shops@[i]@.basket.len());
            assert(kept@[k].korpa.artikli@.len() == kept@[k]@.basket.len());
        }
    }
    let ghost before = kept@;
    set_last_quantities(&mut kept, qty);
    assert forall|i: int| 0 <= i < kept@.len() implies #[trigger] kept@[i]@ == with_last_set(
        kept_shops(all, removed@)[i],
        qty as nat,
    ) by {
        assert(shops_view(before)[i] == before[i]@);
    }
    kept
}

/// What is done with the next downloaded page of a round.
pub enum PageStep {
    /// The page is too short: the shop has left its address. The page is
    /// not used up.
    Gone,
    /// The page was read: how many result blocks the reading reports as
    /// passed over, and what the page yields.
    Read { notices: usize, articles: Result<Option<Vec<Part>>, PageError> },
}

/// What a step yields: nothing for a shop that is gone, else the number of
/// reported blocks and what reading the page gave.
pub open spec fn step_view(r: PageStep) -> Option<(nat, Result<Option<Seq<PartView>>, PageError>)> {
    match r {
        PageStep::Gone => None,
        PageStep::Read { notices, articles } => Some((notices as nat, page_view(articles))),
    }
}

/// Takes the next page of a round for `shop`, the shop at position `n`: a
/// page under 10 bytes marks the shop as gone, adds `n` to the positions
/// to drop, and stays in `htmls`; any other page is taken out of `htmls`
/// and read with the shop's layout.
pub fn next_page(htmls: &mut Vec<String>, shop: &Prodavnica, n: usize, removed: &mut Vec<usize>) -> (res: PageStep)
    requires
        old(htmls)@.len() > 0,
    ensures
        byte_len(old(htmls)@[0]@) < 10 ==> final(htmls)@ == old(htmls)@ && step_view(res) is None
            && final(removed)@ == old(removed)@.push(n),
        byte_len(old(htmls)@[0]@) >= 10 ==> final(htmls)@ == old(htmls)@.drop_first() && step_view(res)
            == Some(
            (
                page_notices(shop.shop, parsed_html(old(htmls)@[0]@)),
                shop_page(shop.shop, parsed_html(old(htmls)@[0]@)),
            ),
        ) && final(removed)@ == old(removed)@,
{
    if page_is_missing(htmls[0].as_str()) {
        removed.push(n);
        return PageStep::Gone;
    }
    let html = htmls.remove(0);
    assert(htmls@ =~= old(htmls)@.drop_first());
    let doc = parse_html(html.as_str());
    let notices = count_notices(shop.shop, &doc);
    let articles = scrape_page(shop.shop, &doc);
    PageStep::Read { notices, articles }
}

/// A row of the final table: each cell cut or padded to `width` bytes
/// (right-aligned if `right`), each followed by `|`.
pub open spec fn table_row_text(cells: Seq<Seq<char>>, width: nat, right: bool) -> Seq<char>
    decreases cells.len(),
{
    if cells.len() == 0 {
        seq![]
    } else {
        table_row_text(cells.drop_last(), width, right) + (if right {
            padded_start(cells.last(), width)
        } else {
            padded_end(cells.last(), width)
        }) + seq!['|']
    }
}

/// A row of the final table: each cell cut or padded to `width` bytes
/// (right-aligned if `right`), each followed by `|`. No cell may be cut in
/// the middle of a character.
pub fn table_row(cells: &Vec<String>, width: usize, right: bool) -> (res: String)
    requires
        forall|i: int|
            0 <= i < cells@.len() ==> byte_len(#[trigger] cells@[i]@) > width ==> is_boundary(cells@[i]@, width as int),
    ensures
        res@ == table_row_text(string_views(cells@), width as nat, right),
{
    let ghost cv = string_views(cells@);
    let mut out = String::new();
    let mut i: usize = 0;
    proof {
        reveal_strlit("|");
        assert(cv.take(0) =~= Seq::<Seq<char>>::empty());
    }
    while i < cells.len()
        invariant
            i <= cells.len(),
            cv == string_views(cells@),
            cv.len() == cells.len(),
            "|"@ == seq!['|'],
            forall|k: int|
                0 <= k < cells@.len() ==> byte_len(#[trigger] cells@[k]@) > width ==> is_boundary(cells@[k]@, width as int),
            out@ == table_row_text(cv.take(i as int), width as nat, right),
        decreases cells.len() - i,
    {
        let cell = cells[i].as_str();
        assert(cv.take(i + 1).drop_last() =~= cv.take(i as int));
        assert(cv.take(i + 1).last() == cell@);
        let c = if right {
            trunc_padd_start(cell, width)
        } else {
            trunc_padd(cell, width)
        };
        out.append(c.as_str());
        out.append("|");
        i = i + 1;
    }
    assert(cv.take(cells.len() as int) =~= cv);
    out
}

/// The line that gives an article's link: its name in a column of 25 bytes,
/// ` -> `, then the link. The name may not be cut in the middle of a
/// character.
pub fn link_line(name: &str, link: &str) -> (res: String)
    requires
        byte_len(name@) > 25 ==> is_boundary(name@, 25),
    ensures
        res@ == padded_end(name@, 25) + " -> "@ + link@,
{
    let left = trunc_padd(name, 25);
    let with_arrow = concat_str(left.as_str(), " -> ");
    concat_str(with_arrow.as_str(), link)
}

} // verus!
