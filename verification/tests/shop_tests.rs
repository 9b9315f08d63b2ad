use parts_shopper::shops::{
    count_kelco_notices, count_notices, normalize_price, query_kelco, query_mg_electronic, query_mikro_princ, query_shop, scrape_page,
    PageError, Part, ShopKind,
};
use parts_shopper::html::{HtmlDocument, HtmlNode};

fn parts(r: &Option<Vec<Part>>) -> Vec<(String, String, String, String)> {
    r.as_ref()
        .unwrap()
        .iter()
        .map(|p| (p.name.clone(), p.price.clone(), p.description.clone(), p.link.clone()))
        .collect()
}

const KELCO: &str = r#"<html><body>
<div class="products_list"><div class="row">
  <div class="asinItem">
    <div class="pil_nameshort"><a href="../katalog/x.php?id=1">BC | Tranzistor BC547 | NPN</a></div>
    <div class="svecene">Cena:
      1.234,50 din
    </div>
  </div>
  <div class="asinItem"><div class="other">nothing</div></div>
</div></div>
</body></html>"#;

#[test]
fn kelco_page_yields_articles() {
    let r = query_shop(ShopKind::Kelco, KELCO.to_string()).unwrap();
    assert_eq!(
        parts(&r),
        vec![(
            "Tranzistor BC547 ".to_string(),
            "1234.50".to_string(),
            "".to_string(),
            "http://www.kelco.rs/katalog/x.php?id=1".to_string()
        )]
    );
    let direct = query_kelco(KELCO.to_string());
    assert_eq!(parts(&direct), parts(&r));
}

#[test]
fn kelco_page_without_list_yields_none() {
    let r = query_shop(ShopKind::Kelco, "<html><body><p>Nema rezultata</p></body></html>".to_string());
    assert!(matches!(r, Ok(None)));
}

#[test]
fn kelco_page_with_only_empty_blocks_yields_none() {
    let html = r#"<div class="products_list"><div class="row"><div class="asinItem"></div></div></div>"#;
    assert!(matches!(query_shop(ShopKind::Kelco, html.to_string()), Ok(None)));
}

#[test]
fn kelco_name_without_separator_is_an_error() {
    let html = KELCO.replace("BC | Tranzistor BC547 | NPN", "Tranzistor BC547");
    assert_eq!(query_shop(ShopKind::Kelco, html).err(), Some(PageError::MissingSeparator));
}

#[test]
fn kelco_short_link_is_an_error() {
    let html = KELCO.replace("../katalog/x.php?id=1", "x");
    assert_eq!(query_shop(ShopKind::Kelco, html).err(), Some(PageError::BadLink));
}

#[test]
fn kelco_link_without_href_is_an_error() {
    let html = KELCO.replace(r#"<a href="../katalog/x.php?id=1">"#, "<a>");
    assert_eq!(query_shop(ShopKind::Kelco, html).err(), Some(PageError::MissingAttribute));
}

#[test]
fn kelco_name_without_link_is_an_error() {
    let html = KELCO
        .replace(r#"<a href="../katalog/x.php?id=1">"#, "<span>")
        .replace("NPN</a>", "NPN</span>");
    assert_eq!(query_shop(ShopKind::Kelco, html).err(), Some(PageError::MissingElement));
}

#[test]
fn kelco_price_on_one_line_is_an_error() {
    let html = KELCO.replace("Cena:\n      1.234,50 din\n    ", "1.234,50 din");
    assert_eq!(query_shop(ShopKind::Kelco, html).err(), Some(PageError::MissingLine));
}

#[test]
fn kelco_blank_price_line_is_an_error() {
    let html = KELCO.replace("      1.234,50 din", "   x  ");
    assert_eq!(query_shop(ShopKind::Kelco, html).err(), Some(PageError::MissingWord));
}

const MIKRO: &str = r#"<div class="products-table"><table>
<tr><th>Naziv</th><th>Cena</th></tr>
<tr><td><div class="text-block"><a href="https://www.mikroprinc.com/sr/p/1">  Otpornik   10k  </a></div></td><td><div class="price">12,00 RSD</div></td></tr>
<tr><td>reklama</td></tr>
</table></div>"#;

#[test]
fn mikro_princ_page_yields_articles() {
    let r = query_shop(ShopKind::MikroPrinc, MIKRO.to_string()).unwrap();
    assert_eq!(
        parts(&r),
        vec![(
            "Otpornik 10k".to_string(),
            "12.00".to_string(),
            "".to_string(),
            "https://www.mikroprinc.com/sr/p/1".to_string()
        )]
    );
    assert_eq!(parts(&query_mikro_princ(MIKRO.to_string())), parts(&r));
}

#[test]
fn mikro_princ_page_without_table_is_an_error() {
    let r = query_shop(ShopKind::MikroPrinc, "<p>prazno</p>".to_string());
    assert_eq!(r.err(), Some(PageError::MissingElement));
}

#[test]
fn mikro_princ_skips_the_header_row() {
    let html = r#"<div class="products-table"><table><tr><td><div class="text-block"><a href="h">Glava</a></div><div class="price">1,00</div></td></tr></table></div>"#;
    assert!(matches!(query_shop(ShopKind::MikroPrinc, html.to_string()), Ok(None)));
}

#[test]
fn mikro_princ_empty_price_is_an_error() {
    let html = MIKRO.replace("12,00 RSD", " ");
    assert_eq!(query_shop(ShopKind::MikroPrinc, html).err(), Some(PageError::MissingWord));
}

const MG: &str = r#"<div class="search-results"><div><table class="list-view">
<tr><th>x</th></tr>
<tr><td><h4 class="list-view__title"><a href="proizvod/123"> Kondenzator  100nF </a></h4></td>
<td class="list-view__cell list-view__price"><ul><li> 1.050,00(sa PDV) </li></ul></td></tr>
<tr><td>bez naslova</td></tr>
</table></div></div>"#;

#[test]
fn mg_electronic_page_yields_articles() {
    let r = query_shop(ShopKind::MgElectronic, MG.to_string()).unwrap();
    assert_eq!(
        parts(&r),
        vec![(
            "Kondenzator 100nF".to_string(),
            "1050.00".to_string(),
            "".to_string(),
            "https://www.mgelectronic.rs/proizvod/123".to_string()
        )]
    );
    assert_eq!(parts(&query_mg_electronic(MG.to_string())), parts(&r));
}

#[test]
fn mg_electronic_empty_table_yields_empty_list() {
    let html = r#"<div class="search-results"><table class="list-view"><tr><th>x</th></tr></table></div>"#;
    let r = query_shop(ShopKind::MgElectronic, html.to_string()).unwrap();
    assert_eq!(r.map(|v| v.len()), Some(0));
}

#[test]
fn mg_electronic_missing_price_item_is_an_error() {
    let html = MG.replace("<ul><li> 1.050,00(sa PDV) </li></ul>", "1.050,00");
    assert_eq!(query_shop(ShopKind::MgElectronic, html).err(), Some(PageError::MissingElement));
}

#[test]
fn mg_electronic_link_without_href_is_an_error() {
    let html = MG.replace(r#"<a href="proizvod/123">"#, "<a>");
    assert_eq!(query_shop(ShopKind::MgElectronic, html).err(), Some(PageError::MissingAttribute));
}

const PRO: &str = r#"<div class="row row-fix-flex">
 <div class="col-lg-3 col-md-4 col-sm-6 col-xs-12">
  <div class="xs-product-name"><a href="proizvod/55">Dioda 1N4148</a></div>
  <div class="xs-product-price">1,234.00 RSD</div>
 </div>
 <div class="col-lg-3 col-md-4 col-sm-6 col-xs-12"><div class="xs-product-name">bez linka</div></div>
</div>"#;

#[test]
fn pro_electronic_page_yields_articles() {
    let r = query_shop(ShopKind::ProElectronic, PRO.to_string()).unwrap();
    assert_eq!(
        parts(&r),
        vec![(
            "Dioda 1N4148".to_string(),
            "1234.00".to_string(),
            "".to_string(),
            "http://www.proelectronic.rs/proizvod/55".to_string()
        )]
    );
}

#[test]
fn pro_electronic_page_without_results_yields_none() {
    let html = r#"<div class="row row-fix-flex"></div>"#;
    assert!(matches!(query_shop(ShopKind::ProElectronic, html.to_string()), Ok(None)));
}

const INTERHIT: &str = r#"<ul id="product_list"><li><div class="product-shop"><a href="http://www.interhit.rs/p/9"> LED crvena </a></div><span class="price">25,00 din</span></li><li>prazno</li></ul>"#;

#[test]
fn interhit_page_yields_articles() {
    let r = query_shop(ShopKind::Interhit, INTERHIT.to_string()).unwrap();
    assert_eq!(
        parts(&r),
        vec![(
            " LED crvena ".to_string(),
            "25.00".to_string(),
            "".to_string(),
            "http://www.interhit.rs/p/9".to_string()
        )]
    );
}

#[test]
fn interhit_page_without_list_yields_none() {
    assert!(matches!(query_shop(ShopKind::Interhit, "<ul></ul>".to_string()), Ok(None)));
}

#[test]
fn interhit_empty_price_is_an_error() {
    let html = INTERHIT.replace("25,00 din", "");
    assert_eq!(query_shop(ShopKind::Interhit, html).err(), Some(PageError::MissingWord));
}

#[test]
fn normalize_price_drops_thousands_dots() {
    assert_eq!(normalize_price("1.234.567,89"), "1234567.89");
    assert_eq!(normalize_price("12"), "12");
    assert!(!normalize_price("1,2,3").contains(','));
}

fn node(tag: &str, attrs: &[(&str, &str)], text: &str, size: usize) -> HtmlNode {
    HtmlNode {
        tag: tag.to_string(),
        attrs: attrs.iter().map(|(k, v)| (k.to_string(), v.to_string())).collect(),
        text: text.to_string(),
        size,
    }
}

#[test]
fn scrape_page_reads_a_hand_built_document() {
    // ul#product_list > li > (div.product-shop > a), span.price
    let doc = HtmlDocument {
        nodes: vec![
            node("ul", &[("id", "product_list")], "Otpornik 1,50 din", 5),
            node("li", &[], "Otpornik 1,50 din", 4),
            node("div", &[("class", "product-shop")], "Otpornik", 2),
            node("a", &[("href", "/p/1")], "Otpornik", 1),
            node("span", &[("class", "price")], "1,50 din", 1),
        ],
    };
    let r = scrape_page(ShopKind::Interhit, &doc).unwrap();
    assert_eq!(
        parts(&r),
        vec![("Otpornik".to_string(), "1.50".to_string(), "".to_string(), "/p/1".to_string())]
    );
}

#[test]
fn first_of_two_same_named_attributes_counts() {
    // an SVG link with both `href` and `xlink:href`: soup's `get` gives the first
    let html = r#"<ul id="product_list"><li><div class="product-shop"><svg><a href="/first" xlink:href="/second">Kabl</a></svg></div><span class="price">3,00</span></li></ul>"#;
    let r = query_shop(ShopKind::Interhit, html.to_string()).unwrap();
    assert_eq!(r.unwrap()[0].link, "/first");
}

#[test]
fn kelco_blocks_without_name_or_price_are_counted() {
    // div.products_list > div.row > (div.asinItem > div.other), (div.asinItem > div.pil_nameshort > a)
    let doc = HtmlDocument {
        nodes: vec![
            node("div", &[("class", "products_list")], "x A | Dioda", 6),
            node("div", &[("class", "row")], "x A | Dioda", 5),
            node("div", &[("class", "asinItem")], "x", 2),
            node("div", &[("class", "other")], "x", 1),
            node("div", &[("class", "asinItem")], "A | Dioda", 3),
            node("div", &[("class", "pil_nameshort")], "A | Dioda", 2),
            node("a", &[("href", "../k/1")], "A | Dioda", 1),
        ],
    };
    // the first block has no name; the second has no price
    assert_eq!(count_kelco_notices(&doc), 2);
    assert_eq!(count_notices(ShopKind::Kelco, &doc), 2);
    assert_eq!(count_notices(ShopKind::Interhit, &doc), 0);
    let empty = HtmlDocument { nodes: vec![] };
    assert_eq!(count_kelco_notices(&empty), 0);
}
