use parts_shopper::cart::{
    answer_missing, article_line, choose_article, end_round, keep_shops, link_line, next_page,
    page_is_missing, search_urls, set_last_quantities, shop_list, table_row, wants_to_finish,
    PageStep, Prodavnica,
};
use parts_shopper::shops::{PageError, Part, ShopKind};

fn part(name: &str) -> Part {
    Part {
        name: name.to_string(),
        price: "1.00".to_string(),
        description: String::new(),
        link: format!("http://x/{name}"),
    }
}

#[test]
fn shop_list_has_the_five_shops() {
    let shops = shop_list();
    let names: Vec<&str> = shops.iter().map(|p| p.name.as_str()).collect();
    assert_eq!(names, vec!["Mikroprinc", "MG Elektronik", "Kelco", "Proelekronik", "Interhit"]);
    assert!(shops.iter().all(|p| p.korpa.artikli.is_empty()));
    assert_eq!(shops[2].shop, ShopKind::Kelco);
    assert_eq!(shops[3].url.1, "");
}

#[test]
fn search_url_puts_the_part_between_the_halves() {
    let shops = shop_list();
    assert_eq!(
        shops[2].search_url("BC547"),
        "http://www.kelco.rs/katalog/komponente.php?q=BC547&search="
    );
    let urls = search_urls(&shops, "LM317");
    assert_eq!(urls.len(), 5);
    assert_eq!(urls[3], "http://www.proelectronic.rs/pretraga?cat=0&q=LM317");
    assert_eq!(
        urls[0],
        "https://www.mikroprinc.com/sr/pretraga?phrase=LM317&min_price=0.00&max_price=1170833.32&limit=80&sort[price]=1"
    );
}

#[test]
fn query_reads_with_the_shops_layout() {
    let shops = shop_list();
    let r = shops[0].query("<p>nothing</p>".to_string());
    assert_eq!(r.err(), Some(PageError::MissingElement));
    let r = shops[4].query("<p>nothing</p>".to_string());
    assert!(matches!(r, Ok(None)));
}

#[test]
fn keep_shops_drops_listed_positions() {
    let shops = shop_list();
    let kept = keep_shops(shops, &vec![1, 3]);
    let names: Vec<&str> = kept.iter().map(|p| p.name.as_str()).collect();
    assert_eq!(names, vec!["Mikroprinc", "Kelco", "Interhit"]);
}

#[test]
fn keep_shops_with_nothing_removed_keeps_all() {
    let kept = keep_shops(shop_list(), &vec![]);
    assert_eq!(kept.len(), 5);
    let kept = keep_shops(shop_list(), &vec![0, 1, 2, 3, 4, 7]);
    assert!(kept.is_empty());
}

#[test]
fn choosing_and_setting_quantities() {
    let mut shops = vec![
        Prodavnica::new("A", ShopKind::Kelco, "a?", ""),
        Prodavnica::new("B", ShopKind::Interhit, "b?", ""),
    ];
    let offers = vec![part("x"), part("y")];
    choose_article(&mut shops[0].korpa.artikli, &offers, 1);
    assert_eq!(answer_missing(1, "ne\n", &mut shops[1].korpa.artikli), None);
    set_last_quantities(&mut shops, 7);
    assert_eq!(shops[0].korpa.artikli.len(), 1);
    assert_eq!(shops[0].korpa.artikli[0].0.name, "y");
    assert_eq!(shops[0].korpa.artikli[0].1, 7);
    assert_eq!(shops[1].korpa.artikli[0].0.name, "None");
    assert_eq!(shops[1].korpa.artikli[0].0.price, "0");
    assert_eq!(shops[1].korpa.artikli[0].1, 7);
    assert_eq!(shops[1].name, "B");
}

#[test]
fn answer_yes_drops_the_shop() {
    let mut list = vec![(part("x"), 2)];
    assert_eq!(answer_missing(3, "yes\n", &mut list), Some(3));
    assert_eq!(list.len(), 1);
}

#[test]
fn article_line_lays_out_columns() {
    let line = article_line(3, "Otpornik", "12.5");
    assert_eq!(line, format!("{:<30}{:>10} RSD", "3.Otpornik", "12.5"));
    let long = article_line(12, "Vrlo dugačak naziv artikla koji ne staje", "1234567.25");
    assert_eq!(long.len(), 30 + 10 + 4);
    assert!(long.starts_with("12.Vrlo dugačak naziv artikla"));
}

#[test]
fn finishing_and_missing_pages() {
    assert!(wants_to_finish("kraj kupovine\n"));
    assert!(!wants_to_finish("kraj\n"));
    assert!(page_is_missing(""));
    assert!(page_is_missing("123456789"));
    assert!(!page_is_missing("1234567890"));
}

#[test]
fn next_page_passes_over_gone_shops_without_using_their_page() {
    let shops = shop_list();
    let mut htmls = vec!["short".to_string(), "<ul id=\"product_list\"></ul>".to_string()];
    let mut removed = vec![];
    assert!(matches!(next_page(&mut htmls, &shops[4], 4, &mut removed), PageStep::Gone));
    assert_eq!(htmls.len(), 2);
    assert_eq!(removed, vec![4]);
    htmls.remove(0);
    match next_page(&mut htmls, &shops[4], 4, &mut removed) {
        PageStep::Read { notices: 0, articles: Ok(Some(v)) } => assert!(v.is_empty()),
        _ => panic!("the page should have been read"),
    }
    assert!(htmls.is_empty());
    assert_eq!(removed, vec![4]);
}

#[test]
fn next_page_reports_broken_pages() {
    let shops = shop_list();
    let mut htmls = vec!["<p>no product table here</p>".to_string()];
    let mut removed = vec![];
    assert!(matches!(
        next_page(&mut htmls, &shops[0], 0, &mut removed),
        PageStep::Read { notices: 0, articles: Err(PageError::MissingElement) }
    ));
    assert!(removed.is_empty());
    assert!(htmls.is_empty());
}

#[test]
fn end_round_drops_and_sets_quantities() {
    let mut shops = shop_list();
    let offers = vec![part("a"), part("b")];
    choose_article(&mut shops[0].korpa.artikli, &offers, 0);
    choose_article(&mut shops[2].korpa.artikli, &offers, 1);
    answer_missing(4, "n\n", &mut shops[4].korpa.artikli);
    let shops = end_round(shops, &vec![1, 3], 4);
    let names: Vec<&str> = shops.iter().map(|p| p.name.as_str()).collect();
    assert_eq!(names, vec!["Mikroprinc", "Kelco", "Interhit"]);
    assert!(shops.iter().all(|p| p.korpa.artikli.len() == 1 && p.korpa.artikli[0].1 == 4));
    assert_eq!(shops[1].korpa.artikli[0].0.name, "b");
}

const KELCO_TWO_SKIPPED: &str = r#"<div class="products_list"><div class="row">
<div class="asinItem"><div class="other">no name</div></div>
<div class="asinItem"><div class="pil_nameshort"><a href="../k/1">A | Dioda | x</a></div><div class="svecene">Cena:
 2,00 din</div></div>
<div class="asinItem"><div class="pil_nameshort"><a href="../k/2">B | Kabl | y</a></div></div>
</div></div>"#;

#[test]
fn next_page_counts_the_passed_over_kelco_blocks() {
    let shops = shop_list();
    let mut htmls = vec![KELCO_TWO_SKIPPED.to_string()];
    let mut removed = vec![];
    match next_page(&mut htmls, &shops[2], 2, &mut removed) {
        PageStep::Read { notices, articles: Ok(Some(v)) } => {
            assert_eq!(notices, 2);
            assert_eq!(v.len(), 1);
            assert_eq!(v[0].name, "Dioda ");
            assert_eq!(v[0].price, "2.00");
            assert_eq!(v[0].link, "http://www.kelco.rs/k/1");
        }
        _ => panic!("the Kelco page should have been read"),
    }
    // another shop's reader reports nothing on the same page
    let mut htmls = vec![KELCO_TWO_SKIPPED.to_string()];
    match next_page(&mut htmls, &shops[4], 4, &mut removed) {
        PageStep::Read { notices, .. } => assert_eq!(notices, 0),
        PageStep::Gone => panic!("the page is long enough"),
    }
}

#[test]
fn table_row_pads_each_cell_and_closes_it() {
    let cells = vec!["ab".to_string(), "c".to_string()];
    assert_eq!(table_row(&cells, 3, false), "ab |c  |");
    assert_eq!(table_row(&cells, 3, true), " ab|  c|");
    assert_eq!(table_row(&vec!["abcdef".to_string()], 3, false), "abc|");
    assert_eq!(table_row(&vec![], 3, true), "");
    let shops = vec!["Mikroprinc".to_string(), "MG Elektronik".to_string()];
    assert_eq!(
        table_row(&shops, 25, false),
        format!("{:<25}|{:<25}|", "Mikroprinc", "MG Elektronik")
    );
    assert_eq!(table_row(&vec!["12.5 RSD x 3".to_string()], 25, true), format!("{:>25}|", "12.5 RSD x 3"));
}

#[test]
fn link_line_puts_the_link_after_the_name_column() {
    assert_eq!(link_line("Dioda", "http://x/1"), format!("{:<25} -> http://x/1", "Dioda"));
    assert_eq!(
        link_line("Vrlo dugacak naziv artikla koji ne staje", "l"),
        "Vrlo dugacak naziv artikl -> l"
    );
}
