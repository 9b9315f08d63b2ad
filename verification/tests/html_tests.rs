use parts_shopper::html::{find_all_by_class, find_by_class, find_by_id, HtmlDocument, HtmlNode, Scope};

fn node(tag: &str, attrs: &[(&str, &str)], size: usize) -> HtmlNode {
    HtmlNode {
        tag: tag.to_string(),
        attrs: attrs.iter().map(|(k, v)| (k.to_string(), v.to_string())).collect(),
        text: String::new(),
        size,
    }
}

// body > div.a (> p.x, p.x) , div.b#main (> p.x)
fn page() -> HtmlDocument {
    HtmlDocument {
        nodes: vec![
            node("body", &[], 6),
            node("div", &[("class", "a")], 3),
            node("p", &[("class", "x")], 1),
            node("p", &[("class", "x")], 1),
            node("div", &[("class", "b"), ("id", "main")], 2),
            node("p", &[("class", "x")], 1),
        ],
    }
}

#[test]
fn find_by_class_in_document_and_subtree() {
    let doc = page();
    assert_eq!(find_by_class(&doc, Scope::Document, "p", "x"), Some(2));
    assert_eq!(find_by_class(&doc, Scope::Element(4), "p", "x"), Some(5));
    assert_eq!(find_by_class(&doc, Scope::Element(2), "p", "x"), Some(2));
    assert_eq!(find_by_class(&doc, Scope::Element(1), "div", "b"), None);
    assert_eq!(find_by_class(&doc, Scope::Element(9), "p", "x"), None);
}

#[test]
fn find_by_class_compares_whole_attribute() {
    let doc = HtmlDocument { nodes: vec![node("div", &[("class", "row row-fix-flex")], 1)] };
    assert_eq!(find_by_class(&doc, Scope::Document, "div", "row"), None);
    assert_eq!(find_by_class(&doc, Scope::Document, "div", "row row-fix-flex"), Some(0));
}

#[test]
fn find_all_by_class_lists_matches_in_order() {
    let doc = page();
    assert_eq!(find_all_by_class(&doc, Scope::Document, "p", "x"), vec![2, 3, 5]);
    assert_eq!(find_all_by_class(&doc, Scope::Element(1), "p", "x"), vec![2, 3]);
    assert!(find_all_by_class(&doc, Scope::Element(5), "div", "a").is_empty());
}

#[test]
fn find_by_class_is_first_of_find_all() {
    let doc = page();
    for scope in [Scope::Document, Scope::Element(1), Scope::Element(4), Scope::Element(3)] {
        let all = find_all_by_class(&doc, scope, "p", "x");
        assert_eq!(find_by_class(&doc, scope, "p", "x"), all.first().copied());
    }
}

#[test]
fn find_by_id_finds_element() {
    let doc = page();
    assert_eq!(find_by_id(&doc, Scope::Document, "div", "main"), Some(4));
    assert_eq!(find_by_id(&doc, Scope::Document, "p", "main"), None);
}

#[test]
fn oversized_subtree_is_cut_at_document_end() {
    let doc = HtmlDocument { nodes: vec![node("div", &[], 50), node("p", &[("class", "x")], 1)] };
    assert_eq!(find_all_by_class(&doc, Scope::Element(0), "p", "x"), vec![1]);
    let doc = HtmlDocument { nodes: vec![node("div", &[], 0), node("p", &[("class", "x")], 1)] };
    assert!(find_all_by_class(&doc, Scope::Element(0), "p", "x").is_empty());
}

#[test]
fn get_returns_attribute_value() {
    let n = node("a", &[("class", "c"), ("href", "/x")], 1);
    assert_eq!(n.get("href"), Some("/x".to_string()));
    assert_eq!(n.get("id"), None);
}
