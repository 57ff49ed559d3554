use dotgraph::attributes::Attributes;

fn pairs(attrs: &Attributes) -> Vec<(String, String)> {
    let mut out = Vec::new();
    let mut i = 0;
    while let Some((k, v)) = attrs.entry(i) {
        out.push((k.clone(), v.clone()));
        i += 1;
    }
    out
}

#[test]
fn new_list_is_empty() {
    let attrs = Attributes::new();
    assert!(attrs.is_empty());
    assert_eq!(attrs.len(), 0);
    assert_eq!(attrs.get("color"), None);
    assert!(attrs.entry(0).is_none());
}

#[test]
fn insert_keeps_order_of_first_arrival() {
    let mut attrs = Attributes::new();
    attrs.insert("color".to_string(), "red".to_string());
    attrs.insert("shape".to_string(), "box".to_string());
    attrs.insert("label".to_string(), "A".to_string());
    assert_eq!(attrs.len(), 3);
    assert_eq!(
        pairs(&attrs),
        vec![
            ("color".to_string(), "red".to_string()),
            ("shape".to_string(), "box".to_string()),
            ("label".to_string(), "A".to_string()),
        ]
    );
    assert!(attrs.contains_key("shape"));
    assert!(!attrs.contains_key("Shape"));
}

#[test]
fn later_value_replaces_earlier_one() {
    let mut attrs = Attributes::new();
    attrs.insert("color".to_string(), "red".to_string());
    attrs.insert("shape".to_string(), "box".to_string());
    attrs.insert("color".to_string(), "blue".to_string());
    assert_eq!(attrs.len(), 2);
    assert_eq!(attrs.get("color"), Some(&"blue".to_string()));
    assert_eq!(
        pairs(&attrs),
        vec![
            ("color".to_string(), "blue".to_string()),
            ("shape".to_string(), "box".to_string()),
        ]
    );
}

#[test]
fn extend_merges_by_key() {
    let mut base = Attributes::new();
    base.insert("a".to_string(), "1".to_string());
    base.insert("b".to_string(), "2".to_string());
    let mut more = Attributes::new();
    more.insert("b".to_string(), "3".to_string());
    more.insert("c".to_string(), "4".to_string());
    base.extend(&more);
    assert_eq!(
        pairs(&base),
        vec![
            ("a".to_string(), "1".to_string()),
            ("b".to_string(), "3".to_string()),
            ("c".to_string(), "4".to_string()),
        ]
    );
    assert_eq!(more.len(), 2);
}

#[test]
fn clone_has_the_same_pairs() {
    let mut attrs = Attributes::new();
    attrs.insert("k".to_string(), "v".to_string());
    let copy = attrs.clone();
    attrs.insert("k".to_string(), "w".to_string());
    assert_eq!(copy.get("k"), Some(&"v".to_string()));
    assert_eq!(attrs.get("k"), Some(&"w".to_string()));
}
