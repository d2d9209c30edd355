use serval::dom::AttrMap;
use serval::dom::ElementData;
use serval::dom::Node;

#[test]
fn text_display() {
    let text = Node::Text("hello".to_string());
    assert_eq!(text.display_string(), r#""hello""#);
}

#[test]
fn node_display() {
    let div = Node::element("div".to_string(), AttrMap::new(), vec![]);
    assert_eq!(div.display_string(), "(div)");

    let text = Node::Text("hello".to_string());

    let mut attrs = AttrMap::new();
    attrs.insert("id".to_string(), "foo".to_string());
    attrs.insert("class".to_string(), "bar".to_string());

    let div = Node::element("div".to_string(), attrs, vec![text]);
    assert_eq!(div.display_string_deep(), r#"(div class=bar id=foo "hello")"#);

    let body = Node::element("body".to_string(), AttrMap::new(), vec![div]);
    assert_eq!(
        body.display_string_deep(),
        r#"(body (div class=bar id=foo "hello"))"#
    );
}

#[test]
fn attr_map_replaces_equal_keys() {
    let mut attrs = AttrMap::new();
    attrs.insert("id".to_string(), "one".to_string());
    attrs.insert("id".to_string(), "two".to_string());
    assert_eq!(attrs.len(), 1);
    assert_eq!(attrs.get("id").map(|s| s.as_str()), Some("two"));
    assert!(attrs.get("class").is_none());
}

#[test]
fn classes_split_and_collapse() {
    let mut attrs = AttrMap::new();
    attrs.insert("class".to_string(), "foo bar foo".to_string());
    let elem = ElementData {
        tag_name: "div".to_string(),
        attrs,
        children: vec![],
    };
    let classes = elem.classes();
    assert_eq!(classes.len(), 2);
    assert!(classes.contains("foo"));
    assert!(classes.contains("bar"));
    assert!(!classes.contains("baz"));

    let bare = ElementData {
        tag_name: "div".to_string(),
        attrs: AttrMap::new(),
        children: vec![],
    };
    assert_eq!(bare.classes().len(), 0);
}
