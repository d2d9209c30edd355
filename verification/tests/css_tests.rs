use serval::css::Selector;
use serval::css::SimpleSelector;
use serval::css::SortedSelectors;
use serval::text::StrSet;

fn tag(name: &str) -> Selector {
    Selector::Simple(SimpleSelector {
        tag_name: Some(name.to_string()),
        ..Default::default()
    })
}

fn id(name: &str) -> Selector {
    Selector::Simple(SimpleSelector {
        id: Some(name.to_string()),
        ..Default::default()
    })
}

fn class(names: &[&str]) -> Selector {
    let mut set = StrSet::new();
    for n in names {
        set.insert(n.to_string());
    }
    Selector::Simple(SimpleSelector {
        classes: set,
        ..Default::default()
    })
}

fn universal() -> Selector {
    Selector::Simple(Default::default())
}

fn tag_with_classes(name: &str, classes: &[&str]) -> Selector {
    let mut set = StrSet::new();
    for c in classes {
        set.insert(c.to_string());
    }
    Selector::Simple(SimpleSelector {
        tag_name: Some(name.to_string()),
        classes: set,
        ..Default::default()
    })
}

#[test]
fn sorted_selectors_test() {
    let selectors = vec![
        tag("div"),
        universal(),
        id("foo"),
        class(&["class1", "class2"]),
        tag_with_classes("div", &["class2"]),
        class(&["class1"]),
    ];

    let sorted_selectors = SortedSelectors::new(selectors.clone());
    assert_eq!(
        sorted_selectors.selectors,
        vec![
            id("foo"),
            class(&["class1", "class2"]),
            tag_with_classes("div", &["class2"]),
            class(&["class1"]),
            tag("div"),
            universal(),
        ]
    );
}

#[test]
fn specificity_order_scenario() {
    // An id selector outranks two classes, which outrank tag-plus-class,
    // which outranks one class, which outranks a bare tag, which
    // outranks the universal selector.
    let s1 = id("x");
    let s2 = class(&["a", "b"]);
    let s3 = tag_with_classes("p", &["a"]);
    let s4 = class(&["a"]);
    let s5 = tag("p");
    let s6 = universal();
    let sorted = SortedSelectors::new(vec![
        s6.clone(),
        s5.clone(),
        s4.clone(),
        s3.clone(),
        s2.clone(),
        s1.clone(),
    ]);
    assert_eq!(sorted.selectors, vec![s1, s2, s3, s4, s5, s6]);
}

#[test]
fn class_set_collapses_duplicates() {
    let mut set = StrSet::new();
    set.insert("one".to_string());
    set.insert("two".to_string());
    set.insert("one".to_string());
    assert_eq!(set.len(), 2);
    assert!(set.contains("one"));
    assert!(set.contains("two"));
    assert!(!set.contains("three"));
}
