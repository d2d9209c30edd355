use serval::css::Color;
use serval::css::Declaration;
use serval::css::Rule;
use serval::css::Selector;
use serval::css::SimpleSelector;
use serval::css::SortedSelectors;
use serval::css::Stylesheet;
use serval::css::Value;
use serval::dom::AttrMap;
use serval::dom::ElementData;
use serval::style::css_specified_values;
use serval::style::match_selectors;
use serval::style::matches_simple_selector;
use serval::style::matching_rules;
use serval::text::StrSet;

fn tag(name: &str) -> Selector {
    Selector::Simple(SimpleSelector {
        tag_name: Some(name.to_string()),
        ..Default::default()
    })
}

fn id(name: &str) -> Selector {
    Selector::Simple(SimpleSelector {
        id: Some(name.to_string()),
        ..Default::default()
    })
}

fn class(names: &[&str]) -> Selector {
    let mut set = StrSet::new();
    for n in names {
        set.insert(n.to_string());
    }
    Selector::Simple(SimpleSelector {
        classes: set,
        ..Default::default()
    })
}

fn universal() -> Selector {
    Selector::Simple(Default::default())
}

fn str_set(names: &[&str]) -> StrSet {
    let mut set = StrSet::new();
    for n in names {
        set.insert(n.to_string());
    }
    set
}

fn attrs(pairs: &[(&str, &str)]) -> AttrMap {
    let mut map = AttrMap::new();
    for (k, v) in pairs {
        map.insert(k.to_string(), v.to_string());
    }
    map
}

fn elem(tag_name: &str, pairs: &[(&str, &str)]) -> ElementData {
    ElementData {
        tag_name: tag_name.to_string(),
        attrs: attrs(pairs),
        children: vec![],
    }
}

fn color_decl(rgb: (u8, u8, u8)) -> Declaration {
    Declaration {
        name: "color".to_string(),
        value: Value::ColorValue(Color {
            r: rgb.0,
            g: rgb.1,
            b: rgb.2,
        }),
    }
}

#[test]
fn simple_selector_match_test() {
    let div_selector = SimpleSelector {
        tag_name: Some("div".to_string()),
        ..Default::default()
    };

    let div_elem = elem("div", &[]);
    let p_elem = elem("p", &[]);

    assert!(matches_simple_selector(&div_elem, &div_selector));
    assert!(!matches_simple_selector(&p_elem, &div_selector));

    let class_foo_selector = SimpleSelector {
        classes: str_set(&["foo"]),
        ..Default::default()
    };

    assert!(!matches_simple_selector(&div_elem, &class_foo_selector));
    assert!(!matches_simple_selector(&p_elem, &class_foo_selector));

    let div_class_foo_elem = elem("div", &[("class", "foo")]);
    let div_class_bar_elem = elem("div", &[("class", "bar")]);
    let div_class_foo_bar_elem = elem("div", &[("class", "foo bar")]);

    assert!(matches_simple_selector(&div_class_foo_elem, &class_foo_selector));
    assert!(!matches_simple_selector(&div_class_bar_elem, &class_foo_selector));
    assert!(matches_simple_selector(&div_class_foo_bar_elem, &class_foo_selector));

    let universal_selector: SimpleSelector = Default::default();
    assert!(matches_simple_selector(&div_elem, &universal_selector));

    let div_id_foo_elem = elem("div", &[("id", "foo")]);

    assert!(matches_simple_selector(
        &div_id_foo_elem,
        &SimpleSelector {
            id: Some("foo".to_string()),
            ..Default::default()
        }
    ));

    assert!(!matches_simple_selector(
        &div_id_foo_elem,
        &SimpleSelector {
            id: Some("xxx".to_string()),
            ..Default::default()
        }
    ));

    let div_id_foo_class1_class2_elem = elem("div", &[("id", "foo"), ("class", "class1 class2")]);

    assert!(matches_simple_selector(
        &div_id_foo_class1_class2_elem,
        &SimpleSelector {
            id: Some("foo".to_string()),
            classes: str_set(&["class1"]),
            ..Default::default()
        }
    ));

    assert!(!matches_simple_selector(
        &div_id_foo_class1_class2_elem,
        &SimpleSelector {
            id: Some("foo".to_string()),
            classes: str_set(&["class1 classxx"]),
            ..Default::default()
        }
    ));
}

#[test]
fn match_selectors_test() {
    let div = elem("div", &[]);

    assert!(match_selectors(&div, &SortedSelectors::new(vec![])).is_none());
    assert!(match_selectors(&div, &SortedSelectors::new(vec![id("XXX")])).is_none());

    assert_eq!(
        match_selectors(&div, &SortedSelectors::new(vec![universal()])),
        Some(&universal())
    );

    let elem = elem("div", &[("id", "foo"), ("class", "class1 class2")]);

    assert_eq!(
        match_selectors(
            &elem,
            &SortedSelectors::new(vec![tag("div"), class(&["class1"]), id("foo")])
        ),
        Some(&id("foo")),
        "id should win"
    );

    assert_eq!(
        match_selectors(
            &elem,
            &SortedSelectors::new(vec![tag("div"), class(&["class1"])])
        ),
        Some(&class(&["class1"])),
        "class should win"
    );

    assert_eq!(
        match_selectors(
            &elem,
            &SortedSelectors::new(vec![
                class(&["class1"]),
                class(&["class1", "class2"]),
                class(&["class2"]),
            ])
        ),
        Some(&class(&["class1", "class2"])),
        "More classes should win"
    );
}

#[test]
fn matching_rules_test() {
    let stylesheet = Stylesheet {
        rules: vec![
            Rule {
                selectors: SortedSelectors::new(vec![tag("div")]),
                declarations: vec![color_decl((0, 0, 0))],
            },
            Rule {
                selectors: SortedSelectors::new(vec![tag("foo")]),
                declarations: vec![color_decl((1, 1, 1))],
            },
            Rule {
                selectors: SortedSelectors::new(vec![tag("div")]),
                declarations: vec![color_decl((2, 2, 2))],
            },
        ],
    };

    let div = elem("div", &[]);

    let matched_declarations = matching_rules(&div, &stylesheet)
        .into_iter()
        .map(|(_specifity, idx)| &stylesheet.rules[idx].declarations)
        .collect::<Vec<_>>();

    assert_eq!(
        matched_declarations,
        vec![
            &vec![color_decl((0, 0, 0))],
            &vec![color_decl((2, 2, 2))],
        ]
    );
}

#[test]
fn css_specified_values_test() {
    let stylesheet = Stylesheet {
        rules: vec![
            Rule {
                selectors: SortedSelectors::new(vec![tag("div")]),
                declarations: vec![color_decl((0, 0, 0))],
            },
            Rule {
                selectors: SortedSelectors::new(vec![id("foo")]),
                declarations: vec![color_decl((1, 1, 1))],
            },
            Rule {
                selectors: SortedSelectors::new(vec![id("foo")]),
                declarations: vec![color_decl((2, 2, 2))],
            },
            Rule {
                selectors: SortedSelectors::new(vec![tag("div")]),
                declarations: vec![color_decl((3, 3, 3))],
            },
        ],
    };

    let div = elem("div", &[("id", "foo")]);

    let values = css_specified_values(&div, &stylesheet);
    assert_eq!(
        values.value("color"),
        Some(&Value::ColorValue(Color { r: 2, g: 2, b: 2 }))
    );
    assert!(values.value("display").is_none());
}

#[test]
fn cascade_precedence_scenario() {
    // The same element, one rule matching by tag with color #000000 and
    // one matching by id with color #010203: the id rule wins whichever
    // order the stylesheet lists them in.
    let low = Rule {
        selectors: SortedSelectors::new(vec![tag("div")]),
        declarations: vec![color_decl((0, 0, 0))],
    };
    let high = Rule {
        selectors: SortedSelectors::new(vec![id("foo")]),
        declarations: vec![color_decl((1, 2, 3))],
    };
    let div = elem("div", &[("id", "foo")]);

    let one = Stylesheet {
        rules: vec![
            Rule {
                selectors: SortedSelectors::new(vec![tag("div")]),
                declarations: vec![color_decl((0, 0, 0))],
            },
            Rule {
                selectors: SortedSelectors::new(vec![id("foo")]),
                declarations: vec![color_decl((1, 2, 3))],
            },
        ],
    };
    let other = Stylesheet {
        rules: vec![high, low],
    };

    let expected = Some(&Value::ColorValue(Color { r: 1, g: 2, b: 3 }));
    assert_eq!(css_specified_values(&div, &one).value("color"), expected);
    assert_eq!(css_specified_values(&div, &other).value("color"), expected);
}
