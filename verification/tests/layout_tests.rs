use serval::css::Declaration;
use serval::css::Selector;
use serval::css::SimpleSelector;
use serval::css::SortedSelectors;
use serval::css::Rule;
use serval::css::Stylesheet;
use serval::css::Unit;
use serval::css::Value;
use serval::dom::AttrMap;
use serval::dom::Node;
use serval::layout::build_layout_tree;
use serval::layout::dump_layout;
use serval::layout::dump_layout_as_json;
use serval::layout::Dimensions;
use serval::layout::LayoutBox;
use serval::px::Px;
use serval::style::style_tree;
use serval::style::PropertyMap;
use serval::style::StyledNode;

fn px_value(n: i64) -> Value {
    Value::Length(Px::from_px(n), Unit::Px)
}

fn keyword(s: &str) -> Value {
    Value::Keyword(s.to_string())
}

fn auto() -> Value {
    keyword("auto")
}

fn tag(name: &str) -> Selector {
    Selector::Simple(SimpleSelector {
        tag_name: Some(name.to_string()),
        ..Default::default()
    })
}

fn universal() -> Selector {
    Selector::Simple(Default::default())
}

fn decl(name: &str, value: Value) -> Declaration {
    Declaration {
        name: name.to_string(),
        value,
    }
}

fn containing(width: i64) -> Dimensions {
    let mut d = Dimensions::default();
    d.content.width = Px::from_px(width);
    d
}

fn assert_box_width(
    (width, margin_left, margin_right): (Value, Value, Value),
    (expected_width, expected_margin_left, expected_margin_right): (Px, Px, Px),
) {
    let mut props = PropertyMap::new();
    props.insert("display".to_string(), keyword("block"));
    props.insert("width".to_string(), width);
    props.insert("margin-left".to_string(), margin_left);
    props.insert("margin-right".to_string(), margin_right);
    let style_node = StyledNode {
        name: "div".to_string(),
        css_specified_values: props,
        children: vec![],
    };
    let mut layout_box: LayoutBox = build_layout_tree(&style_node);
    let containing_block = containing(10);
    layout_box.calculate_block_width(&containing_block);
    assert_eq!(layout_box.dimensions.content.width, expected_width);
    assert_eq!(layout_box.dimensions.margin.left, expected_margin_left);
    assert_eq!(layout_box.dimensions.margin.right, expected_margin_right);
}

fn px(n: i64) -> Px {
    Px::from_px(n)
}

#[test]
fn calculate_block_width_test() {
    assert_box_width((px_value(1), px_value(0), px_value(0)), (px(1), px(0), px(9)));
    assert_box_width((px_value(1), px_value(2), px_value(0)), (px(1), px(2), px(7)));
    assert_box_width((px_value(1), px_value(2), px_value(10)), (px(1), px(2), px(7)));
    // overflow
    assert_box_width((px_value(1), px_value(10), px_value(10)), (px(1), px(10), px(-1)));
    assert_box_width((px_value(20), px_value(10), px_value(10)), (px(20), px(10), px(-20)));

    assert_box_width((auto(), px_value(0), px_value(0)), (px(10), px(0), px(0)));
    assert_box_width((auto(), px_value(1), px_value(0)), (px(9), px(1), px(0)));
    assert_box_width((auto(), px_value(1), px_value(2)), (px(7), px(1), px(2)));
    // overflow
    assert_box_width((auto(), px_value(1), px_value(20)), (px(0), px(1), px(9)));
    assert_box_width((auto(), px_value(20), px_value(1)), (px(0), px(20), px(-10)));

    assert_box_width((px_value(1), auto(), px_value(2)), (px(1), px(7), px(2)));
    assert_box_width((px_value(1), px_value(2), auto()), (px(1), px(2), px(7)));
    assert_box_width((px_value(1), auto(), auto()), (px(1), px(9).halved(), px(9).halved()));
    // overflow
    assert_box_width((px_value(11), auto(), auto()), (px(11), px(0), px(-1)));
    assert_box_width((px_value(11), auto(), px_value(1)), (px(11), px(0), px(-1)));
    assert_box_width((px_value(11), px_value(1), auto()), (px(11), px(1), px(-2)));

    assert_box_width((auto(), auto(), px_value(1)), (px(9), px(0), px(1)));
    assert_box_width((auto(), px_value(1), auto()), (px(9), px(1), px(0)));

    assert_box_width((auto(), px_value(11), auto()), (px(0), px(11), px(-1)));
    assert_box_width((auto(), auto(), px_value(11)), (px(0), px(0), px(10)));
}

#[test]
fn width_auto_with_auto_margins() {
    // An auto width with both margins auto takes the whole containing
    // width; the margins collapse to zero.
    assert_box_width((auto(), auto(), auto()), (px(10), px(0), px(0)));
}

fn layout(style_tree_root: &StyledNode) -> LayoutBox {
    let mut layout_tree = build_layout_tree(style_tree_root);
    let window = containing(800);
    layout_tree.layout(&window);
    layout_tree
}

fn p_with_two_divs() -> Node {
    let mut attrs = AttrMap::new();
    attrs.insert("id".to_string(), "foo".to_string());
    attrs.insert("class".to_string(), "bar".to_string());
    let div1 = Node::element("div".to_string(), AttrMap::new(), vec![]);
    let div2 = Node::element("div".to_string(), AttrMap::new(), vec![]);
    Node::element("p".to_string(), attrs, vec![div1, div2])
}

fn block_and_margin_sheet() -> Stylesheet {
    Stylesheet {
        rules: vec![
            Rule {
                selectors: SortedSelectors::new(vec![universal()]),
                declarations: vec![decl("display", keyword("block"))],
            },
            Rule {
                selectors: SortedSelectors::new(vec![tag("div")]),
                declarations: vec![decl("margin", px_value(10))],
            },
        ],
    }
}

#[test]
fn layout_test() {
    let node = p_with_two_divs();
    let stylesheet = block_and_margin_sheet();
    let style_root = style_tree(&node, &stylesheet);
    let layout_tree = layout(&style_root);

    assert_eq!(layout_tree.dimensions.content.width, px(800));
    assert_eq!(layout_tree.dimensions.content.height, px(40));

    assert_eq!(layout_tree.children[0].dimensions.content.width, px(780));
    assert_eq!(layout_tree.children[0].dimensions.content.height, px(0));
    assert_eq!(layout_tree.children[0].dimensions.content.x, px(10));
    assert_eq!(layout_tree.children[0].dimensions.content.y, px(10));

    assert_eq!(layout_tree.children[1].dimensions.content.width, px(780));
    assert_eq!(layout_tree.children[1].dimensions.content.height, px(0));
    assert_eq!(layout_tree.children[1].dimensions.content.x, px(10));
    assert_eq!(layout_tree.children[1].dimensions.content.y, px(30));
}

fn nested_divs(depth: usize) -> Node {
    let mut node = Node::element("div".to_string(), AttrMap::new(), vec![]);
    for _ in 1..depth {
        node = Node::element("div".to_string(), AttrMap::new(), vec![node]);
    }
    node
}

fn block_and_padding_sheet() -> Stylesheet {
    Stylesheet {
        rules: vec![Rule {
            selectors: SortedSelectors::new(vec![universal()]),
            declarations: vec![
                decl("display", keyword("block")),
                decl("padding", px_value(12)),
            ],
        }],
    }
}

#[test]
fn layout_dump_test() {
    let node = nested_divs(7);
    let stylesheet = block_and_padding_sheet();
    let layout = r"
div(block) (12, 12) [776x144] (padding: 12, border: 0, margin: 0)
  div(block) (24, 24) [752x120] (padding: 12, border: 0, margin: 0)
    div(block) (36, 36) [728x96] (padding: 12, border: 0, margin: 0)
      div(block) (48, 48) [704x72] (padding: 12, border: 0, margin: 0)
        div(block) (60, 60) [680x48] (padding: 12, border: 0, margin: 0)
          div(block) (72, 72) [656x24] (padding: 12, border: 0, margin: 0)
            div(block) (84, 84) [632x0] (padding: 12, border: 0, margin: 0)
";
    assert_eq!(dump_layout(&node, &stylesheet).trim(), layout.trim());
    assert_eq!(dump_layout_as_json(&node, &stylesheet).trim(), layout.trim());
}

#[test]
fn layout_rebuild_identical() {
    // Rebuilding the box tree from the same document and stylesheet and
    // laying it out again yields identical geometry: layout is a pure
    // function of its inputs.
    let node = p_with_two_divs();
    let stylesheet = block_and_margin_sheet();

    let first = dump_layout(&node, &stylesheet);
    let second = dump_layout(&node, &stylesheet);
    assert_eq!(first, second);

    let style_a = style_tree(&node, &stylesheet);
    let style_b = style_tree(&node, &stylesheet);
    let tree_a = layout(&style_a);
    let tree_b = layout(&style_b);
    assert_eq!(tree_a.dimensions, tree_b.dimensions);
    assert_eq!(
        tree_a.children[0].dimensions,
        tree_b.children[0].dimensions
    );
    assert_eq!(
        tree_a.children[1].dimensions,
        tree_b.children[1].dimensions
    );
}

#[test]
fn empty_stylesheet_means_inline_root() {
    // With no stylesheet rules the root resolves to inline display, and
    // the box tree records an inline root box.
    let node = Node::element("div".to_string(), AttrMap::new(), vec![]);
    let sheet = Stylesheet { rules: vec![] };
    let style_root = style_tree(&node, &sheet);
    let tree = build_layout_tree(&style_root);
    match tree.box_type {
        serval::layout::BoxType::InlineNode(ref s) => assert_eq!(s.name, "div"),
        _ => panic!("expected an inline root"),
    }
}

#[test]
fn fractional_pixels_print_exactly() {
    // width:1px between two auto margins inside a 10-pixel container
    // centers the box at half-pixel offsets; the dump prints the halves
    // exactly.
    let inner = Node::element("p".to_string(), AttrMap::new(), vec![]);
    let outer = Node::element("div".to_string(), AttrMap::new(), vec![inner]);
    let sheet = Stylesheet {
        rules: vec![
            Rule {
                selectors: SortedSelectors::new(vec![universal()]),
                declarations: vec![decl("display", keyword("block"))],
            },
            Rule {
                selectors: SortedSelectors::new(vec![tag("div")]),
                declarations: vec![decl("width", px_value(10))],
            },
            Rule {
                selectors: SortedSelectors::new(vec![tag("p")]),
                declarations: vec![
                    decl("width", px_value(1)),
                    decl("margin-left", auto()),
                    decl("margin-right", auto()),
                ],
            },
        ],
    };
    let text = dump_layout(&outer, &sheet);
    assert!(
        text.contains("p(block) (4.5, 0) [1x0] (padding: 0, border: 0, margin: 0 4.5)"),
        "dump was: {}",
        text
    );
}

#[test]
fn explicit_height_overrides_children() {
    // Children accumulate 40 pixels of height, but an explicit
    // `height: 7px` on the parent overwrites the accumulated value.
    let node = p_with_two_divs();
    let stylesheet = Stylesheet {
        rules: vec![
            Rule {
                selectors: SortedSelectors::new(vec![universal()]),
                declarations: vec![decl("display", keyword("block"))],
            },
            Rule {
                selectors: SortedSelectors::new(vec![tag("div")]),
                declarations: vec![decl("margin", px_value(10))],
            },
            Rule {
                selectors: SortedSelectors::new(vec![tag("p")]),
                declarations: vec![decl("height", px_value(7))],
            },
        ],
    };
    let style_root = style_tree(&node, &stylesheet);
    let layout_tree = layout(&style_root);
    assert_eq!(layout_tree.dimensions.content.height, px(7));
    // The children were still laid out below one another first.
    assert_eq!(layout_tree.children[1].dimensions.content.y, px(30));
}
