//! The block layout engine: turns a styled tree into a tree of
//! positioned boxes. Width comes first (the containing block constrains
//! it, distributing slack over `auto` margins), then position, then the
//! children, then height, which the children drive unless an explicit
//! `height` overrides it.
//!
//! Only block layout is implemented. Inline and anonymous boxes may
//! appear in a tree, but laying one out is outside this engine's scope:
//! the layout contract (`spec_layout_fits`) admits trees of block boxes
//! only. That mirrors the engine's documented limitation rather than
//! inventing inline layout.

use crate::css::spec_is_auto;
use crate::css::spec_to_px;
use crate::css::auto_chars;
use crate::css::Value;
use crate::css::ValueM;
use crate::px::Px;
use crate::style::spec_display;
use crate::style::spec_lookup;
use crate::style::spec_prop_get;
use crate::style::Display;
use crate::style::PropertyMap;
use crate::style::StyledNode;
use crate::style::StyledNodeM;
use vstd::prelude::*;

verus! {

broadcast use vstd::std_specs::vec::group_vec_axioms;

/// An axis-aligned rectangle in absolute coordinates.
#[derive(Debug, Clone, Copy, PartialEq, Eq, Structural)]
pub struct Rect {
    pub x: Px,
    pub y: Px,
    pub width: Px,
    pub height: Px,
}

/// Per-edge sizes around a rectangle.
#[derive(Debug, Clone, Copy, PartialEq, Eq, Structural)]
pub struct EdgeSizes {
    pub left: Px,
    pub right: Px,
    pub top: Px,
    pub bottom: Px,
}

/// A box's geometry: its content rectangle and the padding, border and
/// margin edges around it.
#[derive(Debug, Clone, Copy, PartialEq, Eq, Structural)]
pub struct Dimensions {
    pub content: Rect,
    pub padding: EdgeSizes,
    pub border: EdgeSizes,
    pub margin: EdgeSizes,
}

/// The mathematical shape of a `Rect`, in fixed-point units.
pub ghost struct RectM {
    pub x: int,
    pub y: int,
    pub width: int,
    pub height: int,
}

/// The mathematical shape of an `EdgeSizes`.
pub ghost struct EdgeM {
    pub left: int,
    pub right: int,
    pub top: int,
    pub bottom: int,
}

/// The mathematical shape of a `Dimensions`.
pub ghost struct DimsM {
    pub content: RectM,
    pub padding: EdgeM,
    pub border: EdgeM,
    pub margin: EdgeM,
}

impl View for Rect {
    type V = RectM;

    open spec fn view(&self) -> RectM {
        RectM { x: self.x@, y: self.y@, width: self.width@, height: self.height@ }
    }
}

impl View for EdgeSizes {
    type V = EdgeM;

    open spec fn view(&self) -> EdgeM {
        EdgeM { left: self.left@, right: self.right@, top: self.top@, bottom: self.bottom@ }
    }
}

impl View for Dimensions {
    type V = DimsM;

    open spec fn view(&self) -> DimsM {
        DimsM {
            content: self.content@,
            padding: self.padding@,
            border: self.border@,
            margin: self.margin@,
        }
    }
}

/// The all-zero rectangle.
pub open spec fn zero_rect() -> RectM {
    RectM { x: 0, y: 0, width: 0, height: 0 }
}

/// The all-zero edges.
pub open spec fn zero_edges() -> EdgeM {
    EdgeM { left: 0, right: 0, top: 0, bottom: 0 }
}

/// The all-zero geometry every box starts from.
pub open spec fn zero_dims() -> DimsM {
    DimsM { content: zero_rect(), padding: zero_edges(), border: zero_edges(), margin: zero_edges() }
}

impl Default for Rect {
    /// The all-zero rectangle.
    fn default() -> (r: Rect)
        ensures
            r@ == zero_rect(),
    {
        Rect { x: Px::zero(), y: Px::zero(), width: Px::zero(), height: Px::zero() }
    }
}

impl Default for EdgeSizes {
    /// The all-zero edges.
    fn default() -> (r: EdgeSizes)
        ensures
            r@ == zero_edges(),
    {
        EdgeSizes { left: Px::zero(), right: Px::zero(), top: Px::zero(), bottom: Px::zero() }
    }
}

impl Default for Dimensions {
    /// The all-zero geometry.
    fn default() -> (r: Dimensions)
        ensures
            r@ == zero_dims(),
    {
        Dimensions {
            content: Rect::default(),
            padding: EdgeSizes::default(),
            border: EdgeSizes::default(),
            margin: EdgeSizes::default(),
        }
    }
}

/// Whether a value fits the fixed-point machine range.
pub open spec fn in_px_range(x: int) -> bool {
    i64::MIN <= x <= i64::MAX
}

/// A rectangle grown outward by the given edges.
pub open spec fn spec_expanded_by(r: RectM, e: EdgeM) -> RectM {
    RectM {
        x: r.x - e.left,
        y: r.y - e.top,
        width: r.width + e.left + e.right,
        height: r.height + e.top + e.bottom,
    }
}

/// Whether every field of a rectangle fits the machine range.
pub open spec fn rect_in_range(r: RectM) -> bool {
    in_px_range(r.x) && in_px_range(r.y) && in_px_range(r.width) && in_px_range(r.height)
}

impl Rect {
    /// This rectangle grown outward by `edge`.
    pub fn expanded_by(&self, edge: &EdgeSizes) -> (r: Rect)
        requires
            rect_in_range(spec_expanded_by(self@, edge@)),
        ensures
            r@ == spec_expanded_by(self@, edge@),
    {
        let x128: i128 = self.x.raw as i128 - edge.left.raw as i128;
        let y128: i128 = self.y.raw as i128 - edge.top.raw as i128;
        let w128: i128 = self.width.raw as i128 + edge.left.raw as i128 + edge.right.raw as i128;
        let h128: i128 = self.height.raw as i128 + edge.top.raw as i128 + edge.bottom.raw as i128;
        Rect {
            x: Px { raw: x128 as i64 },
            y: Px { raw: y128 as i64 },
            width: Px { raw: w128 as i64 },
            height: Px { raw: h128 as i64 },
        }
    }
}

/// The content rectangle grown by the padding.
pub open spec fn spec_padding_box(d: DimsM) -> RectM {
    spec_expanded_by(d.content, d.padding)
}

/// The padding box grown by the border.
pub open spec fn spec_border_box(d: DimsM) -> RectM {
    spec_expanded_by(spec_padding_box(d), d.border)
}

/// The border box grown by the margin.
pub open spec fn spec_margin_box(d: DimsM) -> RectM {
    spec_expanded_by(spec_border_box(d), d.margin)
}

/// The height of the margin box, as the layout engine accumulates it.
pub open spec fn spec_margin_height(d: DimsM) -> int {
    d.content.height + d.padding.top + d.padding.bottom + d.border.top + d.border.bottom
        + d.margin.top + d.margin.bottom
}

impl Dimensions {
    /// The content rectangle grown by the padding.
    pub fn padding_box(&self) -> (r: Rect)
        requires
            rect_in_range(spec_padding_box(self@)),
        ensures
            r@ == spec_padding_box(self@),
    {
        self.content.expanded_by(&self.padding)
    }

    /// The padding box grown by the border: all a painter needs to fill
    /// a background and draw border strips.
    pub fn border_box(&self) -> (r: Rect)
        requires
            rect_in_range(spec_padding_box(self@)),
            rect_in_range(spec_border_box(self@)),
        ensures
            r@ == spec_border_box(self@),
    {
        self.padding_box().expanded_by(&self.border)
    }

    /// The border box grown by the margin.
    pub fn margin_box(&self) -> (r: Rect)
        requires
            rect_in_range(spec_padding_box(self@)),
            rect_in_range(spec_border_box(self@)),
            rect_in_range(spec_margin_box(self@)),
        ensures
            r@ == spec_margin_box(self@),
    {
        self.border_box().expanded_by(&self.margin)
    }

    /// The margin-box height alone, free of any bound on the horizontal
    /// fields.
    pub fn margin_box_height(&self) -> (r: Px)
        requires
            in_px_range(spec_margin_height(self@)),
        ensures
            r@ == spec_margin_height(self@),
    {
        let h: i128 = self.content.height.raw as i128 + self.padding.top.raw as i128
            + self.padding.bottom.raw as i128 + self.border.top.raw as i128
            + self.border.bottom.raw as i128 + self.margin.top.raw as i128
            + self.margin.bottom.raw as i128;
        Px { raw: h as i64 }
    }
}

/// The style a block or inline box carries: the node's plain name and
/// its resolved properties.
#[derive(Debug)]
pub struct BoxStyle {
    pub name: String,
    pub specified: PropertyMap,
}

/// The mathematical shape of a `BoxStyle`.
pub ghost struct BoxStyleM {
    pub name: Seq<char>,
    pub props: Map<Seq<char>, ValueM>,
}

impl View for BoxStyle {
    type V = BoxStyleM;

    open spec fn view(&self) -> BoxStyleM {
        BoxStyleM { name: self.name@, props: self.specified.map_view() }
    }
}

/// What kind of box a layout node is: a block, an inline box, or a
/// synthetic anonymous block grouping consecutive inline siblings.
#[derive(Debug)]
pub enum BoxType {
    BlockNode(BoxStyle),
    InlineNode(BoxStyle),
    AnonymousBlock,
}

/// The mathematical shape of a `BoxType`.
pub ghost enum BoxTypeM {
    BlockNode(BoxStyleM),
    InlineNode(BoxStyleM),
    AnonymousBlock,
}

impl View for BoxType {
    type V = BoxTypeM;

    open spec fn view(&self) -> BoxTypeM {
        match self {
            BoxType::BlockNode(s) => BoxTypeM::BlockNode(s@),
            BoxType::InlineNode(s) => BoxTypeM::InlineNode(s@),
            BoxType::AnonymousBlock => BoxTypeM::AnonymousBlock,
        }
    }
}

/// A node of the layout tree: its geometry, its kind, and its children.
#[derive(Debug)]
pub struct LayoutBox {
    pub dimensions: Dimensions,
    pub box_type: BoxType,
    pub children: Vec<LayoutBox>,
}

/// The mathematical shape of a `LayoutBox`.
pub ghost struct BoxM {
    pub dimensions: DimsM,
    pub box_type: BoxTypeM,
    pub children: Seq<BoxM>,
}

/// The shape of a layout box.
pub open spec fn box_view(b: LayoutBox) -> BoxM
    decreases b, 1int,
{
    BoxM { dimensions: b.dimensions@, box_type: b.box_type@, children: boxes_view(b.children, 0) }
}

/// The shapes of the boxes of a vector, from position `i` on.
pub open spec fn boxes_view(cs: Vec<LayoutBox>, i: int) -> Seq<BoxM>
    decreases cs, 0int, cs@.len() - i,
{
    if 0 <= i < cs@.len() {
        seq![box_view(cs[i])] + boxes_view(cs, i + 1)
    } else {
        Seq::empty()
    }
}

/// A vector's box shapes are the element-by-element shapes.
pub proof fn lemma_boxes_view_as_seq(cs: Vec<LayoutBox>, i: int)
    requires
        0 <= i <= cs@.len(),
    ensures
        boxes_view(cs, i) =~= cs@.skip(i).map_values(|c: LayoutBox| c@),
    decreases cs@.len() - i,
{
    if i < cs@.len() {
        lemma_boxes_view_as_seq(cs, i + 1);
        assert(boxes_view(cs, i) == seq![box_view(cs[i])] + boxes_view(cs, i + 1));
        assert(cs@.skip(i).map_values(|c: LayoutBox| c@) =~= seq![box_view(cs[i])] + cs@.skip(
            i + 1,
        ).map_values(|c: LayoutBox| c@)) by {
            assert(cs@.skip(i)[0] == cs@[i]);
        }
    } else {
        assert(cs@.skip(i).map_values(|c: LayoutBox| c@).len() == 0);
    }
}

impl View for LayoutBox {
    type V = BoxM;

    open spec fn view(&self) -> BoxM {
        box_view(*self)
    }
}

/// The resolved properties a box reads its style from; an anonymous box
/// has none.
pub open spec fn box_props(b: BoxM) -> Map<Seq<char>, ValueM> {
    match b.box_type {
        BoxTypeM::BlockNode(s) => s.props,
        BoxTypeM::InlineNode(s) => s.props,
        BoxTypeM::AnonymousBlock => Map::empty(),
    }
}

/// A property looked up with its shorthand fallback, defaulting to zero
/// length, read as pixels.
pub open spec fn spec_edge_px(
    props: Map<Seq<char>, ValueM>,
    name: Seq<char>,
    fallback: Seq<char>,
) -> int {
    spec_to_px(spec_lookup(props, name, fallback, ValueM::Length(0)))
}

/// The `width` property, defaulting to `auto` when absent.
pub open spec fn spec_width_value(props: Map<Seq<char>, ValueM>) -> ValueM {
    match spec_prop_get(props, "width"@) {
        Some(v) => v,
        None => ValueM::Keyword(auto_chars()),
    }
}

/// The sum of the six horizontal edges and the content width a box asks
/// for, before any `auto` distribution; `auto` counts as zero.
pub open spec fn spec_width_total(props: Map<Seq<char>, ValueM>) -> int {
    spec_to_px(spec_lookup(props, "margin-left"@, "margin"@, ValueM::Length(0))) + spec_to_px(
        spec_lookup(props, "margin-right"@, "margin"@, ValueM::Length(0)),
    ) + spec_edge_px(props, "border-left-width"@, "border-width"@) + spec_edge_px(
        props,
        "border-right-width"@,
        "border-width"@,
    ) + spec_edge_px(props, "padding-left"@, "padding"@) + spec_edge_px(
        props,
        "padding-right"@,
        "padding"@,
    ) + spec_to_px(spec_width_value(props))
}

/// The geometry after the width pass: padding, border and margin left
/// and right, and the content width, resolved by the `auto` distribution
/// table. Slack and overflow land where the table says: an `auto` width
/// soaks up non-negative slack; otherwise the right margin absorbs
/// whatever is left, except that a fixed width with both margins `auto`
/// splits the slack evenly.
pub open spec fn spec_calculate_width(
    props: Map<Seq<char>, ValueM>,
    d: DimsM,
    cbw: int,
) -> DimsM {
    let width = spec_width_value(props);
    let ml0 = spec_lookup(props, "margin-left"@, "margin"@, ValueM::Length(0));
    let mr0 = spec_lookup(props, "margin-right"@, "margin"@, ValueM::Length(0));
    let bl = spec_edge_px(props, "border-left-width"@, "border-width"@);
    let br = spec_edge_px(props, "border-right-width"@, "border-width"@);
    let pl = spec_edge_px(props, "padding-left"@, "padding"@);
    let pr = spec_edge_px(props, "padding-right"@, "padding"@);
    let total = spec_width_total(props);
    let coerce = !spec_is_auto(width) && total > cbw;
    let ml = if coerce && spec_is_auto(ml0) {
        ValueM::Length(0)
    } else {
        ml0
    };
    let mr = if coerce && spec_is_auto(mr0) {
        ValueM::Length(0)
    } else {
        mr0
    };
    let underflow = cbw - total;
    let wa = spec_is_auto(width);
    let mla = spec_is_auto(ml);
    let mra = spec_is_auto(mr);
    let w_f = if !wa {
        spec_to_px(width)
    } else if underflow >= 0 {
        underflow
    } else {
        0
    };
    let ml_f = if !wa && mla && !mra {
        underflow
    } else if !wa && mla && mra {
        underflow / 2
    } else if wa && mla {
        0
    } else {
        spec_to_px(ml)
    };
    let mr_f = if !wa && !mla && !mra {
        spec_to_px(mr) + underflow
    } else if !wa && !mla && mra {
        underflow
    } else if !wa && mla && !mra {
        spec_to_px(mr)
    } else if !wa && mla && mra {
        underflow / 2
    } else {
        // width is auto: a coerced or fixed margin stays, and a negative
        // underflow is absorbed on the right.
        let mrv = if mra {
            0
        } else {
            spec_to_px(mr)
        };
        if underflow >= 0 {
            mrv
        } else {
            mrv + underflow
        }
    };
    DimsM {
        content: RectM { width: w_f, ..d.content },
        padding: EdgeM { left: pl, right: pr, ..d.padding },
        border: EdgeM { left: bl, right: br, ..d.border },
        margin: EdgeM { left: ml_f, right: mr_f, ..d.margin },
    }
}

/// What the machine range asks of one width pass: the slack and the
/// right margin's absorbed total stay representable.
pub open spec fn spec_width_fits(props: Map<Seq<char>, ValueM>, cbw: int) -> bool {
    let total = spec_width_total(props);
    let underflow = cbw - total;
    &&& in_px_range(underflow)
    &&& in_px_range(
        spec_to_px(spec_lookup(props, "margin-right"@, "margin"@, ValueM::Length(0))) + underflow,
    )
}

/// The geometry after the position pass: the four vertical edges, and
/// the content origin placed just inside the containing block's content
/// area, below everything already laid out there.
pub open spec fn spec_calculate_position(
    props: Map<Seq<char>, ValueM>,
    d: DimsM,
    cb: DimsM,
) -> DimsM {
    let mt = spec_edge_px(props, "margin-top"@, "margin"@);
    let mb = spec_edge_px(props, "margin-bottom"@, "margin"@);
    let bt = spec_edge_px(props, "border-top-width"@, "border-width"@);
    let bb = spec_edge_px(props, "border-bottom-width"@, "border-width"@);
    let pt = spec_edge_px(props, "padding-top"@, "padding"@);
    let pb = spec_edge_px(props, "padding-bottom"@, "padding"@);
    let x = cb.content.x + d.margin.left + d.border.left + d.padding.left;
    let y = cb.content.y + cb.content.height + mt + bt + pt;
    DimsM {
        content: RectM { x: x, y: y, ..d.content },
        padding: EdgeM { top: pt, bottom: pb, ..d.padding },
        border: EdgeM { top: bt, bottom: bb, ..d.border },
        margin: EdgeM { top: mt, bottom: mb, ..d.margin },
    }
}

/// What the machine range asks of one position pass.
pub open spec fn spec_position_fits(
    props: Map<Seq<char>, ValueM>,
    d: DimsM,
    cb: DimsM,
) -> bool {
    let mt = spec_edge_px(props, "margin-top"@, "margin"@);
    let bt = spec_edge_px(props, "border-top-width"@, "border-width"@);
    let pt = spec_edge_px(props, "padding-top"@, "padding"@);
    &&& in_px_range(cb.content.x + d.margin.left + d.border.left + d.padding.left)
    &&& in_px_range(cb.content.y + cb.content.height + mt + bt + pt)
}

/// The geometry after the height pass: an explicit pixel `height`
/// overrides the accumulated children-driven height; anything else
/// leaves it.
pub open spec fn spec_calculate_height(props: Map<Seq<char>, ValueM>, d: DimsM) -> DimsM {
    match spec_prop_get(props, "height"@) {
        Some(ValueM::Length(h)) => DimsM { content: RectM { height: h, ..d.content }, ..d },
        _ => d,
    }
}

/// Laying out a box tree is defined for trees of block boxes: the box
/// itself and every descendant must be a block, and every value the
/// pass computes must stay in the machine range. Inline and anonymous
/// boxes never satisfy this predicate; laying them out is the engine's
/// documented limitation.
pub open spec fn spec_layout_fits(b: BoxM, cb: DimsM) -> bool
    decreases b, 1int,
{
    match b.box_type {
        BoxTypeM::BlockNode(st) => {
            let d0 = spec_calculate_width(st.props, b.dimensions, cb.content.width);
            let d1 = spec_calculate_position(st.props, d0, cb);
            &&& spec_width_fits(st.props, cb.content.width)
            &&& spec_position_fits(st.props, d0, cb)
            &&& spec_children_fit(b.children, 0, d1)
        },
        _ => false,
    }
}

/// The machine-range demands of laying out children from position `i`
/// on, starting from the parent geometry `d`: each child fits where the
/// accumulated height has put the parent, and each accumulated height
/// stays representable.
pub open spec fn spec_children_fit(cs: Seq<BoxM>, i: int, d: DimsM) -> bool
    decreases cs, 0int, cs.len() - i,
{
    if 0 <= i < cs.len() {
        let lc = spec_layout(cs[i], d);
        let mh = spec_margin_height(lc.dimensions);
        let h2 = d.content.height + mh;
        let d2 = DimsM { content: RectM { height: h2, ..d.content }, ..d };
        &&& spec_layout_fits(cs[i], d)
        &&& in_px_range(mh)
        &&& in_px_range(h2)
        &&& spec_children_fit(cs, i + 1, d2)
    } else {
        true
    }
}

/// The laid-out shape of a block box inside a containing block: width,
/// then position, then the children in order (each growing the parent's
/// content height by its margin-box height before the next is placed),
/// then the height pass. A box that is not a block is left untouched;
/// `spec_layout_fits` rules that case out for the executable engine.
pub open spec fn spec_layout(b: BoxM, cb: DimsM) -> BoxM
    decreases b, 1int,
{
    match b.box_type {
        BoxTypeM::BlockNode(st) => {
            let d0 = spec_calculate_width(st.props, b.dimensions, cb.content.width);
            let d1 = spec_calculate_position(st.props, d0, cb);
            let folded = spec_layout_children(b.children, 0, d1, Seq::empty());
            let d3 = spec_calculate_height(st.props, folded.1);
            BoxM { dimensions: d3, box_type: b.box_type, children: folded.0 }
        },
        _ => b,
    }
}

/// Lays out children from position `i` on: each child is laid inside
/// the parent's current geometry, whose content height then grows by
/// the child's margin-box height, which is what stacks siblings
/// vertically. Returns the laid children behind `acc` and the parent
/// geometry after the last child.
pub open spec fn spec_layout_children(cs: Seq<BoxM>, i: int, d: DimsM, acc: Seq<BoxM>) -> (
    Seq<BoxM>,
    DimsM,
)
    decreases cs, 0int, cs.len() - i,
{
    if 0 <= i < cs.len() {
        let lc = spec_layout(cs[i], d);
        let h2 = d.content.height + spec_margin_height(lc.dimensions);
        let d2 = DimsM { content: RectM { height: h2, ..d.content }, ..d };
        spec_layout_children(cs, i + 1, d2, acc.push(lc))
    } else {
        (acc, d)
    }
}

impl BoxStyle {
    /// The value for `name`, falling back to the shorthand
    /// `fallback_name` and then to `default`.
    pub fn lookup<'a>(&'a self, name: &str, fallback_name: &str, default: &'a Value) -> (r:
        &'a Value)
        ensures
            r@ == spec_lookup(self@.props, name@, fallback_name@, default@),
    {
        match self.specified.value(name) {
            Some(v) => v,
            None => match self.specified.value(fallback_name) {
                Some(v) => v,
                None => default,
            },
        }
    }
}

impl LayoutBox {
    /// A fresh synthetic block: no style, no children, zero geometry.
    pub fn new_with_anonymous_block() -> (r: LayoutBox)
        ensures
            r@ == (BoxM {
                dimensions: zero_dims(),
                box_type: BoxTypeM::AnonymousBlock,
                children: Seq::empty(),
            }),
    {
        let r = LayoutBox {
            dimensions: Dimensions::default(),
            box_type: BoxType::AnonymousBlock,
            children: Vec::new(),
        };
        proof {
            assert(boxes_view(r.children, 0) =~= Seq::<BoxM>::empty());
        }
        r
    }

    /// The style of a block or inline box; an anonymous block owns none
    /// and must never be asked.
    pub fn get_style_node(&self) -> (r: &BoxStyle)
        requires
            !(self@.box_type is AnonymousBlock),
        ensures
            r@.props == box_props(self@),
            self@.box_type matches BoxTypeM::BlockNode(s) ==> r@ == s,
            self@.box_type matches BoxTypeM::InlineNode(s) ==> r@ == s,
    {
        match &self.box_type {
            BoxType::BlockNode(s) => s,
            BoxType::InlineNode(s) => s,
            BoxType::AnonymousBlock => vstd::pervasive::unreached(),
        }
    }

    /// The width pass: resolves the horizontal edges and the content
    /// width by the `auto` distribution table, against the containing
    /// block's content width.
    pub fn calculate_block_width(&mut self, containing_block: &Dimensions)
        requires
            old(self)@.box_type is BlockNode,
            spec_width_fits(box_props(old(self)@), containing_block@.content.width),
        ensures
            final(self).box_type == old(self).box_type,
            final(self).children == old(self).children,
            final(self).dimensions@ == spec_calculate_width(
                box_props(old(self)@),
                old(self).dimensions@,
                containing_block@.content.width,
            ),
    {
        let ghost props = box_props(old(self)@);
        let zero = Value::length_zero();
        let style = self.get_style_node();
        let width: Value = match style.specified.value("width") {
            Some(v) => v.duplicate(),
            None => Value::keyword_auto(),
        };
        let mut margin_left: Value = style.lookup("margin-left", "margin", &zero).duplicate();
        let mut margin_right: Value = style.lookup("margin-right", "margin", &zero).duplicate();
        let border_left: Px = style.lookup("border-left-width", "border-width", &zero).to_px();
        let border_right: Px = style.lookup("border-right-width", "border-width", &zero).to_px();
        let padding_left: Px = style.lookup("padding-left", "padding", &zero).to_px();
        let padding_right: Px = style.lookup("padding-right", "padding", &zero).to_px();

        let total: i128 = margin_left.to_px().raw as i128 + margin_right.to_px().raw as i128
            + border_left.raw as i128 + border_right.raw as i128 + padding_left.raw as i128
            + padding_right.raw as i128 + width.to_px().raw as i128;
        proof {
            assert(total as int == spec_width_total(props));
        }
        let cbw: i64 = containing_block.content.width.raw;

        let ghost coerced = !spec_is_auto(width@) && total as int > cbw as int;
        if !width.is_auto() && total > cbw as i128 {
            if margin_left.is_auto() {
                margin_left = Value::length_zero();
            }
            if margin_right.is_auto() {
                margin_right = Value::length_zero();
            }
        }

        let underflow128: i128 = cbw as i128 - total;
        proof {
            assert(underflow128 as int == containing_block@.content.width - spec_width_total(
                props,
            ));
        }
        let wa = width.is_auto();
        let mla = margin_left.is_auto();
        let mra = margin_right.is_auto();

        self.dimensions.padding.left = padding_left;
        self.dimensions.padding.right = padding_right;
        self.dimensions.border.left = border_left;
        self.dimensions.border.right = border_right;

        if !wa && !mla && !mra {
            self.dimensions.content.width = width.to_px();
            self.dimensions.margin.left = margin_left.to_px();
            self.dimensions.margin.right = Px {
                raw: (margin_right.to_px().raw as i128 + underflow128) as i64,
            };
        } else if !wa && !mla && mra {
            self.dimensions.content.width = width.to_px();
            self.dimensions.margin.left = margin_left.to_px();
            self.dimensions.margin.right = Px { raw: underflow128 as i64 };
        } else if !wa && mla && !mra {
            self.dimensions.content.width = width.to_px();
            self.dimensions.margin.left = Px { raw: underflow128 as i64 };
            self.dimensions.margin.right = margin_right.to_px();
        } else if !wa && mla && mra {
            proof {
                assert(underflow128 >= 0);
            }
            let half: i64 = ((underflow128 as i64 as u64) / 2) as i64;
            self.dimensions.content.width = width.to_px();
            self.dimensions.margin.left = Px { raw: half };
            self.dimensions.margin.right = Px { raw: half };
        } else {
            let mlv: i64 = if mla {
                0
            } else {
                margin_left.to_px().raw
            };
            let mrv: i64 = if mra {
                0
            } else {
                margin_right.to_px().raw
            };
            if underflow128 >= 0 {
                self.dimensions.content.width = Px { raw: underflow128 as i64 };
                self.dimensions.margin.left = Px { raw: mlv };
                self.dimensions.margin.right = Px { raw: mrv };
            } else {
                self.dimensions.content.width = Px::zero();
                self.dimensions.margin.left = Px { raw: mlv };
                self.dimensions.margin.right = Px { raw: (mrv as i128 + underflow128) as i64 };
            }
        }
    }

    /// The position pass: resolves the vertical edges and places the
    /// content origin inside the containing block's content area, below
    /// everything already laid out there.
    pub fn calculate_block_position(&mut self, containing_block: &Dimensions)
        requires
            old(self)@.box_type is BlockNode,
            spec_position_fits(
                box_props(old(self)@),
                old(self).dimensions@,
                containing_block@,
            ),
        ensures
            final(self).box_type == old(self).box_type,
            final(self).children == old(self).children,
            final(self).dimensions@ == spec_calculate_position(
                box_props(old(self)@),
                old(self).dimensions@,
                containing_block@,
            ),
    {
        let zero = Value::length_zero();
        let style = self.get_style_node();
        let margin_top: Px = style.lookup("margin-top", "margin", &zero).to_px();
        let margin_bottom: Px = style.lookup("margin-bottom", "margin", &zero).to_px();
        let border_top: Px = style.lookup("border-top-width", "border-width", &zero).to_px();
        let border_bottom: Px = style.lookup("border-bottom-width", "border-width", &zero).to_px();
        let padding_top: Px = style.lookup("padding-top", "padding", &zero).to_px();
        let padding_bottom: Px = style.lookup("padding-bottom", "padding", &zero).to_px();

        self.dimensions.margin.top = margin_top;
        self.dimensions.margin.bottom = margin_bottom;
        self.dimensions.border.top = border_top;
        self.dimensions.border.bottom = border_bottom;
        self.dimensions.padding.top = padding_top;
        self.dimensions.padding.bottom = padding_bottom;

        let x: i128 = containing_block.content.x.raw as i128 + self.dimensions.margin.left.raw
            as i128 + self.dimensions.border.left.raw as i128 + self.dimensions.padding.left.raw
            as i128;
        let y: i128 = containing_block.content.y.raw as i128 + containing_block.content.height.raw
            as i128 + margin_top.raw as i128 + border_top.raw as i128 + padding_top.raw as i128;
        self.dimensions.content.x = Px { raw: x as i64 };
        self.dimensions.content.y = Px { raw: y as i64 };
    }

    /// The height pass: an explicit pixel `height` overrides the
    /// children-driven height accumulated so far.
    pub fn calculate_block_height(&mut self)
        requires
            old(self)@.box_type is BlockNode,
        ensures
            final(self).box_type == old(self).box_type,
            final(self).children == old(self).children,
            final(self).dimensions@ == spec_calculate_height(
                box_props(old(self)@),
                old(self).dimensions@,
            ),
    {
        let style = self.get_style_node();
        let explicit: Option<Px> = match style.specified.value("height") {
            Some(v) => match v {
                Value::Length(h, _) => Some(*h),
                _ => None,
            },
            None => None,
        };
        match explicit {
            Some(h) => {
                self.dimensions.content.height = h;
            },
            None => {},
        }
    }

    /// Lays out one block box and its subtree, consuming it.
    #[verifier::loop_isolation(false)]
    fn layout_block(self, containing_block: &Dimensions) -> (r: LayoutBox)
        requires
            spec_layout_fits(self@, containing_block@),
        ensures
            r@ == spec_layout(self@, containing_block@),
        decreases self@,
    {
        let ghost b0 = self@;
        let ghost cbm = containing_block@;
        let mut me = self;
        me.calculate_block_width(containing_block);
        me.calculate_block_position(containing_block);
        let ghost props = box_props(b0);
        let ghost d1 = me.dimensions@;
        let ghost kids = b0.children;
        proof {
            lemma_boxes_view_as_seq(me.children, 0);
            assert(boxes_view(me.children, 0) == kids);
            assert(kids.len() == me.children@.len());
        }
        let n = me.children.len();
        let ghost mut acc: Seq<BoxM> = Seq::empty();
        let mut k: usize = 0;
        proof {
            assert forall|j: int| 0 <= j < n implies me.children@[j]@ == kids[j] by {
                assert(kids[j] == me.children@.skip(0).map_values(|c: LayoutBox| c@)[j]);
            }
        }
        while k < n
            invariant
                0 <= k <= n,
                me.children@.len() == n,
                kids.len() == n,
                kids == b0.children,
                me.box_type@ == b0.box_type,
                b0.box_type is BlockNode,
                acc.len() == k,
                forall|j: int| 0 <= j < n - k ==> #[trigger] me.children@[j]@ == kids[j + k],
                forall|j: int| 0 <= j < k ==> #[trigger] me.children@[n - k + j]@ == acc[j],
                spec_layout_children(kids, k as int, me.dimensions@, acc)
                    == spec_layout_children(kids, 0, d1, Seq::empty()),
                spec_children_fit(kids, k as int, me.dimensions@),
            decreases n - k,
        {
            let ghost d_before = me.dimensions@;
            let ghost cs0 = me.children@;
            let mut child = me.children.remove(0);
            proof {
                assert(child@ == kids[k as int]);
                assert(decreases_to!(b0 => b0.children));
                assert(decreases_to!(b0.children => b0.children[k as int]));
                assert(spec_layout_fits(kids[k as int], d_before));
            }
            let child = child.layout_block(&me.dimensions);
            proof {
                assert(child@ == spec_layout(kids[k as int], d_before));
                assert(in_px_range(spec_margin_height(child@.dimensions)));
            }
            let mh = child.dimensions.margin_box_height();
            self_dims_grow(&mut me.dimensions, mh);
            me.children.push(child);
            proof {
                let lc = spec_layout(kids[k as int], d_before);
                let h2 = d_before.content.height + spec_margin_height(lc.dimensions);
                let d2 = DimsM { content: RectM { height: h2, ..d_before.content }, ..d_before };
                assert(me.dimensions@ == d2);
                assert(spec_layout_children(kids, k as int, d_before, acc)
                    == spec_layout_children(kids, k + 1, d2, acc.push(lc)));
                acc = acc.push(child@);
                assert forall|j: int| 0 <= j < n - k - 1 implies #[trigger] me.children@[j]@
                    == kids[j + k + 1] by {
                    assert(me.children@[j] == cs0[j + 1]);
                }
                assert forall|j: int| 0 <= j < k + 1 implies #[trigger] me.children@[n - k - 1
                    + j]@ == acc[j] by {
                    if j < k {
                        assert(me.children@[n - k - 1 + j] == cs0[n - k + j]);
                    } else {
                        assert(me.children@[n - 1]@ == acc[k as int]);
                    }
                }
            }
            k = k + 1;
        }
        proof {
            assert(spec_layout_children(kids, n as int, me.dimensions@, acc) == (
                acc,
                me.dimensions@,
            ));
        }
        let ghost d2_final = me.dimensions@;
        me.calculate_block_height();
        proof {
            let folded = spec_layout_children(kids, 0, d1, Seq::empty());
            assert(folded.0 == acc && folded.1 == d2_final);
            lemma_boxes_view_as_seq(me.children, 0);
            assert(k == n);
            assert forall|j: int| 0 <= j < n implies me.children@.skip(0).map_values(
                |c: LayoutBox| c@,
            )[j] == acc[j] by {
                assert(me.children@[n - k + j]@ == acc[j]);
                assert(n - k + j == j);
            }
            assert(boxes_view(me.children, 0) =~= acc);
            assert(me@ == spec_layout(b0, cbm));
        }
        me
    }

    /// Lays out this box and its subtree inside `containing_block`,
    /// filling every geometry field: width before position, position
    /// before children, children before the box's own height.
    pub fn layout(&mut self, containing_block: &Dimensions)
        requires
            spec_layout_fits(old(self)@, containing_block@),
        ensures
            final(self)@ == spec_layout(old(self)@, containing_block@),
    {
        let mut tmp = LayoutBox {
            dimensions: Dimensions::default(),
            box_type: BoxType::AnonymousBlock,
            children: Vec::new(),
        };
        core::mem::swap(self, &mut tmp);
        let done = tmp.layout_block(containing_block);
        *self = done;
    }
}

/// Grows a box's content height by one child's margin-box height.
fn self_dims_grow(d: &mut Dimensions, mh: Px)
    requires
        in_px_range(old(d)@.content.height + mh@),
    ensures
        final(d)@ == (DimsM {
            content: RectM { height: old(d)@.content.height + mh@, ..old(d)@.content },
            ..old(d)@
        }),
{
    d.content.height = d.content.height.add(mh);
}

/// Where an inline box lands under a block parent: into the parent's
/// trailing anonymous block if one is already there, else into a fresh
/// one, so one run of consecutive inline siblings shares one anonymous
/// block.
pub open spec fn spec_append_inline(acc: Seq<BoxM>, child: BoxM) -> Seq<BoxM> {
    if acc.len() > 0 && acc.last().box_type is AnonymousBlock {
        acc.update(
            acc.len() - 1,
            BoxM { children: acc.last().children.push(child), ..acc.last() },
        )
    } else {
        acc.push(
            BoxM {
                dimensions: zero_dims(),
                box_type: BoxTypeM::AnonymousBlock,
                children: seq![child],
            },
        )
    }
}

/// The box children built from styled children at position `i` on,
/// behind those already in `acc`: a block child becomes a sibling box;
/// an inline child goes to the current inline container (`direct` says
/// the parent is its own); a `none` child disappears with its subtree.
pub open spec fn spec_build_children(
    cs: Seq<StyledNodeM>,
    i: int,
    acc: Seq<BoxM>,
    direct: bool,
) -> Seq<BoxM>
    decreases cs, 0int, cs.len() - i,
{
    if 0 <= i < cs.len() {
        let acc2 = if spec_display(cs[i].props) is Block {
            acc.push(spec_build(cs[i]))
        } else if spec_display(cs[i].props) is Inline {
            if direct {
                acc.push(spec_build(cs[i]))
            } else {
                spec_append_inline(acc, spec_build(cs[i]))
            }
        } else {
            acc
        };
        spec_build_children(cs, i + 1, acc2, direct)
    } else {
        acc
    }
}

/// The unpositioned box a styled node becomes: a block or inline box by
/// its display value, zero geometry, and its children grouped as
/// `spec_build_children` says. Only meaningful when the display is not
/// `none`.
pub open spec fn spec_build(s: StyledNodeM) -> BoxM
    decreases s, 1int,
{
    let st = BoxStyleM { name: s.name, props: s.props };
    let bt = if spec_display(s.props) is Block {
        BoxTypeM::BlockNode(st)
    } else {
        BoxTypeM::InlineNode(st)
    };
    let direct = !(spec_display(s.props) is Block);
    BoxM {
        dimensions: zero_dims(),
        box_type: bt,
        children: spec_build_children(s.children, 0, Seq::empty(), direct),
    }
}

/// Builds the unpositioned box tree for a styled tree whose root is not
/// display-none: children with `display: none` are dropped with their
/// subtrees, block children become sibling boxes, and each run of
/// consecutive inline children is grouped under one anonymous block.
#[verifier::loop_isolation(false)]
pub fn build_layout_tree(style_node: &StyledNode) -> (r: LayoutBox)
    requires
        spec_display(style_node@.props) != Display::Gone,
    ensures
        r@ == spec_build(style_node@),
    decreases style_node@,
{
    let d = style_node.display();
    let style = BoxStyle {
        name: style_node.name.clone(),
        specified: style_node.css_specified_values.duplicate(),
    };
    let box_type = match d {
        Display::Block => BoxType::BlockNode(style),
        Display::Inline => BoxType::InlineNode(style),
        Display::Gone => vstd::pervasive::unreached(),
    };
    let direct = match &box_type {
        BoxType::BlockNode(_) => false,
        _ => true,
    };
    let ghost kids = style_node@.children;
    let mut root = LayoutBox {
        dimensions: Dimensions::default(),
        box_type,
        children: Vec::new(),
    };
    proof {
        assert(boxes_view(root.children, 0) =~= Seq::<BoxM>::empty());
    }
    let n = style_node.children.len();
    proof {
        crate::style::lemma_styled_seq_view_as_seq(style_node.children, 0);
        assert(kids.len() == n);
    }
    let ghost btm = root.box_type@;
    let ghost dm0 = root.dimensions@;
    let mut i: usize = 0;
    while i < n
        invariant
            0 <= i <= n,
            root.box_type@ == btm,
            root.dimensions@ == dm0,
            spec_build_children(kids, i as int, boxes_view(root.children, 0), direct)
                == spec_build_children(kids, 0, Seq::empty(), direct),
        decreases n - i,
    {
        proof {
            assert(style_node.children@[i as int]@ == kids[i as int]);
            assert(decreases_to!(style_node@ => style_node@.children));
            assert(decreases_to!(style_node@.children => style_node@.children[i as int]));
        }
        let child = &style_node.children[i];
        let ghost acc0 = boxes_view(root.children, 0);
        match child.display() {
            Display::Block => {
                let cb = build_layout_tree(child);
                let ghost cs0 = root.children@;
                proof {
                    lemma_boxes_view_as_seq(root.children, 0);
                    assert(cs0.skip(0) =~= cs0);
                    assert(cs0.map_values(|c: LayoutBox| c@) == acc0);
                }
                root.children.push(cb);
                proof {
                    lemma_boxes_view_of_push(cs0, cb, acc0);
                    assert(boxes_view(root.children, 0) =~= acc0.push(spec_build(
                        kids[i as int],
                    )));
                }
            },
            Display::Inline => {
                let cb = build_layout_tree(child);
                if direct {
                    let ghost cs0 = root.children@;
                    proof {
                        lemma_boxes_view_as_seq(root.children, 0);
                        assert(cs0.skip(0) =~= cs0);
                        assert(cs0.map_values(|c: LayoutBox| c@) == acc0);
                    }
                    root.children.push(cb);
                    proof {
                        lemma_boxes_view_of_push(cs0, cb, acc0);
                        assert(boxes_view(root.children, 0) =~= acc0.push(spec_build(
                            kids[i as int],
                        )));
                    }
                } else {
                    root.push_to_inline_container(cb);
                    proof {
                        assert(boxes_view(root.children, 0) == spec_append_inline(
                            acc0,
                            spec_build(kids[i as int]),
                        ));
                    }
                }
            },
            Display::Gone => {},
        }
        proof {
            let acc2 = boxes_view(root.children, 0);
            assert(spec_build_children(kids, i as int, acc0, direct) == spec_build_children(
                kids,
                i + 1,
                acc2,
                direct,
            ));
        }
        i = i + 1;
    }
    proof {
        assert(spec_build_children(kids, n as int, boxes_view(root.children, 0), direct)
            == boxes_view(root.children, 0));
    }
    root
}

/// Pushing one box onto a vector appends its shape to the vector's
/// shapes.
proof fn lemma_boxes_view_of_push(cs0: Seq<LayoutBox>, cb: LayoutBox, acc0: Seq<BoxM>)
    requires
        cs0.map_values(|c: LayoutBox| c@) == acc0,
        exists|v: Vec<LayoutBox>| v@ == cs0.push(cb),
    ensures
        forall|v: Vec<LayoutBox>|
            v@ == cs0.push(cb) ==> #[trigger] boxes_view(v, 0) =~= acc0.push(cb@),
{
    assert forall|v: Vec<LayoutBox>|
        v@ == cs0.push(cb) implies #[trigger] boxes_view(v, 0) =~= acc0.push(cb@) by {
        lemma_boxes_view_as_seq(v, 0);
        assert(v@.skip(0) =~= v@);
        assert forall|j: int| 0 <= j < cs0.len() + 1 implies v@.map_values(|c: LayoutBox| c@)[j]
            == acc0.push(cb@)[j] by {
            if j < cs0.len() {
                assert(v@[j] == cs0[j]);
                assert(cs0.map_values(|c: LayoutBox| c@)[j] == acc0[j]);
            } else {
                assert(v@[j] == cb);
            }
        }
        assert(v@.map_values(|c: LayoutBox| c@) =~= acc0.push(cb@));
    }
}

/// A box's children after an inline child lands in its inline
/// container: a box that is itself inline or anonymous is its own
/// container, so the child becomes a direct sibling; under a block the
/// child goes into the trailing anonymous block, fresh or reused.
pub open spec fn spec_push_to_inline_container(b: BoxM, child: BoxM) -> Seq<BoxM> {
    if b.box_type is BlockNode {
        spec_append_inline(b.children, child)
    } else {
        b.children.push(child)
    }
}

impl LayoutBox {
    /// Hands an inline-level child to this box's current inline
    /// container, so each run of consecutive inline children under a
    /// block ends up grouped in exactly one anonymous block.
    pub fn push_to_inline_container(&mut self, child: LayoutBox)
        ensures
            final(self).box_type == old(self).box_type,
            final(self).dimensions == old(self).dimensions,
            boxes_view(final(self).children, 0) == spec_push_to_inline_container(
                old(self)@,
                child@,
            ),
    {
        match &self.box_type {
            BoxType::BlockNode(_) => {
                append_under_inline_container(&mut self.children, child);
            },
            _ => {
                let ghost cs0 = self.children@;
                let ghost acc0 = boxes_view(self.children, 0);
                proof {
                    lemma_boxes_view_as_seq(self.children, 0);
                    assert(cs0.skip(0) =~= cs0);
                    assert(cs0.map_values(|c: LayoutBox| c@) == acc0);
                }
                let ghost cm = child@;
                self.children.push(child);
                proof {
                    lemma_boxes_view_of_push(cs0, self.children@[cs0.len() as int], acc0);
                    assert(boxes_view(self.children, 0) =~= acc0.push(cm));
                }
            },
        }
    }
}

/// Appends an inline child under a block parent's current inline
/// container: the trailing anonymous block if the parent already has
/// one, else a fresh anonymous block pushed at the end.
fn append_under_inline_container(children: &mut Vec<LayoutBox>, child: LayoutBox)
    ensures
        boxes_view(*final(children), 0) == spec_append_inline(
            boxes_view(*old(children), 0),
            child@,
        ),
{
    proof {
        lemma_boxes_view_as_seq(*children, 0);
        assert(children@.skip(0) =~= children@);
    }
    let ghost acc0 = boxes_view(*children, 0);
    let ghost cs0 = children@;
    let n = children.len();
    let mut reuse = false;
    if n > 0 {
        match &children[n - 1].box_type {
            BoxType::AnonymousBlock => {
                reuse = true;
            },
            _ => {},
        }
    }
    proof {
        assert(acc0.len() == n);
        if n > 0 {
            assert(acc0.last() == cs0.last()@);
        }
        assert(reuse == (acc0.len() > 0 && acc0.last().box_type is AnonymousBlock));
    }
    if reuse {
        let last_opt = children.pop();
        let mut last = match last_opt {
            Some(l) => l,
            None => vstd::pervasive::unreached(),
        };
        let ghost last0 = last;
        let ghost lk0 = boxes_view(last.children, 0);
        proof {
            lemma_boxes_view_as_seq(last.children, 0);
            assert(last.children@.skip(0) =~= last.children@);
        }
        let ghost lcs0 = last.children@;
        last.children.push(child);
        proof {
            lemma_boxes_view_of_push(lcs0, child, lk0);
            assert(boxes_view(last.children, 0) =~= lk0.push(child@));
        }
        let ghost laid = last;
        children.push(last);
        proof {
            assert(children@ =~= cs0.update(n - 1, laid));
            lemma_boxes_view_as_seq(*children, 0);
            assert(children@.skip(0) =~= children@);
            let target = spec_append_inline(acc0, child@);
            assert(target == acc0.update(
                n - 1,
                BoxM { children: acc0.last().children.push(child@), ..acc0.last() },
            ));
            assert forall|j: int| 0 <= j < n implies children@.map_values(|c: LayoutBox| c@)[j]
                == target[j] by {
                if j < n - 1 {
                    assert(children@[j] == cs0[j]);
                    assert(cs0.map_values(|c: LayoutBox| c@)[j] == acc0[j]);
                } else {
                    assert(children@[j] == laid);
                    assert(laid@ == BoxM {
                        children: acc0.last().children.push(child@),
                        ..acc0.last()
                    }) by {
                        assert(last0@ == acc0.last());
                        assert(laid@.children == boxes_view(laid.children, 0));
                        assert(boxes_view(laid.children, 0) =~= lk0.push(child@));
                    }
                }
            }
            assert(children@.map_values(|c: LayoutBox| c@) =~= target);
        }
    } else {
        let mut anon = LayoutBox::new_with_anonymous_block();
        anon.children.push(child);
        proof {
            lemma_boxes_view_as_seq(anon.children, 0);
            assert(anon.children@.skip(0) =~= anon.children@);
            assert(anon.children@ =~= Seq::<LayoutBox>::empty().push(child));
            assert forall|j: int| 0 <= j < 1 implies anon.children@.map_values(
                |c: LayoutBox| c@,
            )[j] == seq![child@][j] by {
                assert(anon.children@[j] == child);
            }
            assert(boxes_view(anon.children, 0) =~= seq![child@]);
        }
        let ghost anon_done = anon;
        children.push(anon);
        proof {
            lemma_boxes_view_of_push(cs0, anon_done, acc0);
        }
    }
}

/// A run of spaces.
pub open spec fn spec_spaces(n: int) -> Seq<char>
    decreases n,
{
    if n <= 0 {
        Seq::empty()
    } else {
        spec_spaces(n - 1).push(' ')
    }
}

/// The print form of four edge sizes, collapsed the way styles are
/// written: one value for all four, two for vertical/horizontal pairs,
/// three when only the sides agree, else all four.
#[verifier::opaque]
pub open spec fn spec_edges_text(e: EdgeM) -> Seq<char> {
    if e.left == e.right && e.right == e.top && e.top == e.bottom {
        crate::text::spec_px_chars(e.top)
    } else if e.left == e.right && e.top == e.bottom {
        crate::text::spec_px_chars(e.top) + seq![' '] + crate::text::spec_px_chars(e.right)
    } else if e.left == e.right {
        crate::text::spec_px_chars(e.top) + seq![' '] + crate::text::spec_px_chars(e.right)
            + seq![' '] + crate::text::spec_px_chars(e.bottom)
    } else {
        crate::text::spec_px_chars(e.top) + seq![' '] + crate::text::spec_px_chars(e.right)
            + seq![' '] + crate::text::spec_px_chars(e.bottom) + seq![' ']
            + crate::text::spec_px_chars(e.left)
    }
}

/// The print form of a rectangle: origin, then width by height.
#[verifier::opaque]
pub open spec fn spec_rect_text(r: RectM) -> Seq<char> {
    seq!['('] + crate::text::spec_px_chars(r.x) + ", "@ + crate::text::spec_px_chars(r.y)
        + ") ["@ + crate::text::spec_px_chars(r.width) + seq!['x'] + crate::text::spec_px_chars(
        r.height,
    ) + seq![']']
}

/// The print form of a box's geometry.
#[verifier::opaque]
pub open spec fn spec_dims_text(d: DimsM) -> Seq<char> {
    spec_rect_text(d.content) + " (padding: "@ + spec_edges_text(d.padding) + ", border: "@
        + spec_edges_text(d.border) + ", margin: "@ + spec_edges_text(d.margin) + seq![')']
}

/// The print form of a box's kind: the node's name with its role, or
/// the anonymous marker.
pub open spec fn spec_box_type_text(bt: BoxTypeM) -> Seq<char> {
    match bt {
        BoxTypeM::BlockNode(s) => s.name + "(block)"@,
        BoxTypeM::InlineNode(s) => s.name + "(inline)"@,
        BoxTypeM::AnonymousBlock => "(anonymous)"@,
    }
}

/// One box's dump: its line at the given indent, then its children two
/// columns deeper (the indent saturates at the machine bound).
pub open spec fn spec_box_text(b: BoxM, indent: int) -> Seq<char>
    decreases b, 1int,
{
    let next = if indent + 2 <= usize::MAX {
        indent + 2
    } else {
        indent
    };
    spec_spaces(indent) + spec_box_type_text(b.box_type) + seq![' '] + spec_dims_text(
        b.dimensions,
    ) + seq!['\n'] + spec_boxes_text(b.children, 0, next)
}

/// The dumps of the boxes from position `i` on, at one indent.
pub open spec fn spec_boxes_text(cs: Seq<BoxM>, i: int, indent: int) -> Seq<char>
    decreases cs, 0int, cs.len() - i,
{
    if 0 <= i < cs.len() {
        spec_box_text(cs[i], indent) + spec_boxes_text(cs, i + 1, indent)
    } else {
        Seq::empty()
    }
}

/// Appends the print form of one length.
fn push_px(out: &mut String, v: Px)
    ensures
        final(out)@ == old(out)@ + crate::text::spec_px_chars(v@),
{
    crate::text::push_px_units(out, v.raw);
}

/// Appends the collapsed print form of four edges.
#[verifier::rlimit(60)]
fn push_edges(out: &mut String, e: &EdgeSizes)
    ensures
        final(out)@ == old(out)@ + spec_edges_text(e@),
{
    proof {
        reveal(spec_edges_text);
    }
    let lr = e.left.raw == e.right.raw;
    let tb = e.top.raw == e.bottom.raw;
    let rt = e.right.raw == e.top.raw;
    if lr && rt && tb {
        push_px(out, e.top);
    } else if lr && tb {
        push_px(out, e.top);
        crate::text::string_push_char(out, ' ');
        push_px(out, e.right);
        proof {
            assert(out@ =~= old(out)@ + spec_edges_text(e@));
        }
    } else if lr {
        push_px(out, e.top);
        crate::text::string_push_char(out, ' ');
        push_px(out, e.right);
        crate::text::string_push_char(out, ' ');
        push_px(out, e.bottom);
        proof {
            assert(out@ =~= old(out)@ + spec_edges_text(e@));
        }
    } else {
        push_px(out, e.top);
        crate::text::string_push_char(out, ' ');
        push_px(out, e.right);
        crate::text::string_push_char(out, ' ');
        push_px(out, e.bottom);
        crate::text::string_push_char(out, ' ');
        push_px(out, e.left);
        proof {
            assert(out@ =~= old(out)@ + spec_edges_text(e@));
        }
    }
}

/// Appends the print form of one box's geometry.
#[verifier::rlimit(60)]
fn push_dims(out: &mut String, d: &Dimensions)
    ensures
        final(out)@ == old(out)@ + spec_dims_text(d@),
{
    proof {
        reveal(spec_rect_text);
        reveal(spec_dims_text);
    }
    crate::text::string_push_char(out, '(');
    push_px(out, d.content.x);
    out.append(", ");
    push_px(out, d.content.y);
    out.append(") [");
    push_px(out, d.content.width);
    crate::text::string_push_char(out, 'x');
    push_px(out, d.content.height);
    crate::text::string_push_char(out, ']');
    proof {
        assert(out@ =~= old(out)@ + spec_rect_text(d@.content));
    }
    out.append(" (padding: ");
    push_edges(out, &d.padding);
    out.append(", border: ");
    push_edges(out, &d.border);
    out.append(", margin: ");
    push_edges(out, &d.margin);
    crate::text::string_push_char(out, ')');
    proof {
        assert(out@ =~= old(out)@ + spec_dims_text(d@));
    }
}

/// Appends one box's dump line and, below it, its children's.
#[verifier::rlimit(60)]
#[verifier::loop_isolation(false)]
fn push_box_text(out: &mut String, b: &LayoutBox, indent: usize)
    ensures
        final(out)@ == old(out)@ + spec_box_text(b@, indent as int),
    decreases b@,
{
    let ghost base = old(out)@;
    let mut j: usize = 0;
    while j < indent
        invariant
            0 <= j <= indent,
            out@ == base + spec_spaces(j as int),
        decreases indent - j,
    {
        crate::text::string_push_char(out, ' ');
        j = j + 1;
    }
    match &b.box_type {
        BoxType::BlockNode(s) => {
            out.append(s.name.as_str());
            out.append("(block)");
        },
        BoxType::InlineNode(s) => {
            out.append(s.name.as_str());
            out.append("(inline)");
        },
        BoxType::AnonymousBlock => {
            out.append("(anonymous)");
        },
    }
    proof {
        assert(out@ =~= base + spec_spaces(indent as int) + spec_box_type_text(b@.box_type));
    }
    crate::text::string_push_char(out, ' ');
    push_dims(out, &b.dimensions);
    crate::text::string_push_char(out, '\n');
    let next: usize = if indent <= usize::MAX - 2 {
        indent + 2
    } else {
        indent
    };
    let ghost kids = b@.children;
    proof {
        lemma_boxes_view_as_seq(b.children, 0);
        assert(b.children@.skip(0) =~= b.children@);
        assert(kids.len() == b.children@.len());
    }
    let n = b.children.len();
    let ghost mid = out@;
    let mut i: usize = 0;
    while i < n
        invariant
            0 <= i <= n,
            out@ + spec_boxes_text(kids, i as int, next as int) == mid + spec_boxes_text(
                kids,
                0,
                next as int,
            ),
        decreases n - i,
    {
        proof {
            assert(b.children@[i as int]@ == kids[i as int]);
            assert(decreases_to!(b@ => b@.children));
            assert(decreases_to!(b@.children => b@.children[i as int]));
        }
        let ghost before = out@;
        push_box_text(out, &b.children[i], next);
        proof {
            assert(before + spec_box_text(kids[i as int], next as int) + spec_boxes_text(
                kids,
                i + 1,
                next as int,
            ) =~= before + spec_boxes_text(kids, i as int, next as int));
        }
        i = i + 1;
    }
    proof {
        assert(spec_boxes_text(kids, n as int, next as int) =~= Seq::<char>::empty());
        assert(out@ + Seq::<char>::empty() =~= out@);
        assert(out@ =~= mid + spec_boxes_text(kids, 0, next as int));
        assert(out@ =~= base + spec_box_text(b@, indent as int));
    }
}

/// The viewport every dump lays out into: an 800-pixel-wide content
/// area at the origin, with no height yet.
pub open spec fn viewport_dims() -> DimsM {
    DimsM {
        content: RectM { x: 0, y: 0, width: 800 * (crate::px::PX_SCALE as int), height: 0 },
        padding: zero_edges(),
        border: zero_edges(),
        margin: zero_edges(),
    }
}

/// The text dump of the positioned box tree a document and stylesheet
/// produce inside the 800-pixel viewport.
pub open spec fn spec_dump_layout(n: crate::dom::NodeM, sheet: crate::css::StylesheetM) -> Seq<
    char,
> {
    spec_box_text(
        spec_layout(spec_build(crate::style::spec_style_tree(n, sheet)), viewport_dims()),
        0,
    )
}

/// Runs the whole pipeline on parsed inputs — style tree, box tree,
/// layout inside the 800-pixel viewport — and renders the positioned
/// tree as an indented text dump, one box per line.
pub fn dump_layout(node: &crate::dom::Node, stylesheet: &crate::css::Stylesheet) -> (r: String)
    requires
        spec_display(crate::style::spec_style_tree(node@, stylesheet@).props) != Display::Gone,
        spec_layout_fits(
            spec_build(crate::style::spec_style_tree(node@, stylesheet@)),
            viewport_dims(),
        ),
    ensures
        r@ == spec_dump_layout(node@, stylesheet@),
{
    let styled = crate::style::style_tree(node, stylesheet);
    let mut layout_root = build_layout_tree(&styled);
    let mut viewport = Dimensions::default();
    viewport.content.width = Px::from_px(800);
    proof {
        assert(viewport@ == viewport_dims());
    }
    layout_root.layout(&viewport);
    let mut out = String::new();
    push_box_text(&mut out, &layout_root, 0);
    proof {
        assert(Seq::<char>::empty() + spec_box_text(layout_root@, 0) =~= spec_box_text(
            layout_root@,
            0,
        ));
    }
    out
}

/// As `dump_layout`; kept as the hook that is meant to grow a JSON
/// rendering, and rendering the same text dump until it does.
pub fn dump_layout_as_json(node: &crate::dom::Node, stylesheet: &crate::css::Stylesheet) -> (r:
    String)
    requires
        spec_display(crate::style::spec_style_tree(node@, stylesheet@).props) != Display::Gone,
        spec_layout_fits(
            spec_build(crate::style::spec_style_tree(node@, stylesheet@)),
            viewport_dims(),
        ),
    ensures
        r@ == spec_dump_layout(node@, stylesheet@),
{
    dump_layout(node, stylesheet)
}

} // verus!
