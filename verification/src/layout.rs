//! Block layout: the tree of boxes and the geometry of each.
//!
//! All sizes are fixed-point pixels, in thousandths.

use crate::css::{Unit, Value, ValueView};
use crate::style::{display_of, lookup_of, value_of, Display, PropertyMapView, StyledNode, StyledNodeView};
use vstd::prelude::*;

verus! {

/// The sizes of the four edges of a box.
#[derive(Clone, Copy, Debug, PartialEq, Eq)]
pub struct EdgeSizes {
    pub left: i64,
    pub right: i64,
    pub top: i64,
    pub bottom: i64,
}

/// The box model of one box: the content area, with its top left corner
/// relative to the document origin, and the edges that surround it.
#[derive(Clone, Copy, Debug, PartialEq, Eq)]
pub struct Dimensions {
    pub x: i64,
    pub y: i64,
    pub width: i64,
    pub height: i64,
    pub padding: EdgeSizes,
    pub border: EdgeSizes,
    pub margin: EdgeSizes,
}

/// Edges of size zero.
pub open spec fn zero_edges() -> EdgeSizes {
    EdgeSizes { left: 0, right: 0, top: 0, bottom: 0 }
}

/// An empty box at the origin.
pub open spec fn zero_dimensions() -> Dimensions {
    Dimensions {
        x: 0,
        y: 0,
        width: 0,
        height: 0,
        padding: zero_edges(),
        border: zero_edges(),
        margin: zero_edges(),
    }
}

impl Default for EdgeSizes {
    fn default() -> (e: Self)
        ensures
            e == zero_edges(),
    {
        EdgeSizes { left: 0, right: 0, top: 0, bottom: 0 }
    }
}

impl Default for Dimensions {
    fn default() -> (d: Self)
        ensures
            d == zero_dimensions(),
    {
        Dimensions {
            x: 0,
            y: 0,
            width: 0,
            height: 0,
            padding: EdgeSizes::default(),
            border: EdgeSizes::default(),
            margin: EdgeSizes::default(),
        }
    }
}

/// A rectangle, in thousandths of a pixel. Its numbers are wide enough to
/// hold any sum of the dimensions of a box.
#[derive(Clone, Copy, Debug, PartialEq, Eq)]
pub struct Rect {
    pub x: i128,
    pub y: i128,
    pub width: i128,
    pub height: i128,
}

/// The area that the content, the padding and the border of a box cover.
pub open spec fn border_box(d: Dimensions) -> Rect {
    Rect {
        x: (d.x - d.padding.left - d.border.left) as i128,
        y: (d.y - d.padding.top - d.border.top) as i128,
        width: (d.width + d.padding.left + d.padding.right + d.border.left + d.border.right) as i128,
        height: (d.height + d.padding.top + d.padding.bottom + d.border.top + d.border.bottom) as i128,
    }
}

impl Dimensions {
    /// The area that the content, the padding and the border cover.
    pub fn border_box(&self) -> (r: Rect)
        ensures
            r == border_box(*self),
    {
        Rect {
            x: self.x as i128 - self.padding.left as i128 - self.border.left as i128,
            y: self.y as i128 - self.padding.top as i128 - self.border.top as i128,
            width: self.width as i128 + self.padding.left as i128 + self.padding.right as i128
                + self.border.left as i128 + self.border.right as i128,
            height: self.height as i128 + self.padding.top as i128 + self.padding.bottom as i128
                + self.border.top as i128 + self.border.bottom as i128,
        }
    }
}

/// What a box stands for.
#[derive(Debug)]
pub enum BoxType<'a> {
    BlockNode(&'a StyledNode<'a>),
    InlineNode(&'a StyledNode<'a>),
    AnonymousBlock,
}

/// What a box stands for, as contracts see it.
pub ghost enum BoxTypeView {
    BlockNode(StyledNodeView),
    InlineNode(StyledNodeView),
    AnonymousBlock,
}

impl<'a> View for BoxType<'a> {
    type V = BoxTypeView;

    open spec fn view(&self) -> BoxTypeView {
        match self {
            BoxType::BlockNode(s) => BoxTypeView::BlockNode(s@),
            BoxType::InlineNode(s) => BoxTypeView::InlineNode(s@),
            BoxType::AnonymousBlock => BoxTypeView::AnonymousBlock,
        }
    }
}

/// A node of the layout tree.
#[derive(Debug)]
pub struct LayoutBox<'a> {
    pub dimensions: Dimensions,
    pub box_type: BoxType<'a>,
    pub children: Vec<LayoutBox<'a>>,
}

/// A box with its children, as contracts see it.
pub ghost struct LayoutBoxView {
    pub dimensions: Dimensions,
    pub box_type: BoxTypeView,
    pub children: Seq<LayoutBoxView>,
}

/// The views of a sequence of boxes.
pub open spec fn box_views<'a>(boxes: Seq<LayoutBox<'a>>) -> Seq<LayoutBoxView>
    decreases boxes,
{
    Seq::new(
        boxes.len(),
        |i: int|
            if 0 <= i < boxes.len() {
                boxes[i]@
            } else {
                arbitrary()
            },
    )
}

impl<'a> View for LayoutBox<'a> {
    type V = LayoutBoxView;

    open spec fn view(&self) -> LayoutBoxView
        decreases self,
    {
        LayoutBoxView {
            dimensions: self.dimensions,
            box_type: self.box_type@,
            children: box_views(self.children@),
        }
    }
}


/// Why a tree could not be laid out.
#[derive(Clone, Copy, Debug, PartialEq, Eq)]
pub enum LayoutErrorKind {
    /// A property that must be a length has another kind of value.
    NotALength,
    /// The root of the tree is not displayed.
    RootNotDisplayed,
    /// A size or a position lies outside the range of the number type.
    OutOfRange,
}

/// A layout failure, with the name of the property or dimension involved.
#[derive(Debug, PartialEq, Eq)]
pub struct LayoutError {
    pub kind: LayoutErrorKind,
    pub property: String,
}

/// A layout failure as contracts see it.
pub ghost struct LayoutErrorView {
    pub kind: LayoutErrorKind,
    pub property: Seq<char>,
}

impl View for LayoutError {
    type V = LayoutErrorView;

    open spec fn view(&self) -> LayoutErrorView {
        LayoutErrorView { kind: self.kind, property: self.property@ }
    }
}

impl LayoutError {
    /// The failure of the given kind for the given property.
    pub fn new(kind: LayoutErrorKind, property: &str) -> (e: Self)
        ensures
            e@ == (LayoutErrorView { kind, property: property@ }),
    {
        LayoutError { kind, property: property.to_string() }
    }
}

/// A box of the given type that has no children and is not laid out yet.
pub open spec fn new_box(box_type: BoxTypeView) -> LayoutBoxView {
    LayoutBoxView { dimensions: zero_dimensions(), box_type, children: Seq::empty() }
}

/// `parent` with `child` appended to its children.
pub open spec fn with_child(parent: LayoutBoxView, child: LayoutBoxView) -> LayoutBoxView {
    LayoutBoxView { children: parent.children.push(child), ..parent }
}

/// `boxes`, the children of a box, with the inline box `b` added. Under a
/// block box it goes into an anonymous block: the last child if that is
/// one, a new one otherwise. Under any other box it is appended directly.
pub open spec fn add_inline(boxes: Seq<LayoutBoxView>, b: LayoutBoxView, in_block: bool) -> Seq<
    LayoutBoxView,
> {
    if !in_block {
        boxes.push(b)
    } else if boxes.len() > 0 && boxes.last().box_type is AnonymousBlock {
        boxes.update(boxes.len() - 1, with_child(boxes.last(), b))
    } else {
        boxes.push(with_child(new_box(BoxTypeView::AnonymousBlock), b))
    }
}

/// The box tree of a styled node, as a block box or as an inline box, with
/// the boxes of its children.
pub open spec fn build_as(s: StyledNodeView, in_block: bool) -> LayoutBoxView
    decreases s, 0int,
{
    LayoutBoxView {
        dimensions: zero_dimensions(),
        box_type: if in_block {
            BoxTypeView::BlockNode(s)
        } else {
            BoxTypeView::InlineNode(s)
        },
        children: build_children(s.children, in_block),
    }
}

/// The box tree of a styled node: a block box if its `display` says so, an
/// inline box otherwise.
pub open spec fn build(s: StyledNodeView) -> LayoutBoxView
    decreases s, 1int,
{
    build_as(s, display_of(s.specified_values) == Display::Block)
}

/// The child boxes that the styled nodes `kids` give, in document order:
/// a block child gives a box of its own, an inline child is added as
/// `add_inline` says, and a child that is not displayed gives nothing.
pub open spec fn build_children(kids: Seq<StyledNodeView>, in_block: bool) -> Seq<LayoutBoxView>
    decreases kids, 2int,
{
    if kids.len() == 0 {
        Seq::empty()
    } else {
        let before = build_children(kids.drop_last(), in_block);
        let kid = kids.last();
        match display_of(kid.specified_values) {
            Display::Block => before.push(build(kid)),
            Display::Inline => add_inline(before, build(kid), in_block),
            Display::DisplayNone => before,
        }
    }
}

impl<'a> LayoutBox<'a> {
    fn new(box_type: BoxType<'a>) -> (b: LayoutBox<'a>)
        ensures
            b@ == new_box(box_type@),
            b.box_type == box_type,
            b.children@.len() == 0,
    {
        let b = LayoutBox { box_type, dimensions: Dimensions::default(), children: Vec::new() };
        assert(b@.children =~= Seq::empty());
        b
    }

    /// The styled node that a block or inline box stands for.
    fn get_style_node(&self) -> (s: &'a StyledNode<'a>)
        requires
            !(self.box_type is AnonymousBlock),
        ensures
            self.box_type@ == BoxTypeView::BlockNode(s@) || self.box_type@
                == BoxTypeView::InlineNode(s@),
    {
        match self.box_type {
            BoxType::BlockNode(node) => node,
            BoxType::InlineNode(node) => node,
            BoxType::AnonymousBlock => vstd::pervasive::unreached(),
        }
    }

    /// Where a new inline child should go: the box itself, unless it is a
    /// block box; then its last child if that is an anonymous block, and a
    /// new anonymous block at the end otherwise.
    fn get_inline_container(&mut self) -> (r: &mut LayoutBox<'a>)
        ensures
            !(old(self).box_type is BlockNode) ==> *r == *old(self) && *final(self) == *final(r),
            old(self).box_type is BlockNode ==> final(self).dimensions == old(self).dimensions
                && final(self).box_type == old(self).box_type,
            old(self).box_type is BlockNode && old(self).children.len() > 0 && old(self).children@.last().box_type is AnonymousBlock ==> *r == old(self).children@.last()
                && final(self).children@ == old(self).children@.update(
                old(self).children.len() - 1,
                *final(r),
            ),
            old(self).box_type is BlockNode && !(old(self).children.len() > 0 && old(self).children@.last().box_type is AnonymousBlock) ==> r@ == new_box(
                BoxTypeView::AnonymousBlock,
            ) && r.children@.len() == 0 && final(self).children@ == old(self).children@.push(
                *final(r),
            ),
    {
        match self.box_type {
            BoxType::BlockNode(_) => {
                let n = self.children.len();
                let reuse = n > 0 && match self.children[n - 1].box_type {
                    BoxType::AnonymousBlock => true,
                    _ => false,
                };
                if !reuse {
                    self.children.push(LayoutBox::new(BoxType::AnonymousBlock));
                }
                let last = self.children.len() - 1;
                &mut self.children[last]
            },
            _ => self,
        }
    }
}


/// Appending a box appends its view.
proof fn lemma_box_views_push<'a>(boxes: Seq<LayoutBox<'a>>, b: LayoutBox<'a>)
    ensures
        box_views(boxes.push(b)) == box_views(boxes).push(b@),
{
    assert(box_views(boxes.push(b)) =~= box_views(boxes).push(b@));
}

/// Replacing a box replaces its view.
proof fn lemma_box_views_update<'a>(boxes: Seq<LayoutBox<'a>>, i: int, b: LayoutBox<'a>)
    requires
        0 <= i < boxes.len(),
    ensures
        box_views(boxes.update(i, b)) == box_views(boxes).update(i, b@),
{
    assert(box_views(boxes.update(i, b)) =~= box_views(boxes).update(i, b@));
}

/// The error for a root that is not displayed.
pub open spec fn root_not_displayed() -> LayoutErrorView {
    LayoutErrorView { kind: LayoutErrorKind::RootNotDisplayed, property: "display"@ }
}

/// Builds the box of `style_node`, a block box if `as_block` says so and an
/// inline box otherwise, with the boxes of its descendants.
fn build_box<'a>(style_node: &'a StyledNode<'a>, as_block: bool) -> (root: LayoutBox<'a>)
    ensures
        root@ == build_as(style_node@, as_block),
    decreases style_node,
{
    let box_type = if as_block {
        BoxType::BlockNode(style_node)
    } else {
        BoxType::InlineNode(style_node)
    };
    let ghost kids = style_node@.children;
    let mut root = LayoutBox::new(box_type);
    let n = style_node.children.len();
    let mut i: usize = 0;
    assert(kids == crate::style::styled_views(style_node.children@));
    assert(kids.take(0) =~= Seq::empty());
    while i < n
        invariant
            i <= n == style_node.children.len(),
            kids == crate::style::styled_views(style_node.children@),
            as_block == (root.box_type is BlockNode),
            root.dimensions == zero_dimensions(),
            root.box_type@ == build_as(style_node@, as_block).box_type,
            box_views(root.children@) == build_children(kids.take(i as int), as_block),
        decreases n - i,
    {
        let child = &style_node.children[i];
        proof {
            assert(kids.take(i + 1).drop_last() =~= kids.take(i as int));
            assert(kids.take(i + 1).last() == child@);
            assert(build(child@) == build_as(
                child@,
                display_of(child@.specified_values) == Display::Block,
            ));
        }
        match child.display() {
            Display::Block => {
                let b = build_box(child, true);
                proof {
                    lemma_box_views_push(root.children@, b);
                }
                root.children.push(b);
            },
            Display::Inline => {
                let b = build_box(child, false);
                let ghost olds = root.children@;
                let container = root.get_inline_container();
                let ghost held = *container;
                container.children.push(b);
                proof {
                    let grown = *container;
                    lemma_box_views_push(held.children@, b);
                    assert(grown@ == with_child(held@, b@));
                    if as_block {
                        if olds.len() > 0 && olds.last().box_type is AnonymousBlock {
                            lemma_box_views_update(olds, olds.len() - 1, grown);
                        } else {
                            lemma_box_views_push(olds, grown);
                        }
                    }
                }
            },
            Display::DisplayNone => {},
        }
        i += 1;
    }
    assert(kids.take(n as int) =~= kids);
    root
}

/// Builds the tree of boxes for a styled tree, without any geometry yet.
/// Fails exactly when the root is not displayed.
pub fn build_layout_tree<'a>(style_node: &'a StyledNode<'a>) -> (r: Result<
    LayoutBox<'a>,
    LayoutError,
>)
    ensures
        match r {
            Ok(b) => display_of(style_node@.specified_values) != Display::DisplayNone && b@
                == build(style_node@),
            Err(e) => display_of(style_node@.specified_values) == Display::DisplayNone && e@
                == root_not_displayed(),
        },
{
    match style_node.display() {
        Display::Block => Ok(build_box(style_node, true)),
        Display::Inline => Ok(build_box(style_node, false)),
        Display::DisplayNone => Err(
            LayoutError::new(LayoutErrorKind::RootNotDisplayed, "display"),
        ),
    }
}


/// A horizontal size as the style sheet gives it: the keyword `auto`, a
/// length, or a value that is neither.
pub ghost enum Size {
    Auto,
    Fixed(int),
    Invalid,
}

impl Size {
    /// What the size counts for in a sum: a length counts as itself,
    /// anything else as zero.
    pub open spec fn amount(self) -> int {
        match self {
            Size::Fixed(n) => n,
            _ => 0,
        }
    }

    /// `auto` becomes zero; any other size stays.
    pub open spec fn or_zero(self) -> Size {
        match self {
            Size::Auto => Size::Fixed(0),
            _ => self,
        }
    }

    /// A length grows by `by`; any other size stays.
    pub open spec fn plus(self, by: int) -> Size {
        match self {
            Size::Fixed(n) => Size::Fixed(n + by),
            _ => self,
        }
    }
}

/// The size that a value denotes.
pub open spec fn size_of(v: ValueView) -> Size {
    if v.is_auto() {
        Size::Auto
    } else {
        match v.px() {
            Some(n) => Size::Fixed(n as int),
            None => Size::Invalid,
        }
    }
}

/// The keyword `auto`.
pub open spec fn auto_keyword() -> ValueView {
    ValueView::Keyword("auto"@)
}

/// The length zero.
pub open spec fn zero_length() -> ValueView {
    ValueView::Length(0, Unit::Px)
}

/// The seven sizes that make up the width of a box's margin box.
pub ghost struct Horizontal {
    pub width: Size,
    pub margin_left: Size,
    pub margin_right: Size,
    pub border_left: Size,
    pub border_right: Size,
    pub padding_left: Size,
    pub padding_right: Size,
}

impl Horizontal {
    /// The seven sizes added up, each for what it counts in a sum.
    pub open spec fn total(self) -> int {
        self.margin_left.amount() + self.margin_right.amount() + self.border_left.amount()
            + self.border_right.amount() + self.padding_left.amount()
            + self.padding_right.amount() + self.width.amount()
    }
}

/// The horizontal sizes that the properties specify. `width` is `auto`
/// unless given; an edge takes its own property, else the shorthand for
/// all four sides, else zero.
pub open spec fn specified_horizontal(props: PropertyMapView) -> Horizontal {
    Horizontal {
        width: size_of(
            match value_of(props, "width"@) {
                Some(v) => v,
                None => auto_keyword(),
            },
        ),
        margin_left: size_of(lookup_of(props, "margin-left"@, "margin"@, zero_length())),
        margin_right: size_of(lookup_of(props, "margin-right"@, "margin"@, zero_length())),
        border_left: size_of(
            lookup_of(props, "border-left-width"@, "border-width"@, zero_length()),
        ),
        border_right: size_of(
            lookup_of(props, "border-right-width"@, "border-width"@, zero_length()),
        ),
        padding_left: size_of(lookup_of(props, "padding-left"@, "padding"@, zero_length())),
        padding_right: size_of(lookup_of(props, "padding-right"@, "padding"@, zero_length())),
    }
}

/// The used horizontal sizes of a block in a containing block of width
/// `cw`: the specified sizes with `auto` resolved, and adjusted so that the
/// seven add up to `cw`.
///
/// Where the width is given and the total exceeds `cw`, `auto` margins are
/// zero. Then, with `underflow` the width left over: an `auto` width takes
/// the underflow if that is not negative, and is zero with the underflow
/// added to the right margin otherwise, `auto` margins being zero; with
/// the width given, one `auto` margin takes the underflow, two share it
/// equally, and without any the underflow is added to the right margin.
pub open spec fn used_horizontal(h: Horizontal, cw: int) -> Horizontal {
    let over = !(h.width is Auto) && h.total() > cw;
    let ml = if over {
        h.margin_left.or_zero()
    } else {
        h.margin_left
    };
    let mr = if over {
        h.margin_right.or_zero()
    } else {
        h.margin_right
    };
    let underflow = cw - h.total();
    if h.width is Auto {
        if underflow >= 0 {
            Horizontal {
                width: Size::Fixed(underflow),
                margin_left: ml.or_zero(),
                margin_right: mr.or_zero(),
                ..h
            }
        } else {
            Horizontal {
                width: Size::Fixed(0),
                margin_left: ml.or_zero(),
                margin_right: mr.or_zero().plus(underflow),
                ..h
            }
        }
    } else if ml is Auto && mr is Auto {
        Horizontal {
            margin_left: Size::Fixed(underflow / 2),
            margin_right: Size::Fixed(underflow / 2),
            ..h
        }
    } else if ml is Auto {
        Horizontal { margin_left: Size::Fixed(underflow), margin_right: mr, ..h }
    } else if mr is Auto {
        Horizontal { margin_left: ml, margin_right: Size::Fixed(underflow), ..h }
    } else {
        Horizontal { margin_left: ml, margin_right: mr.plus(underflow), ..h }
    }
}

/// The error for a property whose value should be a length and is not.
pub open spec fn not_a_length(name: Seq<char>) -> LayoutErrorView {
    LayoutErrorView { kind: LayoutErrorKind::NotALength, property: name }
}

/// The error for a size or position that the number type cannot hold.
pub open spec fn out_of_range(name: Seq<char>) -> LayoutErrorView {
    LayoutErrorView { kind: LayoutErrorKind::OutOfRange, property: name }
}

/// `n` as a stored number, if it fits.
pub open spec fn in_range(n: int, name: Seq<char>) -> Result<i64, LayoutErrorView> {
    if i64::MIN <= n <= i64::MAX {
        Ok(n as i64)
    } else {
        Err(out_of_range(name))
    }
}

/// The number stored for a used size: it must be a length, and fit.
pub open spec fn used_px(s: Size, name: Seq<char>) -> Result<i64, LayoutErrorView> {
    match s {
        Size::Fixed(n) => in_range(n, name),
        _ => Err(not_a_length(name)),
    }
}

/// The dimensions of a block after its width is calculated: `d` with the
/// width and the left and right edges set to the used sizes. The first
/// size, in the order below, that is no length or does not fit is the
/// error.
pub open spec fn block_width(props: PropertyMapView, d: Dimensions, cw: i64) -> Result<
    Dimensions,
    LayoutErrorView,
> {
    let u = used_horizontal(specified_horizontal(props), cw as int);
    match used_px(u.width, "width"@) {
        Err(e) => Err(e),
        Ok(width) => match used_px(u.padding_left, "padding-left"@) {
            Err(e) => Err(e),
            Ok(pl) => match used_px(u.padding_right, "padding-right"@) {
                Err(e) => Err(e),
                Ok(pr) => match used_px(u.border_left, "border-left-width"@) {
                    Err(e) => Err(e),
                    Ok(bl) => match used_px(u.border_right, "border-right-width"@) {
                        Err(e) => Err(e),
                        Ok(br) => match used_px(u.margin_left, "margin-left"@) {
                            Err(e) => Err(e),
                            Ok(ml) => match used_px(u.margin_right, "margin-right"@) {
                                Err(e) => Err(e),
                                Ok(mr) => Ok(
                                    Dimensions {
                                        width,
                                        padding: EdgeSizes { left: pl, right: pr, ..d.padding },
                                        border: EdgeSizes { left: bl, right: br, ..d.border },
                                        margin: EdgeSizes { left: ml, right: mr, ..d.margin },
                                        ..d
                                    },
                                ),
                            },
                        },
                    },
                },
            },
        },
    }
}

/// The size of a top or bottom margin: `auto` counts as zero, and any
/// other value must be a length.
pub open spec fn vertical_margin(v: ValueView, name: Seq<char>) -> Result<i64, LayoutErrorView> {
    if v.is_auto() {
        Ok(0i64)
    } else {
        edge_px(v, name)
    }
}

/// The size of a border or padding edge: the value must be a length.
pub open spec fn edge_px(v: ValueView, name: Seq<char>) -> Result<i64, LayoutErrorView> {
    match v.px() {
        Some(n) => Ok(n),
        None => Err(not_a_length(name)),
    }
}

/// The dimensions of a block after it is positioned in its containing
/// block: `d` with the top and bottom edges set, the content area placed
/// to the right of its left edges, and below all that the containing block
/// holds so far and its own top edges. The first value, in the order
/// below, that is no length or does not fit is the error.
pub open spec fn block_position(props: PropertyMapView, d: Dimensions, containing: Dimensions)
    -> Result<Dimensions, LayoutErrorView> {
    let zero = zero_length();
    match vertical_margin(lookup_of(props, "margin-top"@, "margin"@, zero), "margin-top"@) {
        Err(e) => Err(e),
        Ok(mt) => match vertical_margin(
            lookup_of(props, "margin-bottom"@, "margin"@, zero),
            "margin-bottom"@,
        ) {
            Err(e) => Err(e),
            Ok(mb) => match edge_px(
                lookup_of(props, "border-top-width"@, "border-width"@, zero),
                "border-top-width"@,
            ) {
                Err(e) => Err(e),
                Ok(bt) => match edge_px(
                    lookup_of(props, "border-bottom-width"@, "border-width"@, zero),
                    "border-bottom-width"@,
                ) {
                    Err(e) => Err(e),
                    Ok(bb) => match edge_px(
                        lookup_of(props, "padding-top"@, "padding"@, zero),
                        "padding-top"@,
                    ) {
                        Err(e) => Err(e),
                        Ok(pt) => match edge_px(
                            lookup_of(props, "padding-bottom"@, "padding"@, zero),
                            "padding-bottom"@,
                        ) {
                            Err(e) => Err(e),
                            Ok(pb) => match in_range(
                                containing.x + d.margin.left + d.border.left + d.padding.left,
                                "x"@,
                            ) {
                                Err(e) => Err(e),
                                Ok(x) => match in_range(
                                    containing.y + containing.height + mt + bt + pt,
                                    "y"@,
                                ) {
                                    Err(e) => Err(e),
                                    Ok(y) => Ok(
                                        Dimensions {
                                            x,
                                            y,
                                            padding: EdgeSizes { top: pt, bottom: pb, ..d.padding },
                                            border: EdgeSizes { top: bt, bottom: bb, ..d.border },
                                            margin: EdgeSizes { top: mt, bottom: mb, ..d.margin },
                                            ..d
                                        },
                                    ),
                                },
                            },
                        },
                    },
                },
            },
        },
    }
}

/// The height of the margin box: the content height and the top and
/// bottom edges.
pub open spec fn margin_box_height(d: Dimensions) -> int {
    d.height + d.padding.top + d.padding.bottom + d.border.top + d.border.bottom + d.margin.top
        + d.margin.bottom
}

/// The dimensions of a container after one more child is laid out: `d`
/// grown by the height of the child's margin box.
pub open spec fn grown(d: Dimensions, child: Dimensions) -> Result<Dimensions, LayoutErrorView> {
    match in_range(d.height + margin_box_height(child), "height"@) {
        Err(e) => Err(e),
        Ok(height) => Ok(Dimensions { height, ..d }),
    }
}

/// The dimensions of a block after its height is calculated: a `height`
/// given as a length replaces the height that the children add up to.
pub open spec fn block_height(props: PropertyMapView, d: Dimensions) -> Dimensions {
    match value_of(props, "height"@) {
        Some(ValueView::Length(h, Unit::Px)) => Dimensions { height: h, ..d },
        _ => d,
    }
}

/// The box `b` laid out in the containing block `containing`.
///
/// A block box gets its width, then its position; then its children are
/// laid out in order, each in the block's dimensions as they are at that
/// point; then its height is settled. Any other box stays as it is.
pub open spec fn layout_box(b: LayoutBoxView, containing: Dimensions) -> Result<
    LayoutBoxView,
    LayoutErrorView,
>
    decreases b, 1int,
{
    match b.box_type {
        BoxTypeView::BlockNode(s) => match block_width(
            s.specified_values,
            b.dimensions,
            containing.width,
        ) {
            Err(e) => Err(e),
            Ok(d1) => match block_position(s.specified_values, d1, containing) {
                Err(e) => Err(e),
                Ok(d2) => match layout_children(b.children, d2) {
                    Err(e) => Err(e),
                    Ok((kids, d3)) => Ok(
                        LayoutBoxView {
                            dimensions: block_height(s.specified_values, d3),
                            box_type: b.box_type,
                            children: kids,
                        },
                    ),
                },
            },
        },
        _ => Ok(b),
    }
}

/// The boxes `kids` laid out one after the other in a container whose
/// dimensions are `d` at the start, with the container's dimensions at the
/// end: after each child the container has grown by that child's margin
/// box, so that the next child is placed below it.
pub open spec fn layout_children(kids: Seq<LayoutBoxView>, d: Dimensions) -> Result<
    (Seq<LayoutBoxView>, Dimensions),
    LayoutErrorView,
>
    decreases kids, 0int,
{
    if kids.len() == 0 {
        Ok((Seq::empty(), d))
    } else {
        match layout_children(kids.drop_last(), d) {
            Err(e) => Err(e),
            Ok((done, d1)) => match layout_box(kids.last(), d1) {
                Err(e) => Err(e),
                Ok(k) => match grown(d1, k.dimensions) {
                    Err(e) => Err(e),
                    Ok(d2) => Ok((done.push(k), d2)),
                },
            },
        }
    }
}

/// What `layout_tree` gives: the root is laid out as a block box, whatever
/// its `display` says, unless that says that it is not displayed.
pub open spec fn layout_of(root: StyledNodeView, containing: Dimensions) -> Result<
    LayoutBoxView,
    LayoutErrorView,
> {
    if display_of(root.specified_values) == Display::DisplayNone {
        Err(root_not_displayed())
    } else {
        layout_box(build_as(root, true), containing)
    }
}


/// A horizontal size during the calculation of a width.
#[derive(Clone, Copy)]
enum Extent {
    Auto,
    Fixed(i128),
    Invalid,
}

impl View for Extent {
    type V = Size;

    closed spec fn view(&self) -> Size {
        match self {
            Extent::Auto => Size::Auto,
            Extent::Fixed(n) => Size::Fixed(*n as int),
            Extent::Invalid => Size::Invalid,
        }
    }
}

impl Extent {
    /// The size lies in the range of a stored number.
    spec fn small(self) -> bool {
        match self {
            Extent::Fixed(n) => i64::MIN <= n <= i64::MAX,
            _ => true,
        }
    }

    fn of(v: &Value) -> (e: Extent)
        ensures
            e@ == size_of(v@),
            e.small(),
    {
        if v.is_auto() {
            Extent::Auto
        } else {
            match v.to_px() {
                Some(n) => Extent::Fixed(n as i128),
                None => Extent::Invalid,
            }
        }
    }

    fn amount(self) -> (n: i128)
        requires
            self.small(),
        ensures
            n == self@.amount(),
            i64::MIN <= n <= i64::MAX,
    {
        match self {
            Extent::Fixed(n) => n,
            _ => 0,
        }
    }

    fn is_auto(self) -> (r: bool)
        ensures
            r == (self@ is Auto),
    {
        match self {
            Extent::Auto => true,
            _ => false,
        }
    }

    fn or_zero(self) -> (r: Extent)
        ensures
            r@ == self@.or_zero(),
            self.small() ==> r.small(),
    {
        match self {
            Extent::Auto => Extent::Fixed(0),
            _ => self,
        }
    }

    fn plus(self, by: i128) -> (r: Extent)
        requires
            self.small(),
            -0x10_0000_0000_0000_0000 <= by <= 0x10_0000_0000_0000_0000,
        ensures
            r@ == self@.plus(by as int),
    {
        match self {
            Extent::Fixed(n) => Extent::Fixed(n + by),
            _ => self,
        }
    }

    /// The number to store for a used size.
    fn narrow(self, name: &str) -> (r: Result<i64, LayoutError>)
        ensures
            match used_px(self@, name@) {
                Ok(n) => r == Ok::<i64, LayoutError>(n),
                Err(e) => r matches Err(x) && x@ == e,
            },
    {
        match self {
            Extent::Fixed(n) => narrow(n, name),
            _ => Err(LayoutError::new(LayoutErrorKind::NotALength, name)),
        }
    }
}

/// `n` as a stored number, if it fits.
fn narrow(n: i128, name: &str) -> (r: Result<i64, LayoutError>)
    ensures
        match in_range(n as int, name@) {
            Ok(m) => r == Ok::<i64, LayoutError>(m),
            Err(e) => r matches Err(x) && x@ == e,
        },
{
    if n < i64::MIN as i128 || n > i64::MAX as i128 {
        Err(LayoutError::new(LayoutErrorKind::OutOfRange, name))
    } else {
        Ok(n as i64)
    }
}

/// The size of a border or padding edge.
fn edge(v: &Value, name: &str) -> (r: Result<i64, LayoutError>)
    ensures
        match edge_px(v@, name@) {
            Ok(n) => r == Ok::<i64, LayoutError>(n),
            Err(e) => r matches Err(x) && x@ == e,
        },
{
    match v.to_px() {
        Some(n) => Ok(n),
        None => Err(LayoutError::new(LayoutErrorKind::NotALength, name)),
    }
}

/// The size of a top or bottom margin.
fn margin_edge(v: &Value, name: &str) -> (r: Result<i64, LayoutError>)
    ensures
        match vertical_margin(v@, name@) {
            Ok(n) => r == Ok::<i64, LayoutError>(n),
            Err(e) => r matches Err(x) && x@ == e,
        },
{
    if v.is_auto() {
        Ok(0)
    } else {
        edge(v, name)
    }
}

/// The properties of the styled node that a box stands for; none for an
/// anonymous block.
pub open spec fn box_props(t: BoxTypeView) -> PropertyMapView {
    match t {
        BoxTypeView::BlockNode(s) => s.specified_values,
        BoxTypeView::InlineNode(s) => s.specified_values,
        BoxTypeView::AnonymousBlock => Map::empty(),
    }
}

impl Dimensions {
    /// The height of the margin box: the content height and the top and
    /// bottom edges.
    pub fn margin_box_height(&self) -> (h: i128)
        ensures
            h == margin_box_height(*self),
    {
        self.height as i128 + self.padding.top as i128 + self.padding.bottom as i128
            + self.border.top as i128 + self.border.bottom as i128 + self.margin.top as i128
            + self.margin.bottom as i128
    }
}

impl<'a> LayoutBox<'a> {
    /// Calculates the width of a block and its left and right edges.
    pub fn calculate_block_width(&mut self, containing_block: Dimensions) -> (r: Result<
        (),
        LayoutError,
    >)
        requires
            !(old(self).box_type is AnonymousBlock),
        ensures
            final(self).box_type == old(self).box_type,
            final(self).children == old(self).children,
            match block_width(
                box_props(old(self).box_type@),
                old(self).dimensions,
                containing_block.width,
            ) {
                Ok(d) => r is Ok && final(self).dimensions == d,
                Err(e) => r matches Err(x) && x@ == e,
            },
            r is Ok ==> margin_box_width(final(self).dimensions) == containing_block.width
                - width_left_over(
                specified_horizontal(box_props(old(self).box_type@)),
                containing_block.width as int,
            ),
    {
        proof {
            if block_width(
                box_props(self.box_type@),
                self.dimensions,
                containing_block.width,
            ) is Ok {
                lemma_width_conservation(
                    box_props(self.box_type@),
                    self.dimensions,
                    containing_block.width,
                );
            }
        }
        let style = self.get_style_node();

        // `width` has initial value `auto`.
        let auto = Value::Keyword("auto".to_string());
        let mut width = Extent::of(
            &match style.value("width") {
                Some(v) => v,
                None => auto,
            },
        );

        // Margin, border and padding have initial value 0.
        let zero = Value::Length(0, Unit::Px);

        let mut margin_left = Extent::of(&style.lookup("margin-left", "margin", &zero));
        let mut margin_right = Extent::of(&style.lookup("margin-right", "margin", &zero));

        let border_left = Extent::of(&style.lookup("border-left-width", "border-width", &zero));
        let border_right = Extent::of(&style.lookup("border-right-width", "border-width", &zero));

        let padding_left = Extent::of(&style.lookup("padding-left", "padding", &zero));
        let padding_right = Extent::of(&style.lookup("padding-right", "padding", &zero));

        let ghost specified = Horizontal {
            width: width@,
            margin_left: margin_left@,
            margin_right: margin_right@,
            border_left: border_left@,
            border_right: border_right@,
            padding_left: padding_left@,
            padding_right: padding_right@,
        };
        assert(specified == specified_horizontal(box_props(self.box_type@)));

        let total: i128 = margin_left.amount() + margin_right.amount() + border_left.amount()
            + border_right.amount() + padding_left.amount() + padding_right.amount()
            + width.amount();
        let cw: i128 = containing_block.width as i128;

        // If width is not auto and the total is wider than the container,
        // treat auto margins as 0.
        if !width.is_auto() && total > cw {
            margin_left = margin_left.or_zero();
            margin_right = margin_right.or_zero();
        }
        // Adjust used values so that the sum equals the width of the
        // container. Each arm increases the total width by exactly
        // `underflow`.

        let underflow: i128 = cw - total;

        if width.is_auto() {
            // If width is set to auto, any other auto values become 0.
            margin_left = margin_left.or_zero();
            margin_right = margin_right.or_zero();
            if underflow >= 0 {
                // Expand width to fill the underflow.
                width = Extent::Fixed(underflow);
            } else {
                // Width can't be negative. Adjust the right margin instead.
                width = Extent::Fixed(0);
                margin_right = margin_right.plus(underflow);
            }
        } else if margin_left.is_auto() && margin_right.is_auto() {
            // If margin-left and margin-right are both auto, their used
            // values are equal.
            margin_left = Extent::Fixed(underflow / 2);
            margin_right = Extent::Fixed(underflow / 2);
        } else if margin_left.is_auto() {
            // If exactly one size is auto, its used value follows from the
            // equality.
            margin_left = Extent::Fixed(underflow);
        } else if margin_right.is_auto() {
            margin_right = Extent::Fixed(underflow);
        } else {
            // If the values are overconstrained, calculate margin_right.
            margin_right = margin_right.plus(underflow);
        }

        let ghost used = Horizontal {
            width: width@,
            margin_left: margin_left@,
            margin_right: margin_right@,
            ..specified
        };
        assert(used == used_horizontal(specified, containing_block.width as int));

        self.dimensions.width = width.narrow("width")?;

        self.dimensions.padding.left = padding_left.narrow("padding-left")?;
        self.dimensions.padding.right = padding_right.narrow("padding-right")?;

        self.dimensions.border.left = border_left.narrow("border-left-width")?;
        self.dimensions.border.right = border_right.narrow("border-right-width")?;

        self.dimensions.margin.left = margin_left.narrow("margin-left")?;
        self.dimensions.margin.right = margin_right.narrow("margin-right")?;
        Ok(())
    }

    /// Finishes the edges of a block and positions it in its containing
    /// block, below what the containing block holds so far.
    pub fn calculate_block_position(&mut self, containing_block: Dimensions) -> (r: Result<
        (),
        LayoutError,
    >)
        requires
            !(old(self).box_type is AnonymousBlock),
        ensures
            final(self).box_type == old(self).box_type,
            final(self).children == old(self).children,
            match block_position(
                box_props(old(self).box_type@),
                old(self).dimensions,
                containing_block,
            ) {
                Ok(d) => r is Ok && final(self).dimensions == d,
                Err(e) => r matches Err(x) && x@ == e,
            },
    {
        let style = self.get_style_node();

        // Margin, border and padding have initial value 0.
        let zero = Value::Length(0, Unit::Px);

        // If margin-top or margin-bottom is `auto`, the used value is zero.
        let mt = margin_edge(&style.lookup("margin-top", "margin", &zero), "margin-top")?;
        let mb = margin_edge(&style.lookup("margin-bottom", "margin", &zero), "margin-bottom")?;

        let bt = edge(
            &style.lookup("border-top-width", "border-width", &zero),
            "border-top-width",
        )?;
        let bb = edge(
            &style.lookup("border-bottom-width", "border-width", &zero),
            "border-bottom-width",
        )?;

        let pt = edge(&style.lookup("padding-top", "padding", &zero), "padding-top")?;
        let pb = edge(&style.lookup("padding-bottom", "padding", &zero), "padding-bottom")?;

        // Position the box below all the previous boxes in the container.
        let x = narrow(
            containing_block.x as i128 + self.dimensions.margin.left as i128
                + self.dimensions.border.left as i128 + self.dimensions.padding.left as i128,
            "x",
        )?;
        let y = narrow(
            containing_block.y as i128 + containing_block.height as i128 + mt as i128 + bt as i128
                + pt as i128,
            "y",
        )?;
        self.dimensions.margin.top = mt;
        self.dimensions.margin.bottom = mb;
        self.dimensions.border.top = bt;
        self.dimensions.border.bottom = bb;
        self.dimensions.padding.top = pt;
        self.dimensions.padding.bottom = pb;
        self.dimensions.x = x;
        self.dimensions.y = y;
        Ok(())
    }

    /// Sets the height of a block: an explicit length if one is given, and
    /// otherwise the height that the children have added up to.
    pub fn calculate_block_height(&mut self)
        requires
            !(old(self).box_type is AnonymousBlock),
        ensures
            final(self).box_type == old(self).box_type,
            final(self).children == old(self).children,
            final(self).dimensions == block_height(
                box_props(old(self).box_type@),
                old(self).dimensions,
            ),
    {
        match self.get_style_node().value("height") {
            Some(Value::Length(h, Unit::Px)) => {
                self.dimensions.height = h;
            },
            _ => {},
        }
    }
}


/// Once a child fails, the container fails with the same error.
proof fn lemma_children_error(kids: Seq<LayoutBoxView>, d: Dimensions, i: int)
    requires
        0 <= i <= kids.len(),
        layout_children(kids.take(i), d) is Err,
    ensures
        layout_children(kids, d) == layout_children(kids.take(i), d),
    decreases kids.len() - i,
{
    if i < kids.len() {
        assert(kids.take(i + 1).drop_last() =~= kids.take(i));
        lemma_children_error(kids, d, i + 1);
    } else {
        assert(kids.take(i) =~= kids);
    }
}

impl<'a> LayoutBox<'a> {
    /// Lays out a box and its descendants.
    pub fn layout(&mut self, containing_block: Dimensions) -> (r: Result<(), LayoutError>)
        ensures
            match layout_box(old(self)@, containing_block) {
                Ok(b) => r is Ok && final(self)@ == b,
                Err(e) => r matches Err(x) && x@ == e,
            },
        decreases old(self).children, 2int,
    {
        match self.box_type {
            BoxType::BlockNode(_) => self.layout_block(containing_block),
            // Inline boxes and anonymous blocks take no space of their own.
            BoxType::InlineNode(_) => Ok(()),
            BoxType::AnonymousBlock => Ok(()),
        }
    }

    /// Lays out a block-level element and its descendants.
    fn layout_block(&mut self, containing_block: Dimensions) -> (r: Result<(), LayoutError>)
        requires
            old(self).box_type is BlockNode,
        ensures
            match layout_box(old(self)@, containing_block) {
                Ok(b) => r is Ok && final(self)@ == b,
                Err(e) => r matches Err(x) && x@ == e,
            },
        decreases old(self).children, 1int,
    {
        // Child width can depend on parent width, so the width of this box
        // is calculated before its children are laid out.
        self.calculate_block_width(containing_block)?;

        // Determine where the box is located within its container.
        self.calculate_block_position(containing_block)?;

        // Recursively lay out the children of this box.
        self.layout_block_children()?;

        // Parent height can depend on child height, so the height is
        // calculated after the children are laid out.
        self.calculate_block_height();
        Ok(())
    }

    /// Lays out the children of a block within its content area, and adds
    /// their heights up in the height of the block.
    pub fn layout_block_children(&mut self) -> (r: Result<(), LayoutError>)
        ensures
            final(self).box_type == old(self).box_type,
            match layout_children(box_views(old(self).children@), old(self).dimensions) {
                Ok((kids, d)) => r is Ok && box_views(final(self).children@) == kids && final(self).dimensions == d,
                Err(e) => r matches Err(x) && x@ == e,
            },
            r is Ok ==> final(self).children.len() == old(self).children.len() && final(self).dimensions == (Dimensions {
                height: final(self).dimensions.height,
                ..old(self).dimensions
            }) && final(self).dimensions.height == old(self).dimensions.height + stacked_height(
                box_views(final(self).children@),
                final(self).children.len() as int,
            ),
            r is Ok ==> forall|i: int|
                #![trigger final(self).children@[i]]
                0 <= i < old(self).children.len() && old(self).children@[i].box_type
                    is BlockNode ==> margin_box_top(final(self).children@[i].dimensions) == old(self).dimensions.y + old(self).dimensions.height + stacked_height(
                    box_views(final(self).children@),
                    i,
                ),
            r is Ok ==> forall|i: int, j: int|
                #![trigger final(self).children@[i], final(self).children@[j]]
                0 <= i < j < old(self).children.len() && old(self).children@[i].box_type
                    is BlockNode && old(self).children@[j].box_type is BlockNode
                    && takes_no_room(old(self).children@, i, j) ==> margin_box_top(
                    final(self).children@[j].dimensions,
                ) == margin_box_top(final(self).children@[i].dimensions) + margin_box_height(
                    final(self).children@[i].dimensions,
                ),
        decreases old(self).children, 0int,
    {
        let ghost start = box_views(self.children@);
        let ghost d0 = self.dimensions;
        let n = self.children.len();
        let mut i: usize = 0;
        assert(start.take(0) =~= Seq::empty());
        assert(box_views(self.children@).take(0) =~= Seq::empty());
        while i < n
            invariant
                i <= n == self.children.len(),
                n == old(self).children.len(),
                start == box_views(old(self).children@),
                d0 == old(self).dimensions,
                self.box_type == old(self).box_type,
                forall|j: int| i <= j < n ==> self.children@[j] == old(self).children@[j],
                layout_children(start.take(i as int), d0) == Ok::<
                    (Seq<LayoutBoxView>, Dimensions),
                    LayoutErrorView,
                >((box_views(self.children@).take(i as int), self.dimensions)),
            decreases n - i,
        {
            let d = self.dimensions;
            let ghost before = self.children@;
            proof {
                assert(start.take(i + 1).drop_last() =~= start.take(i as int));
                assert(start.take(i + 1).last() == before[i as int]@);
            }
            let ghost step = layout_children(start.take(i + 1), d0);
            let child = &mut self.children[i];
            match child.layout(d) {
                Ok(()) => {},
                Err(e) => {
                    proof {
                        assert(step == Err::<(Seq<LayoutBoxView>, Dimensions), LayoutErrorView>(
                            e@,
                        ));
                        lemma_children_error(start, d0, i + 1);
                    }
                    return Err(e);
                },
            }
            // Increment the height so each child is laid out below the
            // previous one.
            let h = self.children[i].dimensions.margin_box_height();
            match narrow(d.height as i128 + h, "height") {
                Ok(height) => {
                    self.dimensions.height = height;
                },
                Err(e) => {
                    proof {
                        assert(step == Err::<(Seq<LayoutBoxView>, Dimensions), LayoutErrorView>(
                            e@,
                        ));
                        lemma_children_error(start, d0, i + 1);
                    }
                    return Err(e);
                },
            }
            proof {
                let after = self.children@;
                assert(after == before.update(i as int, after[i as int]));
                assert(box_views(after).take(i + 1) =~= box_views(before).take(i as int).push(
                    after[i as int]@,
                ));
            }
            i += 1;
        }
        proof {
            let out = box_views(self.children@);
            assert(start.take(n as int) =~= start);
            assert(out.take(n as int) =~= out);
            lemma_children_keep(start, d0);
            assert forall|i: int|
                #![trigger self.children@[i]]
                0 <= i < n && old(self).children@[i].box_type is BlockNode implies margin_box_top(
                self.children@[i].dimensions,
            ) == d0.y + d0.height + stacked_height(out, i) by {
                assert(start[i] == old(self).children@[i]@);
                assert(out[i] == self.children@[i]@);
                lemma_child_position(start, d0, i);
            }
            assert forall|i: int, j: int|
                #![trigger self.children@[i], self.children@[j]]
                0 <= i < j < n && old(self).children@[i].box_type is BlockNode && old(self).children@[j].box_type is BlockNode && takes_no_room(
                    old(self).children@,
                    i,
                    j,
                ) implies margin_box_top(self.children@[j].dimensions) == margin_box_top(
                self.children@[i].dimensions,
            ) + margin_box_height(self.children@[i].dimensions) by {
                assert(start[i] == old(self).children@[i]@);
                assert(start[j] == old(self).children@[j]@);
                assert(out[i] == self.children@[i]@);
                assert(out[j] == self.children@[j]@);
                assert forall|k: int| i < k < j implies !((#[trigger] start[k]).box_type
                    is BlockNode) && margin_box_height(start[k].dimensions) == 0 by {
                    assert(start[k] == old(self).children@[k]@);
                }
                lemma_stacking_across(start, d0, i, j);
            }
        }
        Ok(())
    }
}

/// Transforms a styled tree into a tree of boxes laid out in the containing
/// block given, which is the viewport for a whole document.
pub fn layout_tree<'a>(node: &'a StyledNode<'a>, containing_block: Dimensions) -> (r: Result<
    LayoutBox<'a>,
    LayoutError,
>)
    ensures
        match layout_of(node@, containing_block) {
            Ok(b) => r matches Ok(x) && x@ == b,
            Err(e) => r matches Err(x) && x@ == e,
        },
{
    match node.display() {
        Display::DisplayNone => Err(
            LayoutError::new(LayoutErrorKind::RootNotDisplayed, "display"),
        ),
        _ => {
            let mut root_box = build_box(node, true);
            root_box.layout(containing_block)?;
            Ok(root_box)
        },
    }
}


/// The width that the margin box of a box takes.
pub open spec fn margin_box_width(d: Dimensions) -> int {
    d.margin.left + d.border.left + d.padding.left + d.width + d.padding.right + d.border.right
        + d.margin.right
}

/// Whether a block's two `auto` margins share what is left of the
/// containing block's width `cw`.
pub open spec fn margins_share(h: Horizontal, cw: int) -> bool {
    &&& !(h.width is Auto)
    &&& h.margin_left is Auto
    &&& h.margin_right is Auto
    &&& h.total() <= cw
}

/// Whether the boxes between the `i`th and the `j`th take no room in their
/// container: none of them is a block, and the margin box of each has no
/// height.
pub open spec fn takes_no_room(boxes: Seq<LayoutBox>, i: int, j: int) -> bool {
    forall|k: int|
        i < k < j ==> !((#[trigger] boxes[k]).box_type is BlockNode) && margin_box_height(
            boxes[k].dimensions,
        ) == 0
}

/// What is left over of the containing block's width `cw` when the width
/// of a block is calculated: nothing, but for one unit where two `auto`
/// margins share an odd number of units equally.
pub open spec fn width_left_over(h: Horizontal, cw: int) -> int {
    if margins_share(h, cw) {
        (cw - h.total()) % 2
    } else {
        0
    }
}

/// Width conservation: after the width of a block is calculated, its
/// margins, borders, paddings and width add up to the width of the
/// containing block, exactly. The one exception: where two `auto` margins
/// share an odd number of units equally, one unit is left over.
pub proof fn lemma_width_conservation(props: PropertyMapView, d: Dimensions, cw: i64)
    requires
        block_width(props, d, cw) is Ok,
    ensures
        ({
            let h = specified_horizontal(props);
            let r = block_width(props, d, cw)->Ok_0;
            margin_box_width(r) == cw - width_left_over(h, cw as int)
        }),
        cw - 1 <= margin_box_width(block_width(props, d, cw)->Ok_0) <= cw,
{
}


/// Where the margin box of a box starts, from the top of the document.
pub open spec fn margin_box_top(d: Dimensions) -> int {
    d.y - d.padding.top - d.border.top - d.margin.top
}

/// The heights of the margin boxes of the first `n` boxes, added up.
pub open spec fn stacked_height(boxes: Seq<LayoutBoxView>, n: int) -> int
    decreases n,
{
    if n <= 0 {
        0
    } else {
        stacked_height(boxes, n - 1) + margin_box_height(boxes[n - 1].dimensions)
    }
}

/// A block that is laid out keeps its type and the number of its children,
/// and its margin box starts where the content of its containing block
/// ends so far.
pub proof fn lemma_block_top(b: LayoutBoxView, containing: Dimensions)
    requires
        layout_box(b, containing) is Ok,
    ensures
        layout_box(b, containing)->Ok_0.box_type == b.box_type,
        b.box_type is BlockNode ==> margin_box_top(layout_box(b, containing)->Ok_0.dimensions)
            == containing.y + containing.height,
{
    if b.box_type is BlockNode {
        let props = b.box_type->BlockNode_0.specified_values;
        let d1 = block_width(props, b.dimensions, containing.width)->Ok_0;
        let d2 = block_position(props, d1, containing)->Ok_0;
        lemma_children_keep(b.children, d2);
    }
}

/// Laying out children changes nothing of the container but its height,
/// which grows by the heights of their margin boxes; and every child
/// keeps its type.
pub proof fn lemma_children_keep(kids: Seq<LayoutBoxView>, d: Dimensions)
    requires
        layout_children(kids, d) is Ok,
    ensures
        ({
            let (out, end) = layout_children(kids, d)->Ok_0;
            &&& out.len() == kids.len()
            &&& end == Dimensions { height: end.height, ..d }
            &&& end.height == d.height + stacked_height(out, out.len() as int)
            &&& forall|i: int| 0 <= i < kids.len() ==> (#[trigger] out[i]).box_type == kids[i].box_type
        }),
    decreases kids.len(),
{
    if kids.len() > 0 {
        let (done, d1) = layout_children(kids.drop_last(), d)->Ok_0;
        lemma_children_keep(kids.drop_last(), d);
        let k = layout_box(kids.last(), d1)->Ok_0;
        assert(k.box_type == kids.last().box_type);
        let out = done.push(k);
        lemma_stacked_height_prefix(done, out, done.len() as int);
    }
}

/// The stacked height of the first `n` boxes depends on those boxes alone.
proof fn lemma_stacked_height_prefix(a: Seq<LayoutBoxView>, b: Seq<LayoutBoxView>, n: int)
    requires
        n <= a.len(),
        n <= b.len(),
        forall|i: int| 0 <= i < n ==> a[i] == b[i],
    ensures
        stacked_height(a, n) == stacked_height(b, n),
    decreases n,
{
    if n > 0 {
        lemma_stacked_height_prefix(a, b, n - 1);
    }
}

/// A prefix of the children is laid out as it is within the whole
/// sequence.
proof fn lemma_children_prefix(kids: Seq<LayoutBoxView>, d: Dimensions, n: int)
    requires
        layout_children(kids, d) is Ok,
        0 <= n <= kids.len(),
    ensures
        layout_children(kids.take(n), d) is Ok,
        layout_children(kids.take(n), d)->Ok_0.0 == layout_children(kids, d)->Ok_0.0.take(n),
    decreases kids.len() - n,
{
    if n == kids.len() {
        assert(kids.take(n) =~= kids);
        lemma_children_keep(kids, d);
        let out = layout_children(kids, d)->Ok_0.0;
        assert(out.take(n) =~= out);
    } else {
        lemma_children_prefix(kids, d, n + 1);
        assert(kids.take(n + 1).drop_last() =~= kids.take(n));
        let next = layout_children(kids.take(n + 1), d)->Ok_0.0;
        let here = layout_children(kids.take(n), d)->Ok_0.0;
        lemma_children_keep(kids.take(n), d);
        lemma_children_keep(kids, d);
        assert(next.take(n) =~= here);
        assert(layout_children(kids, d)->Ok_0.0.take(n + 1).take(n) =~= layout_children(
            kids,
            d,
        )->Ok_0.0.take(n));
    }
}

/// Vertical stacking: among the children of a container, the margin box
/// of each block starts below the content that the container had at the
/// start and the margin boxes of all the children before it.
pub proof fn lemma_child_position(kids: Seq<LayoutBoxView>, d: Dimensions, i: int)
    requires
        layout_children(kids, d) is Ok,
        0 <= i < kids.len(),
        kids[i].box_type is BlockNode,
    ensures
        ({
            let out = layout_children(kids, d)->Ok_0.0;
            margin_box_top(out[i].dimensions) == d.y + d.height + stacked_height(out, i)
        }),
{
    let out = layout_children(kids, d)->Ok_0.0;
    lemma_children_keep(kids, d);
    lemma_children_prefix(kids, d, i + 1);
    lemma_children_prefix(kids, d, i);
    let upto = kids.take(i + 1);
    assert(upto.drop_last() =~= kids.take(i));
    assert(upto.last() == kids[i]);
    let (done, d1) = layout_children(kids.take(i), d)->Ok_0;
    lemma_children_keep(kids.take(i), d);
    lemma_block_top(kids[i], d1);
    let k = layout_box(kids[i], d1)->Ok_0;
    assert(layout_children(upto, d)->Ok_0.0 == done.push(k));
    assert(out.take(i + 1)[i] == k);
    lemma_stacked_height_prefix(done, out, i);
}

/// A child that is no block stays as it is.
pub proof fn lemma_child_not_laid_out(kids: Seq<LayoutBoxView>, d: Dimensions, k: int)
    requires
        layout_children(kids, d) is Ok,
        0 <= k < kids.len(),
        !(kids[k].box_type is BlockNode),
    ensures
        layout_children(kids, d)->Ok_0.0[k] == kids[k],
{
    let out = layout_children(kids, d)->Ok_0.0;
    lemma_children_keep(kids, d);
    lemma_children_prefix(kids, d, k + 1);
    let upto = kids.take(k + 1);
    assert(upto.drop_last() =~= kids.take(k));
    assert(upto.last() == kids[k]);
    lemma_children_prefix(kids, d, k);
    let d1 = layout_children(kids.take(k), d)->Ok_0.1;
    assert(layout_box(kids[k], d1) == Ok::<LayoutBoxView, LayoutErrorView>(kids[k]));
    assert(layout_children(upto, d)->Ok_0.0 == out.take(k).push(kids[k]));
    assert(out.take(k + 1)[k] == out[k]);
}

/// Vertical stacking across boxes that take no room: where between two
/// blocks among the children of a container there stand only boxes that
/// are no blocks and whose margin boxes have no height, the margin box of
/// the second block starts where that of the first ends.
pub proof fn lemma_stacking_across(kids: Seq<LayoutBoxView>, d: Dimensions, i: int, j: int)
    requires
        layout_children(kids, d) is Ok,
        0 <= i < j < kids.len(),
        kids[i].box_type is BlockNode,
        kids[j].box_type is BlockNode,
        forall|k: int|
            i < k < j ==> !((#[trigger] kids[k]).box_type is BlockNode) && margin_box_height(
                kids[k].dimensions,
            ) == 0,
    ensures
        ({
            let out = layout_children(kids, d)->Ok_0.0;
            margin_box_top(out[j].dimensions) == margin_box_top(out[i].dimensions)
                + margin_box_height(out[i].dimensions)
        }),
{
    let out = layout_children(kids, d)->Ok_0.0;
    lemma_child_position(kids, d, i);
    lemma_child_position(kids, d, j);
    lemma_no_height_between(kids, d, i, j);
}

proof fn lemma_no_height_between(kids: Seq<LayoutBoxView>, d: Dimensions, i: int, j: int)
    requires
        layout_children(kids, d) is Ok,
        0 <= i < j <= kids.len(),
        forall|k: int|
            i < k < j ==> !((#[trigger] kids[k]).box_type is BlockNode) && margin_box_height(
                kids[k].dimensions,
            ) == 0,
    ensures
        ({
            let out = layout_children(kids, d)->Ok_0.0;
            stacked_height(out, j) == stacked_height(out, i + 1)
        }),
    decreases j - i,
{
    if j > i + 1 {
        lemma_no_height_between(kids, d, i, j - 1);
        assert(!(kids[j - 1].box_type is BlockNode));
        lemma_child_not_laid_out(kids, d, j - 1);
    }
}

/// Vertical stacking of siblings: where two blocks follow one another
/// among the children of a container, the margin box of the second starts
/// where that of the first ends.
pub proof fn lemma_vertical_stacking(kids: Seq<LayoutBoxView>, d: Dimensions, i: int)
    requires
        layout_children(kids, d) is Ok,
        0 <= i,
        i + 1 < kids.len(),
        kids[i].box_type is BlockNode,
        kids[i + 1].box_type is BlockNode,
    ensures
        ({
            let out = layout_children(kids, d)->Ok_0.0;
            let a = out[i].dimensions;
            let b = out[i + 1].dimensions;
            &&& margin_box_top(b) == margin_box_top(a) + margin_box_height(a)
            &&& b.y == a.y + margin_box_height(a) + (b.margin.top + b.border.top + b.padding.top)
                - (a.margin.top + a.border.top + a.padding.top)
        }),
{
    lemma_child_position(kids, d, i);
    lemma_child_position(kids, d, i + 1);
}


/// The styled nodes that the boxes of a tree stand for, in the order in
/// which a walk from the root meets them.
pub open spec fn box_nodes(b: LayoutBoxView) -> Seq<StyledNodeView>
    decreases b, 1int,
{
    match b.box_type {
        BoxTypeView::BlockNode(s) => seq![s] + boxes_nodes(b.children),
        BoxTypeView::InlineNode(s) => seq![s] + boxes_nodes(b.children),
        BoxTypeView::AnonymousBlock => boxes_nodes(b.children),
    }
}

/// The styled nodes that the boxes of several trees stand for.
pub open spec fn boxes_nodes(boxes: Seq<LayoutBoxView>) -> Seq<StyledNodeView>
    decreases boxes, 0int,
{
    if boxes.len() == 0 {
        Seq::empty()
    } else {
        boxes_nodes(boxes.drop_last()) + box_nodes(boxes.last())
    }
}

/// A styled node and those of its descendants that are displayed, in
/// document order: a node that is not displayed is left out, with all that
/// is below it.
pub open spec fn displayed_nodes(s: StyledNodeView) -> Seq<StyledNodeView>
    decreases s, 1int,
{
    seq![s] + displayed_among(s.children)
}

/// The displayed nodes of several styled trees.
pub open spec fn displayed_among(kids: Seq<StyledNodeView>) -> Seq<StyledNodeView>
    decreases kids, 0int,
{
    if kids.len() == 0 {
        Seq::empty()
    } else if display_of(kids.last().specified_values) == Display::DisplayNone {
        displayed_among(kids.drop_last())
    } else {
        displayed_among(kids.drop_last()) + displayed_nodes(kids.last())
    }
}

/// Omission of what is not displayed: the box tree of a styled node holds
/// a box for that node and for each displayed descendant, in document
/// order, and for no other node.
pub proof fn lemma_boxes_are_displayed_nodes(s: StyledNodeView, in_block: bool)
    ensures
        box_nodes(build_as(s, in_block)) == displayed_nodes(s),
    decreases s, 1int,
{
    lemma_children_are_displayed_nodes(s.children, in_block);
}

proof fn lemma_children_are_displayed_nodes(kids: Seq<StyledNodeView>, in_block: bool)
    ensures
        boxes_nodes(build_children(kids, in_block)) == displayed_among(kids),
    decreases kids, 0int,
{
    if kids.len() > 0 {
        let before = build_children(kids.drop_last(), in_block);
        let kid = kids.last();
        let after = build_children(kids, in_block);
        lemma_children_are_displayed_nodes(kids.drop_last(), in_block);
        assert(build(kid) == build_as(kid, display_of(kid.specified_values) == Display::Block));
        let b = build(kid);
        match display_of(kid.specified_values) {
            Display::Block => {
                lemma_boxes_are_displayed_nodes(kid, true);
                assert(after == before.push(b));
                assert(after.drop_last() =~= before);
            },
            Display::Inline => {
                lemma_boxes_are_displayed_nodes(kid, false);
                if !in_block {
                    assert(after == before.push(b));
                    assert(after.drop_last() =~= before);
                    } else if before.len() > 0 && before.last().box_type is AnonymousBlock {
                    let grown = with_child(before.last(), b);
                    assert(after == before.update(before.len() - 1, grown));
                    assert(after.drop_last() =~= before.drop_last());
                    assert(after.last() == grown);
                    assert(grown.children.drop_last() =~= before.last().children);
                    assert(grown.children.last() == b);
                    assert(box_nodes(grown) == boxes_nodes(before.last().children) + box_nodes(b));
                    assert(box_nodes(before.last()) == boxes_nodes(before.last().children));
                    assert(boxes_nodes(before) == boxes_nodes(before.drop_last()) + box_nodes(
                        before.last(),
                    ));
                    assert(boxes_nodes(before.drop_last()) + (boxes_nodes(before.last().children)
                        + box_nodes(b)) =~= (boxes_nodes(before.drop_last()) + boxes_nodes(
                        before.last().children,
                    )) + box_nodes(b));
                    } else {
                    let fresh = with_child(new_box(BoxTypeView::AnonymousBlock), b);
                    assert(after == before.push(fresh));
                    assert(after.drop_last() =~= before);
                    assert(fresh.children.drop_last() =~= Seq::<LayoutBoxView>::empty());
                    assert(fresh.children.last() == b);
                    assert(boxes_nodes(fresh.children) == boxes_nodes(
                        Seq::<LayoutBoxView>::empty(),
                    ) + box_nodes(b));
                    assert(Seq::<StyledNodeView>::empty() + box_nodes(b) =~= box_nodes(b));
                    assert(box_nodes(fresh) == box_nodes(b));
                    }
            },
            Display::DisplayNone => {},
        }
    }
}

/// Every node among the displayed nodes of a tree, but for the root, is
/// displayed.
pub proof fn lemma_displayed_nodes_are_displayed(s: StyledNodeView, i: int)
    requires
        0 < i < displayed_nodes(s).len(),
    ensures
        display_of(displayed_nodes(s)[i].specified_values) != Display::DisplayNone,
    decreases s, 1int,
{
    lemma_displayed_among_are_displayed(s.children, i - 1);
}

proof fn lemma_displayed_among_are_displayed(kids: Seq<StyledNodeView>, i: int)
    requires
        0 <= i < displayed_among(kids).len(),
    ensures
        display_of(displayed_among(kids)[i].specified_values) != Display::DisplayNone,
    decreases kids, 0int,
{
    if kids.len() > 0 {
        let rest = displayed_among(kids.drop_last());
        if i < rest.len() {
            lemma_displayed_among_are_displayed(kids.drop_last(), i);
        } else if i > rest.len() {
            lemma_displayed_nodes_are_displayed(kids.last(), i - rest.len());
        }
    }
}

/// Whether inline boxes are grouped as they should be, in `b` and below
/// it: the children of a block box are block boxes and anonymous blocks,
/// never two anonymous blocks in a row; and an anonymous block has
/// children, all of them inline boxes.
pub open spec fn inlines_grouped(b: LayoutBoxView) -> bool
    decreases b,
{
    &&& b.box_type is BlockNode ==> block_children(b.children)
    &&& b.box_type is AnonymousBlock ==> b.children.len() > 0 && forall|i: int|
        0 <= i < b.children.len() ==> (#[trigger] b.children[i]).box_type is InlineNode
    &&& forall|i: int| 0 <= i < b.children.len() ==> inlines_grouped(#[trigger] b.children[i])
}

/// What holds of the children of a block box: none is an inline box, and
/// no two anonymous blocks follow one another.
pub open spec fn block_children(boxes: Seq<LayoutBoxView>) -> bool {
    &&& forall|i: int| 0 <= i < boxes.len() ==> !((#[trigger] boxes[i]).box_type is InlineNode)
    &&& forall|i: int|
        0 <= i && i + 1 < boxes.len() ==> !((#[trigger] boxes[i]).box_type is AnonymousBlock
            && boxes[i + 1].box_type is AnonymousBlock)
}

/// Grouping of inline boxes: in the box tree of any styled node, inline
/// children of a block box stand inside anonymous blocks, one for each
/// run of them.
pub proof fn lemma_inlines_grouped(s: StyledNodeView, in_block: bool)
    ensures
        inlines_grouped(build_as(s, in_block)),
    decreases s, 1int,
{
    lemma_children_grouped(s.children, in_block);
    let b = build_as(s, in_block);
    assert(b.children == build_children(s.children, in_block));
    assert forall|i: int| 0 <= i < b.children.len() implies inlines_grouped(
        #[trigger] b.children[i],
    ) by {
        assert(inlines_grouped(build_children(s.children, in_block)[i]));
    }
}

proof fn lemma_children_grouped(kids: Seq<StyledNodeView>, in_block: bool)
    ensures
        in_block ==> block_children(build_children(kids, in_block)),
        forall|i: int|
            0 <= i < build_children(kids, in_block).len() ==> inlines_grouped(
                #[trigger] build_children(kids, in_block)[i],
            ),
    decreases kids, 0int,
{
    if kids.len() > 0 {
        let before = build_children(kids.drop_last(), in_block);
        let kid = kids.last();
        let after = build_children(kids, in_block);
        lemma_children_grouped(kids.drop_last(), in_block);
        assert(build(kid) == build_as(kid, display_of(kid.specified_values) == Display::Block));
        match display_of(kid.specified_values) {
            Display::Block => {
                lemma_inlines_grouped(kid, true);
            },
            Display::Inline => {
                lemma_inlines_grouped(kid, false);
                let b = build(kid);
                if in_block {
                    if before.len() > 0 && before.last().box_type is AnonymousBlock {
                        let grown = with_child(before.last(), b);
                        assert(inlines_grouped(before.last()));
                        assert forall|i: int| 0 <= i < grown.children.len() implies (
                        #[trigger] grown.children[i]).box_type is InlineNode && inlines_grouped(
                            grown.children[i],
                        ) by {
                            if i < before.last().children.len() {
                                assert(grown.children[i] == before.last().children[i]);
                            }
                        }
                        assert(inlines_grouped(grown));
                        assert forall|i: int| 0 <= i < after.len() implies inlines_grouped(
                            #[trigger] after[i],
                        ) by {
                            if i < before.len() - 1 {
                                assert(after[i] == before[i]);
                            }
                        }
                        assert forall|i: int| 0 <= i && i + 1 < after.len() implies !((
                        #[trigger] after[i]).box_type is AnonymousBlock && after[i
                            + 1].box_type is AnonymousBlock) by {
                            assert(after[i].box_type == before[i].box_type);
                            assert(after[i + 1].box_type == before[i + 1].box_type);
                        }
                        assert forall|i: int| 0 <= i < after.len() implies !((
                        #[trigger] after[i]).box_type is InlineNode) by {
                            assert(after[i].box_type == before[i].box_type);
                        }
                    } else {
                        let fresh = with_child(new_box(BoxTypeView::AnonymousBlock), b);
                        assert(fresh.children[0] == b);
                        assert(inlines_grouped(fresh));
                        assert forall|i: int| 0 <= i && i + 1 < after.len() implies !((
                        #[trigger] after[i]).box_type is AnonymousBlock && after[i
                            + 1].box_type is AnonymousBlock) by {
                            if i + 1 < before.len() {
                                assert(after[i] == before[i]);
                                assert(after[i + 1] == before[i + 1]);
                            } else {
                                assert(after[i] == before.last());
                            }
                        }
                    }
                }
            },
            Display::DisplayNone => {},
        }
    }
}

/// A box tree without its geometry: every box with the dimensions of a
/// box that is not laid out.
pub open spec fn skeleton(b: LayoutBoxView) -> LayoutBoxView
    decreases b,
{
    LayoutBoxView {
        dimensions: zero_dimensions(),
        box_type: b.box_type,
        children: Seq::new(
            b.children.len(),
            |i: int|
                if 0 <= i < b.children.len() {
                    skeleton(b.children[i])
                } else {
                    arbitrary()
                },
        ),
    }
}

/// Layout changes nothing but dimensions: the boxes, their types and
/// their order stay.
pub proof fn lemma_layout_keeps_tree(b: LayoutBoxView, containing: Dimensions)
    requires
        layout_box(b, containing) is Ok,
    ensures
        skeleton(layout_box(b, containing)->Ok_0) == skeleton(b),
    decreases b, 1int,
{
    match b.box_type {
        BoxTypeView::BlockNode(s) => {
            let d1 = block_width(s.specified_values, b.dimensions, containing.width)->Ok_0;
            let d2 = block_position(s.specified_values, d1, containing)->Ok_0;
            lemma_children_keep_tree(b.children, d2);
            let r = layout_box(b, containing)->Ok_0;
            assert(skeleton(r).children =~= skeleton(b).children);
        },
        _ => {},
    }
}

proof fn lemma_children_keep_tree(kids: Seq<LayoutBoxView>, d: Dimensions)
    requires
        layout_children(kids, d) is Ok,
    ensures
        layout_children(kids, d)->Ok_0.0.len() == kids.len(),
        forall|i: int|
            0 <= i < kids.len() ==> skeleton(#[trigger] layout_children(kids, d)->Ok_0.0[i])
                == skeleton(kids[i]),
    decreases kids, 0int,
{
    if kids.len() > 0 {
        let (done, d1) = layout_children(kids.drop_last(), d)->Ok_0;
        lemma_children_keep_tree(kids.drop_last(), d);
        lemma_layout_keeps_tree(kids.last(), d1);
        let out = layout_children(kids, d)->Ok_0.0;
        assert forall|i: int| 0 <= i < kids.len() implies skeleton(#[trigger] out[i]) == skeleton(
            kids[i],
        ) by {
            if i < kids.len() - 1 {
                assert(out[i] == done[i]);
                assert(kids[i] == kids.drop_last()[i]);
            }
        }
    }
}

/// A box tree that is just built has no geometry.
pub proof fn lemma_built_is_skeleton(s: StyledNodeView, in_block: bool)
    ensures
        skeleton(build_as(s, in_block)) == build_as(s, in_block),
    decreases s, 1int,
{
    lemma_built_children_are_skeletons(s.children, in_block);
    assert(skeleton(build_as(s, in_block)).children =~= build_as(s, in_block).children);
}

proof fn lemma_built_children_are_skeletons(kids: Seq<StyledNodeView>, in_block: bool)
    ensures
        forall|i: int|
            0 <= i < build_children(kids, in_block).len() ==> skeleton(
                #[trigger] build_children(kids, in_block)[i],
            ) == build_children(kids, in_block)[i],
    decreases kids, 0int,
{
    if kids.len() > 0 {
        let before = build_children(kids.drop_last(), in_block);
        let kid = kids.last();
        let after = build_children(kids, in_block);
        lemma_built_children_are_skeletons(kids.drop_last(), in_block);
        assert(build(kid) == build_as(kid, display_of(kid.specified_values) == Display::Block));
        match display_of(kid.specified_values) {
            Display::Block => {
                lemma_built_is_skeleton(kid, true);
            },
            Display::Inline => {
                lemma_built_is_skeleton(kid, false);
                let b = build(kid);
                if in_block {
                    if before.len() > 0 && before.last().box_type is AnonymousBlock {
                        let grown = with_child(before.last(), b);
                        assert(skeleton(before.last()) == before.last());
                        assert forall|i: int| 0 <= i < grown.children.len() implies skeleton(
                            #[trigger] grown.children[i],
                        ) == grown.children[i] by {
                            if i < before.last().children.len() {
                                assert(grown.children[i] == before.last().children[i]);
                                assert(skeleton(before.last()).children[i] == skeleton(
                                    before.last().children[i],
                                ));
                            }
                        }
                        assert(skeleton(grown).children =~= grown.children);
                        assert forall|i: int| 0 <= i < after.len() implies skeleton(
                            #[trigger] after[i],
                        ) == after[i] by {
                            if i < before.len() - 1 {
                                assert(after[i] == before[i]);
                            }
                        }
                    } else {
                        let fresh = with_child(new_box(BoxTypeView::AnonymousBlock), b);
                        assert(fresh.children[0] == b);
                        assert(skeleton(fresh).children =~= fresh.children);
                    }
                }
            },
            Display::DisplayNone => {},
        }
    }
}

/// The tree that `layout_tree` gives is the box tree of the root, built as
/// a block, with geometry added: it has the same boxes, so what holds of
/// the boxes of every such tree holds of it.
pub proof fn lemma_layout_tree_boxes(root: StyledNodeView, containing: Dimensions)
    requires
        layout_of(root, containing) is Ok,
    ensures
        skeleton(layout_of(root, containing)->Ok_0) == build_as(root, true),
        inlines_grouped(build_as(root, true)),
        box_nodes(build_as(root, true)) == displayed_nodes(root),
{
    lemma_layout_keeps_tree(build_as(root, true), containing);
    lemma_built_is_skeleton(root, true);
    lemma_inlines_grouped(root, true);
    lemma_boxes_are_displayed_nodes(root, true);
}

} // verus!
