//! Painting: the list of rectangles to fill for a laid-out tree, and a
//! canvas of pixels to fill them on.

use crate::css::{Value, ValueView, UNITS_PER_PX};
use crate::layout::{border_box, box_views, BoxType, BoxTypeView, LayoutBox, LayoutBoxView, Rect};
use crate::style::value_of;
use vstd::prelude::*;

verus! {

/// A colour: red, green, blue and alpha.
#[derive(Clone, Copy, Debug, PartialEq, Eq)]
pub struct Color {
    pub r: u8,
    pub g: u8,
    pub b: u8,
    pub a: u8,
}

/// One step of painting.
#[derive(Clone, Copy, Debug, PartialEq, Eq)]
pub enum DisplayCommand {
    /// Fill the rectangle with the colour.
    SolidColor(Color, Rect),
}

/// The steps of painting, in the order in which they are carried out:
/// later steps paint over earlier ones.
pub type DisplayList = Vec<DisplayCommand>;

/// The colour that property `name` gives to a box, if it gives one: an
/// anonymous block has no properties, and a value that is no colour gives
/// none.
pub open spec fn color_of(t: BoxTypeView, name: Seq<char>) -> Option<Color> {
    match t {
        BoxTypeView::AnonymousBlock => None,
        BoxTypeView::BlockNode(s) | BoxTypeView::InlineNode(s) => match value_of(
            s.specified_values,
            name,
        ) {
            Some(ValueView::Color(r, g, b, a)) => Some(Color { r, g, b, a }),
            _ => None,
        },
    }
}

/// The background of a box: its border box filled with the `background`
/// colour, where it has one.
pub open spec fn background_commands(b: LayoutBoxView) -> Seq<DisplayCommand> {
    match color_of(b.box_type, "background"@) {
        Some(color) => seq![DisplayCommand::SolidColor(color, border_box(b.dimensions))],
        None => Seq::empty(),
    }
}

/// The borders of a box: where it has a `border-color`, four rectangles
/// along the edges of its border box, left, right, top and bottom, each as
/// wide as the border on that side.
pub open spec fn border_commands(b: LayoutBoxView) -> Seq<DisplayCommand> {
    match color_of(b.box_type, "border-color"@) {
        Some(color) => {
            let d = b.dimensions;
            let bb = border_box(d);
            seq![
                DisplayCommand::SolidColor(
                    color,
                    Rect { x: bb.x, y: bb.y, width: d.border.left as i128, height: bb.height },
                ),
                DisplayCommand::SolidColor(
                    color,
                    Rect {
                        x: (bb.x + bb.width - d.border.right) as i128,
                        y: bb.y,
                        width: d.border.right as i128,
                        height: bb.height,
                    },
                ),
                DisplayCommand::SolidColor(
                    color,
                    Rect { x: bb.x, y: bb.y, width: bb.width, height: d.border.top as i128 },
                ),
                DisplayCommand::SolidColor(
                    color,
                    Rect {
                        x: bb.x,
                        y: (bb.y + bb.height - d.border.bottom) as i128,
                        width: bb.width,
                        height: d.border.bottom as i128,
                    },
                ),
            ]
        },
        None => Seq::empty(),
    }
}

/// The display list of a box tree: for each box, in the order in which a
/// walk from the root meets them, its background and then its borders.
pub open spec fn display_list(b: LayoutBoxView) -> Seq<DisplayCommand>
    decreases b, 1int,
{
    background_commands(b) + border_commands(b) + display_lists(b.children)
}

/// The display lists of several box trees, one after the other.
pub open spec fn display_lists(boxes: Seq<LayoutBoxView>) -> Seq<DisplayCommand>
    decreases boxes, 0int,
{
    if boxes.len() == 0 {
        Seq::empty()
    } else {
        display_lists(boxes.drop_last()) + display_list(boxes.last())
    }
}

/// The display list of a laid-out tree.
pub fn build_display_list<'a>(layout_root: &LayoutBox<'a>) -> (list: DisplayList)
    ensures
        list@ == display_list(layout_root@),
{
    let mut list = Vec::new();
    render_layout_box(&mut list, layout_root);
    list
}

fn render_layout_box<'a>(list: &mut DisplayList, layout_box: &LayoutBox<'a>)
    ensures
        final(list)@ == old(list)@ + display_list(layout_box@),
    decreases layout_box,
{
    render_background(list, layout_box);
    render_borders(list, layout_box);
    let ghost own = list@;
    let ghost kids = box_views(layout_box.children@);
    let n = layout_box.children.len();
    let mut i: usize = 0;
    assert(kids.take(0) =~= Seq::empty());
    while i < n
        invariant
            i <= n == layout_box.children.len(),
            kids == box_views(layout_box.children@),
            list@ == own + display_lists(kids.take(i as int)),
        decreases n - i,
    {
        proof {
            assert(kids.take(i + 1).drop_last() =~= kids.take(i as int));
            assert(kids.take(i + 1).last() == layout_box.children@[i as int]@);
        }
        render_layout_box(list, &layout_box.children[i]);
        i += 1;
    }
    assert(kids.take(n as int) =~= kids);
}

fn render_background<'a>(list: &mut DisplayList, layout_box: &LayoutBox<'a>)
    ensures
        final(list)@ == old(list)@ + background_commands(layout_box@),
{
    match get_color(layout_box, "background") {
        Some(color) => {
            list.push(DisplayCommand::SolidColor(color, layout_box.dimensions.border_box()));
        },
        None => {},
    }
    assert(list@ =~= old(list)@ + background_commands(layout_box@));
}

fn render_borders<'a>(list: &mut DisplayList, layout_box: &LayoutBox<'a>)
    ensures
        final(list)@ == old(list)@ + border_commands(layout_box@),
{
    let color = match get_color(layout_box, "border-color") {
        Some(color) => color,
        _ => {
            assert(list@ =~= old(list)@ + border_commands(layout_box@));
            return ;
        },
    };

    let d = &layout_box.dimensions;
    let border_box = d.border_box();

    // Left border
    list.push(
        DisplayCommand::SolidColor(
            color,
            Rect {
                x: border_box.x,
                y: border_box.y,
                width: d.border.left as i128,
                height: border_box.height,
            },
        ),
    );

    // Right border
    list.push(
        DisplayCommand::SolidColor(
            color,
            Rect {
                x: border_box.x + border_box.width - d.border.right as i128,
                y: border_box.y,
                width: d.border.right as i128,
                height: border_box.height,
            },
        ),
    );

    // Top border
    list.push(
        DisplayCommand::SolidColor(
            color,
            Rect {
                x: border_box.x,
                y: border_box.y,
                width: border_box.width,
                height: d.border.top as i128,
            },
        ),
    );

    // Bottom border
    list.push(
        DisplayCommand::SolidColor(
            color,
            Rect {
                x: border_box.x,
                y: border_box.y + border_box.height - d.border.bottom as i128,
                width: border_box.width,
                height: d.border.bottom as i128,
            },
        ),
    );
    assert(list@ =~= old(list)@ + border_commands(layout_box@));
}

/// The colour that property `name` gives to a box, if it gives one.
fn get_color<'a>(layout_box: &LayoutBox<'a>, name: &str) -> (r: Option<Color>)
    ensures
        r == color_of(layout_box.box_type@, name@),
{
    match layout_box.box_type {
        BoxType::BlockNode(style) | BoxType::InlineNode(style) => match style.value(name) {
            Some(Value::Color(r, g, b, a)) => Some(Color { r, g, b, a }),
            _ => None,
        },
        BoxType::AnonymousBlock => None,
    }
}


/// An array of pixels, row after row.
#[derive(Debug)]
pub struct Canvas {
    pub pixels: Vec<Color>,
    pub width: usize,
    pub height: usize,
}

/// Opaque white.
pub open spec fn white() -> Color {
    Color { r: 255, g: 255, b: 255, a: 255 }
}

/// Where in the array the pixel in column `x` of row `y` stands, when a
/// row has `width` pixels.
pub open spec fn cell(width: int, x: int, y: int) -> int {
    y * width + x
}

/// The pixel at which a coordinate falls on a canvas that is `limit`
/// pixels wide or high: the coordinate is brought into the canvas, and the
/// part of a pixel is dropped.
pub open spec fn pixel_edge(v: int, limit: int) -> int {
    if v < 0 {
        0
    } else if v > limit * UNITS_PER_PX {
        limit
    } else {
        v / (UNITS_PER_PX as int)
    }
}

/// Whether filling `rect` on a canvas of the given size paints the pixel
/// in column `x` of row `y`: columns and rows run from the pixel at which
/// the rectangle starts up to, and not including, the one at which it
/// ends.
pub open spec fn covers(rect: Rect, width: int, height: int, x: int, y: int) -> bool {
    &&& pixel_edge(rect.x as int, width) <= x < pixel_edge(rect.x + rect.width, width)
    &&& pixel_edge(rect.y as int, height) <= y < pixel_edge(rect.y + rect.height, height)
}

/// The colour of a pixel after the commands of `list` are carried out in
/// order on a canvas that was filled with `fill`: that of the last
/// command that covers the pixel.
pub open spec fn painted(
    list: Seq<DisplayCommand>,
    width: int,
    height: int,
    x: int,
    y: int,
    fill: Color,
) -> Color
    decreases list.len(),
{
    if list.len() == 0 {
        fill
    } else {
        let DisplayCommand::SolidColor(color, rect) = list.last();
        if covers(rect, width, height, x, y) {
            color
        } else {
            painted(list.drop_last(), width, height, x, y, fill)
        }
    }
}

/// The number of whole pixels in an extent; none in a negative one.
pub open spec fn pixel_count(extent: i128) -> int {
    if extent <= 0 {
        0
    } else {
        extent / (UNITS_PER_PX as i128)
    }
}

proof fn lemma_cell_bound(width: int, height: int, x: int, y: int)
    requires
        0 <= x < width,
        0 <= y < height,
    ensures
        0 <= cell(width, x, y) < width * height,
{
    assert(y * width + x < width * height) by (nonlinear_arith)
        requires
            0 <= x < width,
            0 <= y < height,
    ;
    assert(0 <= y * width + x) by (nonlinear_arith)
        requires
            0 <= x < width,
            0 <= y < height,
    ;
}

proof fn lemma_cell_distinct(width: int, x: int, y: int, x2: int, y2: int)
    requires
        0 <= x < width,
        0 <= x2 < width,
        cell(width, x, y) == cell(width, x2, y2),
    ensures
        x == x2,
        y == y2,
{
    assert(y == y2) by (nonlinear_arith)
        requires
            0 <= x < width,
            0 <= x2 < width,
            y * width + x == y2 * width + x2,
    ;
}

/// The pixel at which `start + extent` falls.
fn edge(start: i128, extent: i128, limit: usize) -> (r: usize)
    ensures
        r == pixel_edge(start + extent, limit as int),
        r <= limit,
{
    let lim: i128 = limit as i128 * (UNITS_PER_PX as i128);
    let v: i128 = if start >= 0 && extent >= 0 {
        if start > lim || extent > lim {
            lim + 1
        } else {
            start + extent
        }
    } else if start <= 0 && extent <= 0 {
        if start < 0 || extent < 0 {
            -1
        } else {
            0
        }
    } else {
        start + extent
    };
    if v < 0 {
        0
    } else if v > lim {
        limit
    } else {
        (v / (UNITS_PER_PX as i128)) as usize
    }
}

impl Canvas {
    /// There is one pixel for each column of each row.
    pub open spec fn wf(&self) -> bool {
        self.pixels.len() == self.width * self.height
    }

    /// The pixel in column `x` of row `y`.
    pub open spec fn pixel(&self, x: int, y: int) -> Color {
        self.pixels@[cell(self.width as int, x, y)]
    }

    /// A canvas of the given size, filled with `color`, or with white if
    /// there is none.
    pub fn new(width: usize, height: usize, color: Option<Color>) -> (c: Canvas)
        requires
            width * height <= usize::MAX,
        ensures
            c.wf(),
            c.width == width,
            c.height == height,
            forall|i: int|
                0 <= i < c.pixels.len() ==> c.pixels@[i] == match color {
                    Some(value) => value,
                    None => white(),
                },
    {
        let fill_color: Color = match color {
            Some(value) => value,
            None => Color { r: 255, g: 255, b: 255, a: 255 },
        };
        let size: usize = width * height;
        Canvas { pixels: vec![fill_color; size], width: width, height: height }
    }

    /// Carries out one command: the pixels that the command covers take
    /// its colour, and all others stay as they are.
    pub fn paint_item(&mut self, item: &DisplayCommand)
        requires
            old(self).wf(),
        ensures
            final(self).wf(),
            final(self).width == old(self).width,
            final(self).height == old(self).height,
            forall|x: int, y: int|
                0 <= x < old(self).width && 0 <= y < old(self).height ==> #[trigger] final(self).pixel(x, y) == match *item {
                    DisplayCommand::SolidColor(color, rect) => if covers(
                        rect,
                        old(self).width as int,
                        old(self).height as int,
                        x,
                        y,
                    ) {
                        color
                    } else {
                        old(self).pixel(x, y)
                    },
                },
    {
        match *item {
            DisplayCommand::SolidColor(color, rect) => {
                // Clip the rectangle to the canvas boundaries.
                let x0 = edge(rect.x, 0, self.width);
                let y0 = edge(rect.y, 0, self.height);
                let x1 = edge(rect.x, rect.width, self.width);
                let y1 = edge(rect.y, rect.height, self.height);
                let w = self.width;
                let h = self.height;

                let mut y: usize = y0;
                while y < y1
                    invariant
                        self.wf(),
                        self.width == w == old(self).width,
                        self.height == h == old(self).height,
                        old(self).wf(),
                        x0 <= w,
                        x1 <= w,
                        y0 <= h,
                        y1 <= h,
                        y0 <= y,
                        y <= y1 || y == y0,
                        forall|a: int, b: int|
                            0 <= a < w && 0 <= b < h ==> #[trigger] self.pixel(a, b) == if x0 <= a
                                < x1 && y0 <= b < y {
                                color
                            } else {
                                old(self).pixel(a, b)
                            },
                    decreases y1 - y,
                {
                    let mut x: usize = x0;
                    while x < x1
                        invariant
                            self.wf(),
                            self.width == w == old(self).width,
                            self.height == h == old(self).height,
                            old(self).wf(),
                            x0 <= w,
                            x1 <= w,
                            y0 <= y < y1 <= h,
                            x0 <= x,
                            x <= x1 || x == x0,
                            forall|a: int, b: int|
                                0 <= a < w && 0 <= b < h ==> #[trigger] self.pixel(a, b) == if (x0
                                    <= a < x1 && y0 <= b < y) || (b == y && x0 <= a < x) {
                                    color
                                } else {
                                    old(self).pixel(a, b)
                                },
                        decreases x1 - x,
                    {
                        proof {
                            lemma_cell_bound(w as int, h as int, x as int, y as int);
                        }
                        let ghost prev = *self;
                        let index = y * w + x;
                        self.pixels[index] = color;
                        proof {
                            assert forall|a: int, b: int| 0 <= a < w && 0 <= b < h implies
                                #[trigger] self.pixel(a, b) == if (x0 <= a < x1 && y0 <= b < y) || (
                            b == y && x0 <= a < x + 1) {
                                color
                            } else {
                                old(self).pixel(a, b)
                            } by {
                                lemma_cell_bound(w as int, h as int, a, b);
                                if cell(w as int, a, b) == cell(w as int, x as int, y as int) {
                                    lemma_cell_distinct(w as int, a, b, x as int, y as int);
                                } else {
                                    assert(self.pixel(a, b) == prev.pixel(a, b));
                                }
                            }
                        }
                        x += 1;
                    }
                    y += 1;
                }
            },
        }
    }
}


/// The number of whole pixels in an extent.
fn count_pixels(extent: i128) -> (n: usize)
    requires
        pixel_count(extent) <= usize::MAX,
    ensures
        n == pixel_count(extent),
{
    if extent <= 0 {
        0
    } else {
        (extent / (UNITS_PER_PX as i128)) as usize
    }
}

/// Paints a laid-out tree on a new white canvas as large as `bounds`:
/// each pixel has the colour of the last command of the display list that
/// covers it, and is white where none does.
pub fn paint<'a>(layout_root: &LayoutBox<'a>, bounds: &Rect) -> (canvas: Canvas)
    requires
        pixel_count(bounds.width) <= usize::MAX,
        pixel_count(bounds.height) <= usize::MAX,
        pixel_count(bounds.width) * pixel_count(bounds.height) <= usize::MAX,
    ensures
        canvas.wf(),
        canvas.width == pixel_count(bounds.width),
        canvas.height == pixel_count(bounds.height),
        forall|x: int, y: int|
            0 <= x < canvas.width && 0 <= y < canvas.height ==> #[trigger] canvas.pixel(x, y)
                == painted(
                display_list(layout_root@),
                canvas.width as int,
                canvas.height as int,
                x,
                y,
                white(),
            ),
{
    let display_list = build_display_list(layout_root);
    let w = count_pixels(bounds.width);
    let h = count_pixels(bounds.height);
    let mut canvas = Canvas::new(w, h, None);
    let n = display_list.len();
    let mut i: usize = 0;
    assert forall|x: int, y: int| 0 <= x < w && 0 <= y < h implies #[trigger] canvas.pixel(x, y)
        == painted(display_list@.take(0), w as int, h as int, x, y, white()) by {
        lemma_cell_bound(w as int, h as int, x, y);
    }
    while i < n
        invariant
            i <= n == display_list.len(),
            canvas.wf(),
            canvas.width == w,
            canvas.height == h,
            forall|x: int, y: int|
                0 <= x < w && 0 <= y < h ==> #[trigger] canvas.pixel(x, y) == painted(
                    display_list@.take(i as int),
                    w as int,
                    h as int,
                    x,
                    y,
                    white(),
                ),
        decreases n - i,
    {
        let ghost prev = canvas;
        canvas.paint_item(&display_list[i]);
        proof {
            let upto = display_list@.take(i + 1);
            assert(upto.drop_last() =~= display_list@.take(i as int));
            assert(upto.last() == display_list@[i as int]);
            assert forall|x: int, y: int| 0 <= x < w && 0 <= y < h implies #[trigger] canvas.pixel(
                x,
                y,
            ) == painted(upto, w as int, h as int, x, y, white()) by {
                assert(prev.pixel(x, y) == painted(
                    display_list@.take(i as int),
                    w as int,
                    h as int,
                    x,
                    y,
                    white(),
                ));
            }
        }
        i += 1;
    }
    assert(display_list@.take(n as int) =~= display_list@);
    canvas
}

} // verus!
