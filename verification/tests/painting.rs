use toy_engine::css::{self, px};
use toy_engine::html;
use toy_engine::layout::{layout_tree, Dimensions, Rect};
use toy_engine::painting::{build_display_list, paint, Canvas, Color, DisplayCommand};
use toy_engine::style::style_tree;

const WHITE: Color = Color { r: 255, g: 255, b: 255, a: 255 };
const RED: Color = Color { r: 255, g: 0, b: 0, a: 255 };
const BLUE: Color = Color { r: 0, g: 0, b: 255, a: 255 };

fn rect(x: i32, y: i32, width: i32, height: i32) -> Rect {
    Rect { x: px(x) as i128, y: px(y) as i128, width: px(width) as i128, height: px(height) as i128 }
}

fn display_list(markup: &str, sheet: &str) -> Vec<DisplayCommand> {
    let root = html::parse(markup.to_string()).unwrap();
    let sheet = css::parse(sheet.to_string()).unwrap();
    let styled = style_tree(&root, &sheet);
    // A viewport with nothing in it yet: boxes start at the top.
    let mut viewport = Dimensions::default();
    viewport.width = px(10);
    let laid = layout_tree(&styled, viewport).unwrap();
    build_display_list(&laid)
}

#[test]
fn background_then_borders_then_children() {
    let list = display_list(
        "<div><p></p></div>",
        "div { background: #ff0000; border-color: #0000ff; border-width: 1px; padding: 1px; } \
         p { display: block; height: 2px; background: #0000ff; }",
    );
    assert_eq!(
        list,
        vec![
            DisplayCommand::SolidColor(RED, rect(0, 0, 10, 6)),
            DisplayCommand::SolidColor(BLUE, rect(0, 0, 1, 6)),
            DisplayCommand::SolidColor(BLUE, rect(9, 0, 1, 6)),
            DisplayCommand::SolidColor(BLUE, rect(0, 0, 10, 1)),
            DisplayCommand::SolidColor(BLUE, rect(0, 5, 10, 1)),
            DisplayCommand::SolidColor(BLUE, rect(2, 2, 6, 2)),
        ]
    );
}

#[test]
fn nothing_to_paint_without_colours() {
    assert_eq!(display_list("<div>text<b></b></div>", "div { background: red; }"), vec![]);
}

#[test]
fn new_canvas_is_filled() {
    let c = Canvas::new(3, 2, None);
    assert_eq!((c.width, c.height), (3, 2));
    assert_eq!(c.pixels, vec![WHITE; 6]);
    let c = Canvas::new(2, 2, Some(RED));
    assert_eq!(c.pixels, vec![RED; 4]);
    assert_eq!(Canvas::new(0, 5, None).pixels.len(), 0);
}

#[test]
fn rectangles_are_clipped_and_cut_to_pixels() {
    let mut c = Canvas::new(4, 3, None);
    // From 1.5 to 3.2 across: pixels 1 and 2. From -1 to 1.999 down: row 0.
    c.paint_item(&DisplayCommand::SolidColor(
        RED,
        Rect { x: 1500, y: -1000, width: 1700, height: 2999 },
    ));
    let w = WHITE;
    let r = RED;
    assert_eq!(c.pixels, vec![w, r, r, w, w, w, w, w, w, w, w, w]);
    // Far outside on every side: everything.
    c.paint_item(&DisplayCommand::SolidColor(
        BLUE,
        Rect { x: i128::MIN, y: i128::MIN, width: i128::MAX, height: i128::MAX },
    ));
    assert_eq!(c.pixels, vec![w, r, r, w, w, w, w, w, w, w, w, w]);
    c.paint_item(&DisplayCommand::SolidColor(
        BLUE,
        Rect { x: -5, y: -5, width: i128::MAX, height: i128::MAX },
    ));
    assert_eq!(c.pixels, vec![BLUE; 12]);
    // Negative extents paint nothing.
    c.paint_item(&DisplayCommand::SolidColor(RED, Rect { x: 3000, y: 2000, width: -2000, height: -1000 }));
    assert_eq!(c.pixels, vec![BLUE; 12]);
}

#[test]
fn later_commands_paint_over_earlier_ones() {
    let root = html::parse("<div><p></p></div>".to_string()).unwrap();
    let sheet = css::parse(
        "div { background: #ff0000; padding: 1px; } p { display: block; height: 1px; background: #0000ff; }"
            .to_string(),
    )
    .unwrap();
    let styled = style_tree(&root, &sheet);
    let mut viewport = Dimensions::default();
    viewport.width = px(4);
    let laid = layout_tree(&styled, viewport).unwrap();
    let canvas = paint(&laid, &rect(0, 0, 4, 4));
    let (w, r, b) = (WHITE, RED, BLUE);
    assert_eq!((canvas.width, canvas.height), (4, 4));
    assert_eq!(canvas.pixels, vec![r, r, r, r, r, b, b, r, r, r, r, r, w, w, w, w]);
}

#[test]
fn canvas_of_negative_bounds_is_empty() {
    let root = html::parse("<div></div>".to_string()).unwrap();
    let sheet = css::parse("".to_string()).unwrap();
    let styled = style_tree(&root, &sheet);
    let laid = layout_tree(&styled, Dimensions::default()).unwrap();
    let canvas = paint(&laid, &Rect { x: 0, y: 0, width: -1, height: 5999 });
    assert_eq!((canvas.width, canvas.height, canvas.pixels.len()), (0, 5, 0));
}
