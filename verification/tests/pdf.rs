use toy_engine::css::{self, px};
use toy_engine::html;
use toy_engine::layout::{layout_tree, Dimensions, Rect};
use toy_engine::pdf::render;
use toy_engine::style::style_tree;

fn document(markup: &str, sheet: &str, bounds: Rect) -> Vec<u8> {
    let root = html::parse(markup.to_string()).unwrap();
    let sheet = css::parse(sheet.to_string()).unwrap();
    let styled = style_tree(&root, &sheet);
    let mut viewport = Dimensions::default();
    viewport.width = px(10);
    let laid = layout_tree(&styled, viewport).unwrap();
    render(&laid, bounds)
}

/// The document that holds the given stream on a page of the given size,
/// put together by hand.
fn expected(stream: &str, media_box: &str) -> Vec<u8> {
    let mut out: Vec<u8> = b"%PDF-1.7\n%\xB5\xED\xAE\xFB\n".to_vec();
    let at_contents = out.len();
    out.extend(format!("3 0 obj\n<<  /Length 4 0 R\n>>\nstream\n{}endstream\nendobj\n", stream).bytes());
    let at_length = out.len();
    out.extend(format!("4 0 obj\n{}\nendobj\n", stream.len()).bytes());
    let at_page = out.len();
    out.extend(
        format!(
            "5 0 obj\n<<  /Type /Page\n    /Parent 2 0 R\n    /Resources << >>\n    /MediaBox [ 0 0 {} ]\n    /Contents 3 0 R\n>>\nendobj\n",
            media_box
        )
        .bytes(),
    );
    let at_pages = out.len();
    out.extend("2 0 obj\n<<  /Type /Pages\n    /Count 1\n    /Kids [ 5 0 R ]\n>>\nendobj\n".bytes());
    let at_root = out.len();
    out.extend("1 0 obj\n<<  /Type /Catalog\n    /Pages 2 0 R\n>>\nendobj\n".bytes());
    let at_table = out.len();
    out.extend("xref\n0 6\n0000000000 65535 f \n".bytes());
    for at in [at_root, at_pages, at_contents, at_length, at_page] {
        out.extend(format!("{:010} 00000 n \n", at).bytes());
    }
    out.extend(
        format!("trailer\n<<  /Size 6\n    /Root 1 0 R\n>>\nstartxref\n{}\n%%EOF\n", at_table).bytes(),
    );
    out
}

#[test]
fn empty_page() {
    let bounds = Rect { x: 0, y: 0, width: px(800) as i128, height: px(600) as i128 };
    assert_eq!(
        document("<div></div>", "", bounds),
        expected(
            "/DeviceRGB cs /DeviceRGB CS\n0.75 0 0 -0.75 0 450.00000 cm\n",
            "600.00000 450.00000"
        )
    );
}

#[test]
fn page_with_rectangles() {
    let bounds = Rect { x: 0, y: 0, width: px(10) as i128, height: 6001 };
    let sheet = "div { background: #ff0000; padding: 1.5px; height: 3px; } \
                 p { display: block; margin-left: 12px; border-width: 0.25px; border-color: #01020a; }";
    assert_eq!(
        document("<div><p></p></div>", sheet, bounds),
        expected(
            "/DeviceRGB cs /DeviceRGB CS\n0.75 0 0 -0.75 0 4.50075 cm\n\
             255 0 0 sc 0.000 0.000 10.000 6.000 re f\n\
             1 2 10 sc 13.500 1.500 0.250 0.500 re f\n\
             1 2 10 sc 13.750 1.500 0.250 0.500 re f\n\
             1 2 10 sc 13.500 1.500 0.500 0.250 re f\n\
             1 2 10 sc 13.500 1.750 0.500 0.250 re f\n",
            "7.50000 4.50075"
        )
    );
}

#[test]
fn negative_bounds_are_written_with_a_sign() {
    let bounds = Rect { x: 0, y: 0, width: -1, height: -2000 };
    assert_eq!(
        document("<div></div>", "", bounds),
        expected(
            "/DeviceRGB cs /DeviceRGB CS\n0.75 0 0 -0.75 0 -1.50000 cm\n",
            "-0.00075 -1.50000"
        )
    );
}
