use toy_engine::css::{self, px};
use toy_engine::html;
use toy_engine::layout::{
    build_layout_tree, layout_tree, BoxType, Dimensions, LayoutBox, LayoutErrorKind, Rect,
};
use toy_engine::style::style_tree;

fn viewport() -> Dimensions {
    let mut v = Dimensions::default();
    v.width = px(800);
    v.height = px(600);
    v
}

/// Lays out `markup` under `sheet` and hands the root's dimensions and
/// those of its children to `check`.
fn with_layout(markup: &str, sheet: &str, check: impl Fn(&LayoutBox)) {
    let root = html::parse(markup.to_string()).unwrap();
    let sheet = css::parse(sheet.to_string()).unwrap();
    let styled = style_tree(&root, &sheet);
    let laid = layout_tree(&styled, viewport()).unwrap();
    check(&laid);
}

fn layout_error(markup: &str, sheet: &str) -> (LayoutErrorKind, String) {
    let root = html::parse(markup.to_string()).unwrap();
    let sheet = css::parse(sheet.to_string()).unwrap();
    let styled = style_tree(&root, &sheet);
    let e = layout_tree(&styled, viewport()).unwrap_err();
    (e.kind, e.property)
}

fn margin_box_width(d: &Dimensions) -> i64 {
    d.margin.left + d.border.left + d.padding.left + d.width + d.padding.right + d.border.right
        + d.margin.right
}

#[test]
fn auto_margins_center_a_fixed_width() {
    with_layout("<div></div>", "div { display: block; width: 400px; margin: auto; }", |b| {
        let d = &b.dimensions;
        assert_eq!(d.margin.left, px(200));
        assert_eq!(d.margin.right, px(200));
        assert_eq!(d.width, px(400));
        assert_eq!(d.x, px(200));
        assert_eq!(d.margin.top, 0);
        assert_eq!(d.margin.bottom, 0);
    });
}

#[test]
fn overflow_goes_to_the_right_margin() {
    with_layout("<div></div>", "div { display: block; width: 200px; margin-left: 700px; }", |b| {
        let d = &b.dimensions;
        assert_eq!(d.margin.right, px(-100));
        assert_eq!(d.margin.left, px(700));
        assert_eq!(d.width, px(200));
        assert_eq!(margin_box_width(d), px(800));
    });
}

#[test]
fn height_is_the_sum_of_the_children() {
    with_layout(
        "<div><p></p><p></p></div>",
        "div { display: block; } p { display: block; height: 50px; }",
        |b| {
            assert_eq!(b.children.len(), 2);
            assert_eq!(b.children[0].dimensions.height, px(50));
            assert_eq!(b.children[1].dimensions.height, px(50));
            assert_eq!(b.dimensions.height, px(100));
        },
    );
}

#[test]
fn explicit_height_replaces_the_sum() {
    with_layout(
        "<div><p></p><p></p></div>",
        "div { display: block; height: 30px; } p { display: block; height: 50px; }",
        |b| assert_eq!(b.dimensions.height, px(30)),
    );
}

#[test]
fn auto_width_fills_the_container() {
    with_layout(
        "<div></div>",
        "div { display: block; margin-left: 10px; padding: 5px; border-width: 1.5px; margin-right: auto; }",
        |b| {
            let d = &b.dimensions;
            assert_eq!(d.margin.left, px(10));
            assert_eq!(d.margin.right, 0);
            assert_eq!(d.padding.left, px(5));
            assert_eq!(d.padding.right, px(5));
            assert_eq!(d.border.left, 1500);
            assert_eq!(d.border.right, 1500);
            assert_eq!(d.width, px(800) - px(10) - px(10) - 3000);
            assert_eq!(margin_box_width(d), px(800));
            assert_eq!(d.x, px(10) + 1500 + px(5));
        },
    );
}

#[test]
fn auto_width_is_never_negative() {
    with_layout("<div></div>", "div { display: block; margin-left: 900px; margin-right: auto; }", |b| {
        let d = &b.dimensions;
        assert_eq!(d.width, 0);
        assert_eq!(d.margin.left, px(900));
        assert_eq!(d.margin.right, px(-100));
        assert_eq!(margin_box_width(d), px(800));
    });
}

#[test]
fn one_auto_margin_takes_what_is_left() {
    with_layout("<div></div>", "div { display: block; width: 300px; margin-left: auto; margin-right: 100px; }", |b| {
        let d = &b.dimensions;
        assert_eq!(d.margin.left, px(400));
        assert_eq!(d.margin.right, px(100));
    });
    with_layout("<div></div>", "div { display: block; width: 300px; margin-right: auto; margin-left: 100px; }", |b| {
        let d = &b.dimensions;
        assert_eq!(d.margin.left, px(100));
        assert_eq!(d.margin.right, px(400));
    });
}

#[test]
fn auto_margins_are_zero_when_the_box_is_too_wide() {
    with_layout("<div></div>", "div { display: block; width: 900px; margin: auto; }", |b| {
        let d = &b.dimensions;
        assert_eq!(d.margin.left, 0);
        assert_eq!(d.margin.right, px(-100));
        assert_eq!(margin_box_width(d), px(800));
    });
}

#[test]
fn shared_margins_may_leave_one_unit() {
    with_layout("<div></div>", "div { display: block; width: 0.001px; margin: auto; }", |b| {
        let d = &b.dimensions;
        assert_eq!(d.margin.left, 399_999);
        assert_eq!(d.margin.right, 399_999);
        assert_eq!(margin_box_width(d), px(800) - 1);
    });
}

#[test]
fn children_stack_below_one_another() {
    with_layout(
        "<div><p class=\"a\"></p><p class=\"b\"></p><p class=\"a\"></p></div>",
        "div { display: block; padding: 7px; } p { display: block; } \
         .a { height: 50px; margin: 10px; border-width: 1px; } \
         .b { height: 20px; padding-top: 3px; margin-bottom: 4px; }",
        |root| {
            let top = |b: &LayoutBox| {
                let d = &b.dimensions;
                d.y - d.padding.top - d.border.top - d.margin.top
            };
            let a = &root.children[0];
            let b = &root.children[1];
            let c = &root.children[2];
            // The root stands below what the viewport is filled with.
            assert_eq!(root.dimensions.y, px(600) + px(7));
            assert_eq!(top(a), root.dimensions.y);
            assert_eq!(a.dimensions.y, root.dimensions.y + px(11));
            assert_eq!(a.dimensions.margin_box_height(), px(72) as i128);
            assert_eq!(top(b), top(a) + px(72));
            assert_eq!(b.dimensions.y, top(b) + px(3));
            assert_eq!(b.dimensions.margin_box_height(), px(27) as i128);
            assert_eq!(top(c), top(b) + px(27));
            assert_eq!(root.dimensions.height, px(72 + 27 + 72));
            // Children are as wide as the content of the root.
            assert_eq!(root.dimensions.width, px(800 - 14));
            assert_eq!(margin_box_width(&a.dimensions), px(800 - 14));
            assert_eq!(a.dimensions.x, root.dimensions.x + px(11));
        },
    );
}

#[test]
fn inline_children_share_an_anonymous_block() {
    with_layout(
        "<div><a></a><b></b><p></p><i></i><p></p><p></p><u></u>text</div>",
        "div { display: block; } p { display: block; }",
        |root| {
            let kinds: Vec<&str> = root
                .children
                .iter()
                .map(|c| match c.box_type {
                    BoxType::BlockNode(_) => "block",
                    BoxType::InlineNode(_) => "inline",
                    BoxType::AnonymousBlock => "anonymous",
                })
                .collect();
            assert_eq!(kinds, vec!["anonymous", "block", "anonymous", "block", "block", "anonymous"]);
            let counts: Vec<usize> = root.children.iter().map(|c| c.children.len()).collect();
            assert_eq!(counts, vec![2, 0, 1, 0, 0, 2]);
            for c in &root.children {
                if let BoxType::AnonymousBlock = c.box_type {
                    assert!(c.children.iter().all(|k| matches!(k.box_type, BoxType::InlineNode(_))));
                    assert_eq!(c.dimensions, Dimensions::default());
                }
            }
        },
    );
}

#[test]
fn inline_parent_holds_its_children_directly() {
    let root = html::parse("<span><a></a><p></p><b></b></span>".to_string()).unwrap();
    let sheet = css::parse("p { display: block; }".to_string()).unwrap();
    let styled = style_tree(&root, &sheet);
    let built = build_layout_tree(&styled).unwrap();
    assert!(matches!(built.box_type, BoxType::InlineNode(_)));
    assert_eq!(built.children.len(), 3);
    assert!(matches!(built.children[0].box_type, BoxType::InlineNode(_)));
    assert!(matches!(built.children[1].box_type, BoxType::BlockNode(_)));
    assert!(matches!(built.children[2].box_type, BoxType::InlineNode(_)));
    // Laid out, the root is a block whatever it says.
    let laid = layout_tree(&styled, viewport()).unwrap();
    assert!(matches!(laid.box_type, BoxType::BlockNode(_)));
    assert_eq!(laid.dimensions.width, px(800));
    assert_eq!(laid.children.len(), 3);
    assert!(matches!(laid.children[0].box_type, BoxType::AnonymousBlock));
    assert!(matches!(laid.children[1].box_type, BoxType::BlockNode(_)));
    assert!(matches!(laid.children[2].box_type, BoxType::AnonymousBlock));
}

#[test]
fn undisplayed_nodes_have_no_boxes() {
    with_layout(
        "<div><p class=\"off\"><p>deep</p></p><p>x</p><span class=\"off\">y</span><span>z</span></div>",
        "div { display: block; } p { display: block; } .off { display: none; }",
        |root| {
            assert_eq!(root.children.len(), 2);
            assert!(matches!(root.children[0].box_type, BoxType::BlockNode(_)));
            assert!(matches!(root.children[1].box_type, BoxType::AnonymousBlock));
            assert_eq!(root.children[1].children.len(), 1);
            fn count(b: &LayoutBox) -> usize {
                1 + b.children.iter().map(count).sum::<usize>()
            }
            // div, p, its text in an anonymous block, the anonymous block
            // of the span, the span and its text
            assert_eq!(count(root), 7);
        },
    );
}

#[test]
fn undisplayed_root_is_an_error() {
    assert_eq!(
        layout_error("<div></div>", "div { display: none; }"),
        (LayoutErrorKind::RootNotDisplayed, "display".to_string())
    );
    let root = html::parse("<div></div>".to_string()).unwrap();
    let sheet = css::parse("div { display: none; }".to_string()).unwrap();
    let styled = style_tree(&root, &sheet);
    let e = build_layout_tree(&styled).unwrap_err();
    assert_eq!(e.kind, LayoutErrorKind::RootNotDisplayed);
}

#[test]
fn values_that_are_no_lengths_are_errors() {
    let err = |sheet: &str| layout_error("<div></div>", sheet);
    assert_eq!(err("div { width: wide; }"), (LayoutErrorKind::NotALength, "width".to_string()));
    assert_eq!(err("div { padding: auto; }"), (LayoutErrorKind::NotALength, "padding-left".to_string()));
    assert_eq!(
        err("div { padding-right: #000000; }"),
        (LayoutErrorKind::NotALength, "padding-right".to_string())
    );
    assert_eq!(
        err("div { border-left-width: thin; }"),
        (LayoutErrorKind::NotALength, "border-left-width".to_string())
    );
    assert_eq!(
        err("div { border-width: auto; padding-left: 1px; padding-right: 1px; }"),
        (LayoutErrorKind::NotALength, "border-left-width".to_string())
    );
    assert_eq!(err("div { margin-left: big; }"), (LayoutErrorKind::NotALength, "margin-left".to_string()));
    assert_eq!(
        err("div { width: 1px; margin-right: big; }"),
        (LayoutErrorKind::NotALength, "margin-right".to_string())
    );
    assert_eq!(err("div { margin-top: big; }"), (LayoutErrorKind::NotALength, "margin-top".to_string()));
    assert_eq!(
        err("div { margin-bottom: #ffffff; }"),
        (LayoutErrorKind::NotALength, "margin-bottom".to_string())
    );
    assert_eq!(
        err("div { padding-top: auto; }"),
        (LayoutErrorKind::NotALength, "padding-top".to_string())
    );
    assert_eq!(
        err("div { border-bottom-width: auto; }"),
        (LayoutErrorKind::NotALength, "border-bottom-width".to_string())
    );
}

#[test]
fn a_non_length_height_is_ignored() {
    with_layout("<div></div>", "div { height: auto; }", |b| assert_eq!(b.dimensions.height, 0));
}

#[test]
fn sizes_outside_the_number_range_are_errors() {
    let err = |sheet: &str| layout_error("<div></div>", sheet);
    assert_eq!(
        err("div { width: 9223372036854775px; margin-left: 9223372036854775px; }"),
        (LayoutErrorKind::OutOfRange, "margin-right".to_string())
    );
    assert_eq!(
        err("div { width: 10px; margin: 5px; padding-left: 9223372036854775px; }"),
        (LayoutErrorKind::OutOfRange, "x".to_string())
    );
    assert_eq!(
        err("div { margin-top: 9223372036854775px; padding-top: 9223372036854775px; }"),
        (LayoutErrorKind::OutOfRange, "y".to_string())
    );
    let root = html::parse("<div><p></p><p></p></div>".to_string()).unwrap();
    let sheet = css::parse("p { display: block; height: 5000000000000000px; }".to_string()).unwrap();
    let styled = style_tree(&root, &sheet);
    let e = layout_tree(&styled, Dimensions::default()).unwrap_err();
    assert_eq!((e.kind, e.property.as_str()), (LayoutErrorKind::OutOfRange, "height"));
    let e = layout_tree(&styled, viewport()).unwrap_err();
    assert_eq!((e.kind, e.property.as_str()), (LayoutErrorKind::OutOfRange, "height"));
    let sheet = css::parse("p { display: block; height: 9223372036854775px; }".to_string()).unwrap();
    let styled = style_tree(&root, &sheet);
    let e = layout_tree(&styled, viewport()).unwrap_err();
    assert_eq!((e.kind, e.property.as_str()), (LayoutErrorKind::OutOfRange, "y"));
}

#[test]
fn border_box_surrounds_padding_and_border() {
    with_layout(
        "<div></div>",
        "div { width: 100px; height: 40px; padding: 2px; border-width: 3px; margin: 5px; }",
        |b| {
            let d = &b.dimensions;
            assert_eq!(
                d.border_box(),
                Rect {
                    x: px(5) as i128,
                    y: (px(600) + px(5)) as i128,
                    width: px(110) as i128,
                    height: px(50) as i128,
                }
            );
            assert_eq!(d.margin_box_height(), px(60) as i128);
        },
    );
}

#[test]
fn width_step_fills_the_containing_block() {
    let root = html::parse("<div></div>".to_string()).unwrap();
    let sheet = css::parse(
        "div { display: block; width: 301px; margin: auto; padding: 5px; border-width: 2px; }"
            .to_string(),
    )
    .unwrap();
    let styled = style_tree(&root, &sheet);
    let mut b = build_layout_tree(&styled).unwrap();
    b.calculate_block_width(viewport()).unwrap();
    let d = b.dimensions;
    assert_eq!(d.width, px(301));
    assert_eq!(d.margin.left, 242500);
    assert_eq!(d.margin.right, 242500);
    assert_eq!(margin_box_width(&d), px(800));
    // The other edges and the position are untouched by this step.
    assert_eq!((d.x, d.y, d.height, d.padding.top, d.margin.top), (0, 0, 0, 0, 0));
}

#[test]
fn children_step_stacks_from_the_height_so_far() {
    let root = html::parse("<div><p></p><p></p></div>".to_string()).unwrap();
    let sheet = css::parse(
        "div { display: block; } p { display: block; height: 30px; margin-top: 4px; }".to_string(),
    )
    .unwrap();
    let styled = style_tree(&root, &sheet);
    let mut b = build_layout_tree(&styled).unwrap();
    b.dimensions.width = px(500);
    b.dimensions.x = px(10);
    b.dimensions.y = px(20);
    b.dimensions.height = px(100);
    b.layout_block_children().unwrap();
    let top = |c: &LayoutBox| c.dimensions.y - c.dimensions.margin.top;
    assert_eq!(top(&b.children[0]), px(120));
    assert_eq!(top(&b.children[1]), px(120) + px(34));
    assert_eq!(b.dimensions.height, px(100) + px(68));
    assert_eq!((b.dimensions.x, b.dimensions.y, b.dimensions.width), (px(10), px(20), px(500)));
    assert_eq!(b.children[0].dimensions.x, px(10));
    assert_eq!(b.children[0].dimensions.width, px(500));
}

#[test]
fn blocks_stack_across_an_anonymous_box() {
    with_layout(
        "<div><p></p><span></span><em></em><p></p></div>",
        "div { display: block; } p { display: block; height: 40px; margin-top: 5px; padding-bottom: 2px; }",
        |root| {
            let top = |b: &LayoutBox| {
                let d = &b.dimensions;
                d.y - d.padding.top - d.border.top - d.margin.top
            };
            assert_eq!(root.children.len(), 3);
            let a = &root.children[0];
            let between = &root.children[1];
            let b = &root.children[2];
            assert!(matches!(a.box_type, BoxType::BlockNode(_)));
            assert!(matches!(between.box_type, BoxType::AnonymousBlock));
            assert!(matches!(b.box_type, BoxType::BlockNode(_)));
            assert_eq!(between.children.len(), 2);
            assert_eq!(between.dimensions, Dimensions::default());
            assert_eq!(a.dimensions.margin_box_height(), px(47) as i128);
            assert_eq!(top(b), top(a) + px(47));
            assert_eq!(b.dimensions.y, a.dimensions.y + px(47));
            assert_eq!(root.dimensions.height, px(94));
        },
    );
}

#[test]
fn position_and_height_steps_follow_the_width_step() {
    let root = html::parse("<div></div>".to_string()).unwrap();
    let sheet = css::parse(
        "div { display: block; height: 25px; margin: 3px; border-width: 2px; padding: 1px; }"
            .to_string(),
    )
    .unwrap();
    let styled = style_tree(&root, &sheet);
    let mut b = build_layout_tree(&styled).unwrap();
    let mut cb = Dimensions::default();
    cb.x = px(10);
    cb.y = px(20);
    cb.width = px(100);
    cb.height = px(30);
    b.calculate_block_width(cb).unwrap();
    assert_eq!(b.dimensions.width, px(88));
    assert_eq!((b.dimensions.x, b.dimensions.y), (0, 0));
    b.calculate_block_position(cb).unwrap();
    assert_eq!(b.dimensions.x, px(16));
    assert_eq!(b.dimensions.y, px(56));
    assert_eq!(b.dimensions.margin.top, px(3));
    assert_eq!(b.dimensions.border.bottom, px(2));
    assert_eq!(b.dimensions.padding.top, px(1));
    assert_eq!(b.dimensions.height, 0);
    b.calculate_block_height();
    assert_eq!(b.dimensions.height, px(25));
    assert_eq!(b.dimensions.margin_box_height(), px(37) as i128);
}

#[test]
fn an_inline_box_is_not_laid_out() {
    let root = html::parse("<span><p></p></span>".to_string()).unwrap();
    let sheet = css::parse("p { display: block; height: 9px; }".to_string()).unwrap();
    let styled = style_tree(&root, &sheet);
    let mut b = build_layout_tree(&styled).unwrap();
    assert!(matches!(b.box_type, BoxType::InlineNode(_)));
    b.layout(viewport()).unwrap();
    assert_eq!(b.dimensions, Dimensions::default());
    assert_eq!(b.children.len(), 1);
    assert_eq!(b.children[0].dimensions, Dimensions::default());
}
