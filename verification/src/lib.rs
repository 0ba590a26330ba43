//! A small rendering pipeline: markup and style sheets are parsed into trees,
//! styles are resolved per element, a block-flow layout positions boxes, and
//! the boxes are painted on a canvas or written as a PDF document.
//!
//! Lengths are fixed-point numbers: thousandths of a pixel, held in
//! integers. Every stage is a function from its input to its output, and
//! each states what it computes over a mathematical view of its data.

pub mod text;
pub mod assoc;
pub mod order;
pub mod dom;
pub mod css;
pub mod html;
pub mod style;
pub mod layout;
pub mod painting;
pub mod pdf;
