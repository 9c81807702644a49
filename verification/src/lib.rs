//! A terminal renderer for parsed markdown documents: a recursive,
//! style-aware tree visitor producing one ANSI-decorated string, followed by
//! an order-sensitive layout pipeline — inline alignment directives, box
//! framing, horizontal and vertical centering — that keeps the coloring
//! intact and reports the blank-line padding it added.
pub mod highlight;
pub mod layout;
pub mod render;
pub mod mark;
pub mod node;
pub mod paint;
pub mod style;
pub mod text;
