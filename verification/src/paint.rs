//! Terminal coloring through the `colored` crate.
//!
//! Coloring may be disabled by the environment, so none of these calls has a
//! deterministic result. What every outcome satisfies: the visible characters
//! are unchanged, and complete escape sequences stay complete.
use vstd::prelude::*;
use crate::text::{esc_clean, strip};
use colored::Colorize;

verus! {

/// Relies on colored's `Colorize::color` and its `Display` impl: the output
/// is the input with complete `ESC [ ... m` sequences inserted, or the input
/// unchanged when coloring is disabled; an unknown color name falls back to
/// white.
#[verifier::external_body]
pub(crate) fn paint(s: &str, color: &str) -> (r: String)
    ensures
        esc_clean(s@) ==> strip(r@) == strip(s@) && esc_clean(r@),
{
    format!("{}", s.color(color))
}

/// Relies on colored's `Colorize::bold`, as `paint` does on `color`.
#[verifier::external_body]
pub(crate) fn paint_bold(s: &str) -> (r: String)
    ensures
        esc_clean(s@) ==> strip(r@) == strip(s@) && esc_clean(r@),
{
    format!("{}", s.bold())
}

/// Relies on colored's `Colorize::italic`, as `paint` does on `color`.
#[verifier::external_body]
pub(crate) fn paint_italic(s: &str) -> (r: String)
    ensures
        esc_clean(s@) ==> strip(r@) == strip(s@) && esc_clean(r@),
{
    format!("{}", s.italic())
}

/// Relies on colored's `Colorize::on_white` and `Colorize::black`: inverse
/// video for block quotes, inserting only complete escape sequences.
#[verifier::external_body]
pub(crate) fn paint_inverse(s: &str) -> (r: String)
    ensures
        esc_clean(s@) ==> strip(r@) == strip(s@) && esc_clean(r@),
{
    format!("{}", s.on_white().black())
}

/// Relies on colored's `Colorize::white` and `Colorize::on_black`: the
/// indentation cell, inserting only complete escape sequences.
#[verifier::external_body]
pub(crate) fn paint_cell(s: &str) -> (r: String)
    ensures
        esc_clean(s@) ==> strip(r@) == strip(s@) && esc_clean(r@),
{
    format!("{}", s.white().on_black())
}

} // verus!
