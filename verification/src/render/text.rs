//! The fixed-width terminal renderer.
use vstd::prelude::*;
use crate::render::{bars_fit, plain_text, push_chars, push_plain, Renderer};
use crate::report::Report;

verus! {

/// Width of every bar, in cells.
pub const BAR_WIDTH: usize = 20;

/// Width of the label column.
pub const COL_WIDTH: usize = 42;

/// Width of the section rules.
pub const RULE_WIDTH: usize = 70;

/// Renders a [`Report`] as a human-readable terminal summary with bar charts.
pub struct TextRenderer;

impl Renderer for TextRenderer {
    open spec fn accepts(&self, report: &Report) -> bool {
        bars_fit(*report, BAR_WIDTH as nat)
    }

    open spec fn rendered(&self, report: &Report) -> Seq<char> {
        plain_text(*report, COL_WIDTH as nat, BAR_WIDTH as nat, RULE_WIDTH as nat)
    }

    fn render(&self, report: &Report, out: &mut String) {
        let mut v: Vec<char> = Vec::new();
        push_plain(&mut v, report, COL_WIDTH, BAR_WIDTH, RULE_WIDTH);
        push_chars(out, &v);
    }
}

impl Report {
    /// Append the report in the fixed-width bar-chart layout to `out`.
    pub fn print(&self, out: &mut String)
        requires
            bars_fit(*self, BAR_WIDTH as nat),
        ensures
            final(out)@ == old(out)@ + plain_text(*self, COL_WIDTH as nat, BAR_WIDTH as nat, RULE_WIDTH as nat),
    {
        let mut v: Vec<char> = Vec::new();
        push_plain(&mut v, self, COL_WIDTH, BAR_WIDTH, RULE_WIDTH);
        push_chars(out, &v);
    }
}

} // verus!
