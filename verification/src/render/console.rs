//! The console renderer: the bar-chart report laid out to a chosen width.
use vstd::prelude::*;
use crate::render::{bars_fit, plain_text, push_chars, push_plain, repeated, Renderer};
use crate::report::Report;

verus! {

// ── Layout ────────────────────────────────────────────────────────────────────

/// Fixed characters on every bar row that are not part of the label or bar.
///
/// `"  "` indent + `" "` label→bar gap + `" "` bar→count gap + 6-char count = 10
pub const FIXED_OVERHEAD: usize = 10;

/// Minimum bar width, so the output doesn't collapse into gibberish.
pub const MIN_BAR_WIDTH: usize = 5;

/// Minimum label column width.
pub const MIN_COL_WIDTH: usize = 10;

/// Fraction of the flexible space (total_width − overhead) given to the bar.
pub const BAR_FRACTION_NUMERATOR: usize = 1;
pub const BAR_FRACTION_DENOMINATOR: usize = 3;

/// Minimum sensible total width (prevents layout collapse at extreme settings).
pub const MIN_TOTAL_WIDTH: usize = FIXED_OVERHEAD + MIN_COL_WIDTH + MIN_BAR_WIDTH;

/// Derived per-render layout, computed once from `total_width`.
pub struct Layout {
    pub col_width: usize,
    pub bar_width: usize,
    /// The `═══` / `───` rule width matches total_width.
    pub rule_width: usize,
}

/// The columns left for label and bar once the fixed characters are taken.
pub open spec fn flexible_width(total: nat) -> nat {
    if total > 10 { (total - 10) as nat } else { 0 }
}

/// A third of the flexible space, at least five columns.
pub open spec fn bar_width_of(total: nat) -> nat {
    let b = flexible_width(total) / 3;
    if b > 5 { b } else { 5 }
}

/// The rest of the flexible space, at least ten columns.
pub open spec fn col_width_of(total: nat) -> nat {
    let f = flexible_width(total);
    let b = bar_width_of(total);
    let c: nat = if f > b { (f - b) as nat } else { 0 };
    if c > 10 { c } else { 10 }
}

impl Layout {
    /// Split `total_width` into label column, bar and rule widths.
    pub fn from_total_width(total_width: usize) -> (l: Self)
        ensures
            l.bar_width == bar_width_of(total_width as nat),
            l.col_width == col_width_of(total_width as nat),
            l.rule_width == total_width,
    {
        let flexible = total_width.saturating_sub(FIXED_OVERHEAD);
        let third = flexible * BAR_FRACTION_NUMERATOR / BAR_FRACTION_DENOMINATOR;
        let bar_width = if third > MIN_BAR_WIDTH { third } else { MIN_BAR_WIDTH };
        let rest = flexible.saturating_sub(bar_width);
        let col_width = if rest > MIN_COL_WIDTH { rest } else { MIN_COL_WIDTH };
        Layout { col_width, bar_width, rule_width: total_width }
    }
}

/// From the minimum total width up, label column and bar share exactly the
/// space left by the fixed characters, and each keeps its minimum.
pub proof fn law_layout_fills_width(total: nat)
    requires
        total >= MIN_TOTAL_WIDTH,
    ensures
        col_width_of(total) + bar_width_of(total) == total - 10,
        bar_width_of(total) >= 5,
        col_width_of(total) >= 10,
{
}

/// At any width the bar and the label column keep their minimum widths.
pub proof fn law_layout_minimums(total: nat)
    ensures
        bar_width_of(total) >= 5,
        col_width_of(total) >= 10,
{
}

/// The console rendering opens with a rule exactly as wide as the total
/// width, on a line of its own.
pub proof fn law_console_rule_width(r: Report, col: nat, bar: nat, total: nat)
    ensures
        plain_text(r, col, bar, total).take(total as int) == repeated('═', total),
        plain_text(r, col, bar, total)[total as int] == '\n',
{
    let t = plain_text(r, col, bar, total);
    assert(t.take(total as int) =~= repeated('═', total));
}

// ── Renderer ──────────────────────────────────────────────────────────────────

/// Renders a [`Report`] as a human-readable console summary with bar charts.
///
/// `total_width` is the number of character columns the output may occupy.
pub struct ConsoleRenderer {
    pub total_width: usize,
}

impl Renderer for ConsoleRenderer {
    open spec fn accepts(&self, report: &Report) -> bool {
        bars_fit(*report, bar_width_of(self.total_width as nat))
    }

    open spec fn rendered(&self, report: &Report) -> Seq<char> {
        plain_text(
            *report,
            col_width_of(self.total_width as nat),
            bar_width_of(self.total_width as nat),
            self.total_width as nat,
        )
    }

    fn render(&self, report: &Report, out: &mut String) {
        let layout = Layout::from_total_width(self.total_width);
        let mut v: Vec<char> = Vec::new();
        push_plain(&mut v, report, layout.col_width, layout.bar_width, layout.rule_width);
        assert(v@ =~= self.rendered(report));
        push_chars(out, &v);
    }
}

} // verus!
