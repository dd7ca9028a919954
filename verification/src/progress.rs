//! Output width and the live scanning/parsing progress lines.
use vstd::prelude::*;
use crate::render::console::MIN_TOTAL_WIDTH;
use crate::render::{pad_left, push_chars, push_decimal_usize, push_pad_left, push_repeat, repeated};
use crate::text::{append_str, decimal, string_of};

verus! {

// ── Terminal width ────────────────────────────────────────────────────────────

/// Columns assumed when the terminal size cannot be detected.
pub const DEFAULT_TERMINAL_COLUMNS: u16 = 80;

/// `percent` of the terminal's columns (80 when unknown), at least the
/// minimum total width.
pub open spec fn resolved_width(terminal_cols: Option<u16>, percent: u8) -> nat {
    let cols: nat = match terminal_cols {
        Some(w) => w as nat,
        None => 80,
    };
    let w = cols * (percent as nat) / 100;
    if w > 25 { w } else { 25 }
}

/// Resolve the character width to use for output, given the terminal's
/// columns (when known) and a percentage of them. Falls back to 80 columns
/// when the terminal size is unknown; never below [`MIN_TOTAL_WIDTH`].
pub fn resolve_width(terminal_cols: Option<u16>, percent: u8) -> (r: usize)
    ensures
        r == resolved_width(terminal_cols, percent),
        r >= MIN_TOTAL_WIDTH,
{
    let cols: usize = match terminal_cols {
        Some(w) => w as usize,
        None => DEFAULT_TERMINAL_COLUMNS as usize,
    };
    assert(cols * (percent as usize) <= 65535 * 255) by (nonlinear_arith)
        requires cols <= 65535, percent <= 255;
    let w = cols * (percent as usize) / 100;
    if w > MIN_TOTAL_WIDTH { w } else { MIN_TOTAL_WIDTH }
}

// ── Progress display ──────────────────────────────────────────────────────────

/// Narrowest progress bar drawn.
pub const PROGRESS_MIN_BAR: usize = 5;

/// Width of the parsing bar for `total` files: what is left of the line once
/// the fixed text (`"  Parsing   ["`, `"] "`, `"100%  "`, `"("`, `"/"`, `")"`,
/// one spare column) and two numerals as long as `total` are taken, at least
/// five cells.
pub open spec fn progress_bar_width(total_width: nat, total: nat) -> nat {
    let overhead = 26 + 2 * decimal(total).len();
    let w: nat = if total_width > overhead { (total_width - overhead) as nat } else { 0 };
    if w > 5 { w } else { 5 }
}

/// Cells of the parsing bar that are filled after `done` of `total` files.
pub open spec fn filled_cells(done: nat, total: nat, width: nat) -> nat {
    if total > 0 { done * width / total } else { width }
}

/// The percentage shown after `done` of `total` files.
pub open spec fn percent_done(done: nat, total: nat) -> nat {
    if total > 0 { done * 100 / total } else { 100 }
}

/// The parsing progress line: it starts with a carriage return so that it
/// overwrites the previous one, and ends the line once all files are done.
pub open spec fn parsing_line(done: nat, total: nat, width: nat) -> Seq<char> {
    let filled = filled_cells(done, total, width);
    "\r  Parsing   ["@ + repeated('█', filled) + repeated('░', (width - filled) as nat) + "] "@ + pad_left(
        decimal(percent_done(done, total)),
        3,
    ) + "%  ("@ + decimal(done) + "/"@ + decimal(total) + ")"@ + if done < total {
        Seq::empty()
    } else {
        "\n"@
    }
}

/// Marking completion (`done == total`) draws a full bar at 100% and ends
/// the line.
pub proof fn law_parsing_complete(total: nat, width: nat)
    ensures
        filled_cells(total, total, width) == width,
        percent_done(total, total) == 100,
        parsing_line(total, total, width).last() == '\n',
{
    if total > 0 {
        assert(total * width / total == width) by (nonlinear_arith)
            requires total > 0;
        assert(total * 100 / total == 100) by (nonlinear_arith)
            requires total > 0;
    }
    reveal_strlit("\n");
}

/// Every progress line starts by returning to the first column, and a line
/// for unfinished work is not ended, so the next one overwrites it.
pub proof fn law_parsing_line_overwrites(done: nat, total: nat, width: nat)
    ensures
        parsing_line(done, total, width)[0] == '\r',
        done < total ==> parsing_line(done, total, width).last() == ')',
{
    reveal_strlit("\r  Parsing   [");
    reveal_strlit(")");
}

/// Live progress for the scan: which lines to show on the error stream.
pub struct Progress {
    pub enabled: bool,
    pub total_width: usize,
}

impl Progress {
    pub fn new(enabled: bool, total_width: usize) -> (p: Self)
        ensures
            p.enabled == enabled,
            p.total_width == total_width,
    {
        Progress { enabled, total_width }
    }

    /// Compute the bar width for a given `total` file count.
    pub fn bar_width_for(&self, total: usize) -> (w: usize)
        ensures
            w == progress_bar_width(self.total_width as nat, total as nat),
    {
        let mut digits: Vec<char> = Vec::new();
        push_decimal_usize(&mut digits, total);
        proof { crate::text::lemma_decimal_len_bound(total as nat); }
        let overhead = 14 + 2 + 6 + 3 + 2 * digits.len() + 1;
        let w = self.total_width.saturating_sub(overhead);
        if w > PROGRESS_MIN_BAR { w } else { PROGRESS_MIN_BAR }
    }

    /// The line announcing that scanning of a folder begins.
    pub fn scanning_folder(&self, name: &str) -> (r: Option<String>)
        ensures
            match r {
                Some(s) => self.enabled && s@ == "  Scanning  "@ + name@ + "\n"@,
                None => !self.enabled,
            },
    {
        if self.enabled {
            let mut v: Vec<char> = Vec::new();
            append_str(&mut v, "  Scanning  ");
            append_str(&mut v, name);
            append_str(&mut v, "\n");
            Some(string_of(&v))
        } else {
            None
        }
    }

    /// The line giving the email count found in a scanned folder.
    pub fn folder_found(&self, name: &str, count: usize) -> (r: Option<String>)
        ensures
            match r {
                Some(s) => self.enabled && s@ == "  Found     "@ + name@ + " — "@ + decimal(count as nat)
                    + " email(s)\n"@,
                None => !self.enabled,
            },
    {
        if self.enabled {
            let mut v: Vec<char> = Vec::new();
            append_str(&mut v, "  Found     ");
            append_str(&mut v, name);
            append_str(&mut v, " — ");
            push_decimal_usize(&mut v, count);
            append_str(&mut v, " email(s)\n");
            Some(string_of(&v))
        } else {
            None
        }
    }

    /// The line giving the number of emails found over all folders.
    pub fn total_found(&self, count: usize) -> (r: Option<String>)
        ensures
            match r {
                Some(s) => self.enabled && s@ == "  Total     "@ + decimal(count as nat) + " email(s) found\n"@,
                None => !self.enabled,
            },
    {
        if self.enabled {
            let mut v: Vec<char> = Vec::new();
            append_str(&mut v, "  Total     ");
            push_decimal_usize(&mut v, count);
            append_str(&mut v, " email(s) found\n");
            Some(string_of(&v))
        } else {
            None
        }
    }

    /// The parsing progress line after `done` of `total` files; with
    /// `done == total` the bar is full and the line is ended.
    pub fn parsing(&self, done: usize, total: usize) -> (r: Option<String>)
        requires
            done * progress_bar_width(self.total_width as nat, total as nat) <= usize::MAX,
            done * 100 <= usize::MAX,
            filled_cells(done as nat, total as nat, progress_bar_width(self.total_width as nat, total as nat))
                <= progress_bar_width(self.total_width as nat, total as nat),
        ensures
            match r {
                Some(s) => self.enabled && s@ == parsing_line(
                    done as nat,
                    total as nat,
                    progress_bar_width(self.total_width as nat, total as nat),
                ),
                None => !self.enabled,
            },
    {
        if !self.enabled {
            return None;
        }
        let width = self.bar_width_for(total);
        let filled = if total > 0 { done * width / total } else { width };
        let pct = if total > 0 { done * 100 / total } else { 100 };
        let mut v: Vec<char> = Vec::new();
        append_str(&mut v, "\r  Parsing   [");
        push_repeat(&mut v, '█', filled);
        push_repeat(&mut v, '░', width - filled);
        append_str(&mut v, "] ");
        let mut digits: Vec<char> = Vec::new();
        push_decimal_usize(&mut digits, pct);
        push_pad_left(&mut v, &digits, 3);
        append_str(&mut v, "%  (");
        push_decimal_usize(&mut v, done);
        append_str(&mut v, "/");
        push_decimal_usize(&mut v, total);
        append_str(&mut v, ")");
        if done >= total {
            append_str(&mut v, "\n");
        }
        assert(v@ =~= parsing_line(done as nat, total as nat, width as nat));
        Some(string_of(&v))
    }

    /// The blank separator line after the progress block.
    pub fn done(&self) -> (r: Option<String>)
        ensures
            match r {
                Some(s) => self.enabled && s@ == "\n"@,
                None => !self.enabled,
            },
    {
        if self.enabled {
            let mut v: Vec<char> = Vec::new();
            append_str(&mut v, "\n");
            Some(string_of(&v))
        } else {
            None
        }
    }
}

} // verus!
