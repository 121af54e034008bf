//! Rendering of ranked pairs as an aligned, color-annotated table.
//!
//! Every line is specified exactly, character by character. Colors are ANSI
//! escape sequences wrapping only the after-value's numeral.

use vstd::prelude::*;

use crate::num::{dec_render, fmt_dec, fmt_u64, repeat_char, u_digits, SCALE};
use crate::score::{PairModel, ScoredPair};

verus! {

/// Escape sequence rendering the unchanged-value grey.
pub open spec fn grey_code() -> Seq<char> {
    "\u{001b}[38;5;243m"@
}

/// Escape sequence rendering the increased-value green.
pub open spec fn green_code() -> Seq<char> {
    "\u{001b}[32m"@
}

/// Escape sequence rendering the decreased-value red.
pub open spec fn red_code() -> Seq<char> {
    "\u{001b}[31m"@
}

/// Escape sequence resetting the color.
pub open spec fn reset_code() -> Seq<char> {
    "\u{001b}[0m"@
}

/// Green when the value rose, red when it fell, grey when it is unchanged.
pub open spec fn color_of(before: int, after: int) -> Seq<char> {
    if after < before {
        red_code()
    } else if after > before {
        green_code()
    } else {
        grey_code()
    }
}

/// Width of a value's rendered integer magnitude: its digit count, plus one
/// for a minus sign.
pub open spec fn int_digit_width(v: int) -> int {
    let m = if v < 0 {
        -v
    } else {
        v
    };
    u_digits((m / (SCALE as int)) as nat).len() + (if v < 0 {
        1int
    } else {
        0int
    })
}

/// Dot padding that aligns the before-value at a fixed column, never
/// negative.
pub open spec fn name_pad(name_len: int, v: int) -> int {
    let used = name_len + int_digit_width(v);
    if used >= 36 {
        0
    } else {
        36 - used
    }
}

/// Trailing dot padding against a five-character budget, never negative.
pub open spec fn tail_pad(v: int) -> int {
    let w = int_digit_width(v);
    if w >= 5 {
        0
    } else {
        5 - w
    }
}

/// The header line: the two labels with the fixed-width gap between them.
pub open spec fn header_line() -> Seq<char> {
    "OPTION NAME "@ + repeat_char(' ', 25) + " CHANGE"@
}

/// The separator line of dashes.
pub open spec fn separator_line() -> Seq<char> {
    repeat_char('-', 50)
}

/// One rendered pair: name, dot padding, before-value, arrow, the colored
/// after-value, and the trailing dots.
pub open spec fn row_line(p: PairModel) -> Seq<char> {
    p.before.name + seq![' '] + repeat_char('.', name_pad(p.before.name.len() as int, p.before.value) as nat)
        + seq![' '] + dec_render(p.before.value) + " -> "@ + color_of(p.before.value, p.after.value)
        + dec_render(p.after.value) + reset_code() + seq![' '] + repeat_char(
        '.',
        tail_pad(p.after.value) as nat,
    )
}

/// `n` copies of a one-character piece.
fn repeat_one(piece: &str, n: usize) -> (r: String)
    requires
        piece@.len() == 1,
    ensures
        r@ == repeat_char(piece@[0], n as nat),
{
    let mut out = String::new();
    let mut i: usize = 0;
    while i < n
        invariant
            0 <= i <= n,
            piece@.len() == 1,
            out@ == repeat_char(piece@[0], i as nat),
        decreases n - i,
    {
        out.append(piece);
        proof {
            assert(out@ =~= repeat_char(piece@[0], (i + 1) as nat));
        }
        i = i + 1;
    }
    out
}

/// Width of `v`'s integer magnitude as displayed, per [`int_digit_width`].
fn width_of(v: i64) -> (r: usize)
    ensures
        r as int == int_digit_width(v as int),
        r >= 1,
{
    let m: u64 = if v < 0 {
        (-(v as i128)) as u64
    } else {
        v as u64
    };
    let u = m / SCALE;
    let s = fmt_u64(u);
    let w = s.as_str().unicode_len();
    proof {
        crate::num::lemma_u_digits_len_low(u as nat);
        reveal_with_fuel(crate::num::pow10, 21);
        assert(crate::num::pow10(20) == 100_000_000_000_000_000_000);
        crate::num::lemma_u_digits_len(u as nat, 20);
    }
    if v < 0 {
        w + 1
    } else {
        w
    }
}

/// Renders one ranked pair, exactly as [`row_line`] describes.
fn render_row(p: &ScoredPair) -> (r: String)
    ensures
        r@ == row_line(p@),
{
    let mut out = String::from_str(p.before.name.as_str());
    out.append(" ");
    let nl = p.before.name.as_str().unicode_len();
    let w = width_of(p.before.value);
    let pad: usize = if nl >= 36 {
        0
    } else {
        let rem = 36 - nl;
        if w >= rem {
            0
        } else {
            rem - w
        }
    };
    proof {
        assert(pad as int == name_pad(p@.before.name.len() as int, p@.before.value));
        reveal_strlit(".");
        reveal_strlit(" ");
    }
    let dot_run = repeat_one(".", pad);
    out.append(dot_run.as_str());
    out.append(" ");
    let before_num = fmt_dec(p.before.value);
    out.append(before_num.as_str());
    out.append(" -> ");
    if p.after.value < p.before.value {
        out.append("\u{001b}[31m");
    } else if p.after.value > p.before.value {
        out.append("\u{001b}[32m");
    } else {
        out.append("\u{001b}[38;5;243m");
    }
    let after_num = fmt_dec(p.after.value);
    out.append(after_num.as_str());
    out.append("\u{001b}[0m");
    out.append(" ");
    let tw = width_of(p.after.value);
    let tail: usize = if tw >= 5 {
        0
    } else {
        5 - tw
    };
    let tail_run = repeat_one(".", tail);
    out.append(tail_run.as_str());
    proof {
        assert(" "@ =~= seq![' ']);
        assert(out@ =~= row_line(p@));
    }
    out
}

/// Renders the ranked pairs: a blank line, the header, the separator, and
/// one row per pair in the given order.
pub fn render(pairs: &Vec<ScoredPair>) -> (r: Vec<String>)
    ensures
        r@.len() == pairs@.len() + 3,
        r@[0]@ == Seq::<char>::empty(),
        r@[1]@ == header_line(),
        r@[2]@ == separator_line(),
        forall|i: int| 0 <= i < pairs@.len() ==> r@[i + 3]@ == row_line((#[trigger] pairs@[i])@),
{
    let mut r: Vec<String> = Vec::new();
    r.push(String::new());
    let mut header = String::from_str("OPTION NAME ");
    proof {
        reveal_strlit(" ");
    }
    let gap = repeat_one(" ", 25);
    header.append(gap.as_str());
    header.append(" CHANGE");
    proof {
        assert(header@ =~= header_line());
    }
    r.push(header);
    proof {
        reveal_strlit("-");
    }
    let sep = repeat_one("-", 50);
    proof {
        assert(sep@ =~= separator_line());
    }
    r.push(sep);
    let mut i: usize = 0;
    while i < pairs.len()
        invariant
            0 <= i <= pairs@.len(),
            r@.len() == i + 3,
            r@[0]@ == Seq::<char>::empty(),
            r@[1]@ == header_line(),
            r@[2]@ == separator_line(),
            forall|k: int| 0 <= k < i ==> r@[k + 3]@ == row_line((#[trigger] pairs@[k])@),
        decreases pairs@.len() - i,
    {
        let row = render_row(&pairs[i]);
        r.push(row);
        i = i + 1;
    }
    r
}

} // verus!
