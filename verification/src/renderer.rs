//! Gauge rendering: a fixed-width text bar for one statistics record.
//!
//! The renderer has three terminal outcomes. A zero span between high
//! and low is reported as a degenerate range and no bar is drawn. The
//! raw ratio `(current - low) / (high - low)` is otherwise scaled to
//! hundredths of a percent and rounded half away from zero *first*; the
//! bound check and the bar length are both derived from that rounded
//! value, never from the raw ratio. A rounded percentage outside
//! [0, 100] is reported as out of bounds and no bar is drawn. Otherwise
//! the bar holds `floor(percentage / 2)` solid blocks out of fifty.

use vstd::prelude::*;

use crate::price::Price;
use vstd::string::{StrSliceExecFns, StringExecFns};

verus! {

/// Total width of the bar, in block characters.
pub const BAR_WIDTH: usize = 50;

/// Width the percentage number is right-aligned to.
pub const PERCENT_PAD: usize = 10;

/// Rounded percentages live in [0, PERCENT_MAX] hundredths of a percent.
pub const PERCENT_MAX: i128 = 10_000;

/// `num / den` for positive `den`, rounded half away from zero.
pub open spec fn div_round_half_away(num: int, den: int) -> int {
    if num >= 0 {
        (2 * num + den) / (2 * den)
    } else {
        -((2 * -num + den) / (2 * den))
    }
}

/// The gauge percentage of `current` between `low` and `high`, in
/// hundredths of a percent, rounded half away from zero. Meaningful
/// only for `high != low`.
pub open spec fn spec_percentage(high: int, low: int, current: int) -> int {
    let num = (current - low) * 10_000;
    let den = high - low;
    if den > 0 {
        div_round_half_away(num, den)
    } else {
        div_round_half_away(-num, -den)
    }
}

/// The character for one decimal digit.
pub open spec fn digit_char(d: int) -> char {
    if d == 0 {
        '0'
    } else if d == 1 {
        '1'
    } else if d == 2 {
        '2'
    } else if d == 3 {
        '3'
    } else if d == 4 {
        '4'
    } else if d == 5 {
        '5'
    } else if d == 6 {
        '6'
    } else if d == 7 {
        '7'
    } else if d == 8 {
        '8'
    } else {
        '9'
    }
}

/// The decimal digits of `n`, most significant first.
pub open spec fn dec_str(n: int) -> Seq<char>
    decreases n,
{
    if n < 10 {
        seq![digit_char(n)]
    } else {
        dec_str(n / 10).push(digit_char(n % 10))
    }
}

/// A rounded percentage as text: the whole part, a dot, and exactly two
/// fractional digits.
pub open spec fn pct_text(p: int) -> Seq<char> {
    dec_str(p / 100) + seq!['.'] + seq![digit_char((p % 100) / 10), digit_char((p % 100) % 10)]
}

/// `s` right-aligned in a field of `w` spaces.
pub open spec fn pad_left(s: Seq<char>, w: int) -> Seq<char> {
    if s.len() >= w {
        s
    } else {
        Seq::new((w - s.len()) as nat, |i: int| ' ') + s
    }
}

/// The whole gauge line for rounded percentage `p` and the given label.
pub open spec fn spec_line(p: int, label: Seq<char>) -> Seq<char> {
    pad_left(pct_text(p), PERCENT_PAD as int) + seq!['%', '|'] + Seq::new(
        (p / 200) as nat,
        |i: int| '█',
    ) + Seq::new((BAR_WIDTH - p / 200) as nat, |i: int| '░') + seq!['|'] + label
}

/// How rendering one statistics record ended.
#[derive(Clone, Debug)]
pub enum RenderOutcome {
    /// `high == low`: the percentage is undefined, no bar is drawn.
    DegenerateRange,
    /// The rounded percentage fell outside [0, 100], no bar is drawn.
    OutOfBounds,
    /// A bar was drawn.
    Rendered {
        /// The rounded percentage with a trailing `%`, e.g. `"50.00%"`.
        percentage: String,
        /// Solid blocks in the bar, out of `BAR_WIDTH`.
        filled: usize,
        /// Light blocks in the bar.
        empty: usize,
        /// The full gauge line.
        line: String,
    },
}

/// Render one gauge line from a high/low/current triple and a label.
///
/// The outcome is `DegenerateRange` exactly when `high == low`,
/// `OutOfBounds` exactly when the rounded percentage falls outside
/// [0, 100], and otherwise a bar whose length is derived from the
/// rounded percentage.
/// What a correct rendering of the triple looks like: the outcome kind
/// is decided by the span and by the rounded percentage alone, and a
/// drawn bar's text is exactly the spec line.
pub open spec fn render_matches(
    high: Price,
    low: Price,
    current: Price,
    label: Seq<char>,
    r: RenderOutcome,
) -> bool {
    &&& (r is DegenerateRange <==> high.units == low.units)
    &&& (high.units != low.units ==> {
        let p = spec_percentage(high.units as int, low.units as int, current.units as int);
        &&& (r is OutOfBounds <==> !(0 <= p <= PERCENT_MAX))
        &&& (r matches RenderOutcome::Rendered { percentage, filled, empty, line } ==> {
            &&& 0 <= p <= PERCENT_MAX
            &&& filled == p / 200
            &&& empty == BAR_WIDTH - p / 200
            &&& percentage@ == pct_text(p) + seq!['%']
            &&& line@ == spec_line(p, label)
        })
    })
}

pub fn render(high: Price, low: Price, current: Price, label: &str) -> (r: RenderOutcome)
    requires
        high.wf(),
        low.wf(),
        current.wf(),
    ensures
        render_matches(high, low, current, label@, r),
{
    let h: i128 = high.units;
    let l: i128 = low.units;
    let c: i128 = current.units;
    if h == l {
        return RenderOutcome::DegenerateRange;
    }
    let num: i128 = (c - l) * 10_000;
    let den: i128 = h - l;
    let p: i128 = div_round_exec(num, den);
    if p < 0 || p > PERCENT_MAX {
        return RenderOutcome::OutOfBounds;
    }
    let whole: i128 = p / 100;
    let frac: i128 = p % 100;
    let filled: usize = (p / 200) as usize;
    let empty: usize = BAR_WIDTH - filled;

    let mut pct = dec_string(whole);
    proof {
        reveal_strlit(".");
        lemma_dec_str_len(whole as int);
    }
    pct.append(".");
    pct.append(digit_str((frac / 10) as u8));
    pct.append(digit_str((frac % 10) as u8));
    assert(pct@ =~= pct_text(p as int));

    let pad: usize = PERCENT_PAD - pct.as_str().unicode_len();
    let mut line = spaces_string(pad);
    line.append(pct.as_str());
    proof {
        reveal_strlit("%|");
        reveal_strlit("|");
        reveal_strlit("%");
    }
    line.append("%|");
    let bar = bar_string(filled, empty);
    line.append(bar.as_str());
    line.append("|");
    line.append(label);
    assert(line@ =~= spec_line(p as int, label@)) by {
        assert("%|"@ =~= seq!['%', '|']);
        assert("|"@ =~= seq!['|']);
        assert(pad_left(pct_text(p as int), PERCENT_PAD as int) =~= Seq::new(
            pad as nat,
            |i: int| ' ',
        ) + pct_text(p as int));
    }
    let percentage = pct.concat("%");
    assert(percentage@ =~= pct_text(p as int) + seq!['%']) by {
        assert("%"@ =~= seq!['%']);
    }
    RenderOutcome::Rendered { percentage, filled, empty, line }
}

/// `num / den` rounded half away from zero, as `spec_percentage` reads
/// it: the pair is sign-normalised first.
fn div_round_exec(num: i128, den: i128) -> (r: i128)
    requires
        den != 0,
        -40_000_000_000_000_000_000_000_000_000_000_000 <= num
            <= 40_000_000_000_000_000_000_000_000_000_000_000,
        -4_000_000_000_000_000_000_000_000_000_000 <= den
            <= 4_000_000_000_000_000_000_000_000_000_000,
    ensures
        r == (if den > 0 {
            div_round_half_away(num as int, den as int)
        } else {
            div_round_half_away(-(num as int), -(den as int))
        }),
{
    let (n2, d2): (i128, i128) = if den > 0 {
        (num, den)
    } else {
        (-num, -den)
    };
    if n2 >= 0 {
        (2 * n2 + d2) / (2 * d2)
    } else {
        -((2 * -n2 + d2) / (2 * d2))
    }
}

/// The length of `dec_str` for numbers up to a thousand.
proof fn lemma_dec_str_len(n: int)
    requires
        0 <= n < 1000,
    ensures
        n < 10 ==> dec_str(n).len() == 1,
        10 <= n < 100 ==> dec_str(n).len() == 2,
        100 <= n ==> dec_str(n).len() == 3,
{
    reveal_with_fuel(dec_str, 4);
}

/// One decimal digit as a string slice.
fn digit_str(d: u8) -> (r: &'static str)
    requires
        d < 10,
    ensures
        r@ == seq![digit_char(d as int)],
{
    let r: &'static str = match d {
        0 => "0",
        1 => "1",
        2 => "2",
        3 => "3",
        4 => "4",
        5 => "5",
        6 => "6",
        7 => "7",
        8 => "8",
        _ => "9",
    };
    proof {
        reveal_strlit("0");
        reveal_strlit("1");
        reveal_strlit("2");
        reveal_strlit("3");
        reveal_strlit("4");
        reveal_strlit("5");
        reveal_strlit("6");
        reveal_strlit("7");
        reveal_strlit("8");
        reveal_strlit("9");
    }
    assert(r@ =~= seq![digit_char(d as int)]);
    r
}

/// The decimal digits of `n` as a string.
fn dec_string(n: i128) -> (r: String)
    requires
        0 <= n,
    ensures
        r@ == dec_str(n as int),
    decreases n,
{
    if n < 10 {
        digit_str(n as u8).to_owned()
    } else {
        let mut s = dec_string(n / 10);
        s.append(digit_str((n % 10) as u8));
        proof {
            assert(dec_str((n / 10) as int).push(digit_char(n as int % 10)) =~= dec_str(
                (n / 10) as int,
            ) + seq![digit_char(n as int % 10)]);
        }
        s
    }
}

/// `n` spaces.
fn spaces_string(n: usize) -> (r: String)
    ensures
        r@ =~= Seq::new(n as nat, |i: int| ' '),
{
    let mut s = String::new();
    let mut k: usize = 0;
    proof {
        reveal_strlit(" ");
    }
    while k < n
        invariant
            0 <= k <= n,
            s@ =~= Seq::new(k as nat, |i: int| ' '),
        decreases n - k,
    {
        s.append(" ");
        proof {
            reveal_strlit(" ");
            assert(" "@ =~= seq![' ']);
            assert(Seq::new((k + 1) as nat, |i: int| ' ') =~= Seq::new(k as nat, |i: int| ' ')
                + seq![' ']);
        }
        k = k + 1;
    }
    s
}

/// `filled` solid blocks followed by `empty` light blocks.
fn bar_string(filled: usize, empty: usize) -> (r: String)
    ensures
        r@ =~= Seq::new(filled as nat, |i: int| '█') + Seq::new(empty as nat, |i: int| '░'),
{
    let mut s = String::new();
    let mut k: usize = 0;
    proof {
        reveal_strlit("█");
        reveal_strlit("░");
    }
    while k < filled
        invariant
            0 <= k <= filled,
            s@ =~= Seq::new(k as nat, |i: int| '█'),
        decreases filled - k,
    {
        s.append("█");
        proof {
            reveal_strlit("█");
            assert("█"@ =~= seq!['█']);
            assert(Seq::new((k + 1) as nat, |i: int| '█') =~= Seq::new(k as nat, |i: int| '█')
                + seq!['█']);
        }
        k = k + 1;
    }
    let mut k2: usize = 0;
    while k2 < empty
        invariant
            0 <= k2 <= empty,
            s@ =~= Seq::new(filled as nat, |i: int| '█') + Seq::new(k2 as nat, |i: int| '░'),
        decreases empty - k2,
    {
        s.append("░");
        proof {
            reveal_strlit("░");
            assert("░"@ =~= seq!['░']);
            assert(Seq::new((k2 + 1) as nat, |i: int| '░') =~= Seq::new(k2 as nat, |i: int| '░')
                + seq!['░']);
        }
        k2 = k2 + 1;
    }
    s
}


/// Rendering is deterministic: two outcomes for the same triple and
/// label are of the same kind, and drawn bars agree character for
/// character.
pub proof fn lemma_render_deterministic(
    high: Price,
    low: Price,
    current: Price,
    label: Seq<char>,
    a: RenderOutcome,
    b: RenderOutcome,
)
    requires
        render_matches(high, low, current, label, a),
        render_matches(high, low, current, label, b),
    ensures
        a is DegenerateRange <==> b is DegenerateRange,
        a is OutOfBounds <==> b is OutOfBounds,
        a is Rendered <==> b is Rendered,
        a matches RenderOutcome::Rendered { percentage: pa, filled: fa, empty: ea, line: la }
            ==> b matches RenderOutcome::Rendered { percentage: pb, filled: fb, empty: eb, line: lb }
            ==> pa@ == pb@ && fa == fb && ea == eb && la@ == lb@,
{
}


/// The fixed rounding rule really rounds: for a positive denominator
/// the rounded quotient is within half a unit of the exact ratio, with
/// ties resolved away from zero.
pub proof fn lemma_round_half_away_accuracy(num: int, den: int)
    requires
        den > 0,
    ensures
        ({
            let r = div_round_half_away(num, den);
            -den <= 2 * (r * den - num) <= den
        }),
{
    if num >= 0 {
        let q = (2 * num + den) / (2 * den);
        let rem = (2 * num + den) % (2 * den);
        vstd::arithmetic::div_mod::lemma_fundamental_div_mod(2 * num + den, 2 * den);
        vstd::arithmetic::div_mod::lemma_mod_bound(2 * num + den, 2 * den);
        assert((2 * den) * q == 2 * (q * den)) by (nonlinear_arith);
        assert(2 * (q * den - num) == den - rem);
    } else {
        let m = -num;
        let q = (2 * m + den) / (2 * den);
        let rem = (2 * m + den) % (2 * den);
        vstd::arithmetic::div_mod::lemma_fundamental_div_mod(2 * m + den, 2 * den);
        vstd::arithmetic::div_mod::lemma_mod_bound(2 * m + den, 2 * den);
        assert((2 * den) * q == 2 * (q * den)) by (nonlinear_arith);
        assert(2 * (q * den - m) == den - rem);
        assert((-q) * den == -(q * den)) by (nonlinear_arith);
    }
}

} // verus!
