//! Fixed-point decimal prices.
//!
//! A price is an exact decimal value held as a signed count of
//! billionths (`SCALE` subunits per whole unit). Price strings such as
//! `"13.98"` are parsed against an explicit decimal grammar: an optional
//! sign, up to `MAX_INT_DIGITS` integer digits and up to
//! `MAX_FRAC_DIGITS` fractional digits, with at least one digit overall.
//! Every value the grammar admits lies strictly between the two
//! sentinels `-PRICE_LIMIT` and `PRICE_LIMIT`, so sentinel values can
//! never be mistaken for parsed prices.

use vstd::prelude::*;
use vstd::string::StringSliceAdditionalSpecFns;

verus! {

/// Subunits per whole unit: prices carry nine fractional decimal digits.
pub const SCALE: i128 = 1_000_000_000;

/// Largest count of integer digits the price grammar accepts.
pub const MAX_INT_DIGITS: usize = 20;

/// Largest count of fractional digits the price grammar accepts.
pub const MAX_FRAC_DIGITS: usize = 9;

/// Sentinel magnitude; every parseable price is strictly inside
/// (-PRICE_LIMIT, PRICE_LIMIT).
pub const PRICE_LIMIT: i128 = 1_000_000_000_000_000_000_000_000_000_000;

/// ASCII codes the grammar mentions.
pub const ASCII_ZERO: u8 = 48;

pub const ASCII_NINE: u8 = 57;

pub const ASCII_DOT: u8 = 46;

pub const ASCII_PLUS: u8 = 43;

pub const ASCII_MINUS: u8 = 45;

/// Ten to the `n`.
pub open spec fn pow10(n: nat) -> int
    decreases n,
{
    if n == 0 {
        1
    } else {
        10 * pow10((n - 1) as nat)
    }
}

pub open spec fn is_ascii_digit(b: u8) -> bool {
    ASCII_ZERO <= b <= ASCII_NINE
}

pub open spec fn all_digits(s: Seq<u8>) -> bool {
    forall|i: int| 0 <= i < s.len() ==> is_ascii_digit(#[trigger] s[i])
}

/// Value of a string of decimal digits, most significant first.
pub open spec fn digits_value(s: Seq<u8>) -> int
    decreases s.len(),
{
    if s.len() == 0 {
        0
    } else {
        digits_value(s.drop_last()) * 10 + (s.last() - ASCII_ZERO)
    }
}

/// Index of the first `.` in `s`, or `s.len()` if there is none.
pub open spec fn first_dot(s: Seq<u8>) -> int
    decreases s.len(),
{
    if s.len() == 0 {
        0
    } else if s[0] == ASCII_DOT {
        0
    } else {
        1 + first_dot(s.drop_first())
    }
}

/// The unsigned decimal grammar: `digits`, or `digits '.' digits`, with
/// at least one digit overall, at most `MAX_INT_DIGITS` before the dot
/// and at most `MAX_FRAC_DIGITS` after it. The value is in `SCALE`
/// subunits.
pub open spec fn parse_unsigned(s: Seq<u8>) -> Option<int> {
    let d: int = first_dot(s);
    if d == s.len() {
        if 1 <= s.len() <= MAX_INT_DIGITS && all_digits(s) {
            Some(digits_value(s) * SCALE)
        } else {
            None
        }
    } else {
        let ip = s.take(d);
        let fp = s.skip(d + 1);
        if all_digits(ip) && all_digits(fp) && ip.len() <= MAX_INT_DIGITS && fp.len()
            <= MAX_FRAC_DIGITS && ip.len() + fp.len() >= 1 {
            Some(digits_value(ip) * SCALE + digits_value(fp) * pow10((MAX_FRAC_DIGITS - fp.len()) as nat))
        } else {
            None
        }
    }
}

/// The signed decimal grammar: an optional `+` or `-` before the
/// unsigned body.
pub open spec fn parse_price(s: Seq<u8>) -> Option<int> {
    if s.len() >= 1 && s[0] == ASCII_PLUS {
        parse_unsigned(s.drop_first())
    } else if s.len() >= 1 && s[0] == ASCII_MINUS {
        match parse_unsigned(s.drop_first()) {
            Some(v) => Some(-v),
            None => None,
        }
    } else {
        parse_unsigned(s)
    }
}

/// A fixed-point decimal price: `units` counts `SCALE`-ths of a unit.
#[derive(Clone, Copy, Debug, PartialEq, Eq, Structural)]
pub struct Price {
    pub units: i128,
}

impl Price {
    /// The price lies in the closed sentinel range.
    pub open spec fn wf(&self) -> bool {
        -PRICE_LIMIT <= self.units <= PRICE_LIMIT
    }

    /// The sentinel that stands below every parseable price.
    pub fn negative_sentinel() -> (r: Price)
        ensures
            r.units == -PRICE_LIMIT,
            r.wf(),
    {
        Price { units: -PRICE_LIMIT }
    }

    /// The sentinel that stands above every parseable price.
    pub fn positive_sentinel() -> (r: Price)
        ensures
            r.units == PRICE_LIMIT,
            r.wf(),
    {
        Price { units: PRICE_LIMIT }
    }

    /// A whole-unit price.
    pub fn from_integer(n: i64) -> (r: Price)
        ensures
            r.units == n * SCALE,
            r.wf(),
    {
        Price { units: (n as i128) * SCALE }
    }

    pub fn is_wf(&self) -> (r: bool)
        ensures
            r == self.wf(),
    {
        -PRICE_LIMIT <= self.units && self.units <= PRICE_LIMIT
    }

    /// Parse a price string against the decimal grammar. Returns a
    /// price exactly when the grammar admits the string, and then the
    /// value the grammar gives it.
    pub fn parse(s: &str) -> (r: Option<Price>)
        ensures
            match r {
                Some(p) => parse_price(s.spec_bytes()) == Some(p.units as int) && p.wf(),
                None => parse_price(s.spec_bytes()) is None,
            },
    {
        let b = s.as_bytes();
        match parse_bytes(b) {
            Some(v) => Some(Price { units: v }),
            None => None,
        }
    }
}

/// `first_dot` is in range, lands on a dot when it is inside the
/// sequence, and nothing before it is a dot.
pub proof fn lemma_first_dot(s: Seq<u8>)
    ensures
        0 <= first_dot(s) <= s.len(),
        first_dot(s) < s.len() ==> s[first_dot(s)] == ASCII_DOT,
        forall|i: int| 0 <= i < first_dot(s) ==> s[i] != ASCII_DOT,
    decreases s.len(),
{
    if s.len() == 0 {
    } else if s[0] == ASCII_DOT {
    } else {
        lemma_first_dot(s.drop_first());
        assert forall|i: int| 0 <= i < first_dot(s) implies s[i] != ASCII_DOT by {
            if i > 0 {
                assert(s.drop_first()[i - 1] == s[i]);
            }
        }
    }
}

/// A position with no dot before it, and a dot (or the end) at it, is
/// `first_dot`.
pub proof fn lemma_first_dot_unique(s: Seq<u8>, k: int)
    requires
        0 <= k <= s.len(),
        forall|i: int| 0 <= i < k ==> s[i] != ASCII_DOT,
        k < s.len() ==> s[k] == ASCII_DOT,
    ensures
        first_dot(s) == k,
{
    lemma_first_dot(s);
    let d: int = first_dot(s);
    if d < k {
        assert(s[d] != ASCII_DOT);
    } else if k < d {
        assert(s[k] != ASCII_DOT);
    }
}

/// Read the digit segment `b[start..end]` as a number, or report that
/// some byte in it is not a digit.
fn digits_segment(b: &[u8], start: usize, end: usize) -> (r: Option<i128>)
    requires
        start <= end <= b@.len(),
        end - start <= MAX_INT_DIGITS,
    ensures
        match r {
            Some(v) => all_digits(b@.subrange(start as int, end as int)) && v == digits_value(
                b@.subrange(start as int, end as int),
            ) && 0 <= v < pow10((end - start) as nat),
            None => !all_digits(b@.subrange(start as int, end as int)),
        },
{
    let ghost seg = b@.subrange(start as int, end as int);
    let mut acc: i128 = 0;
    let mut k: usize = start;
    proof {
        assert(seg.take(0) =~= Seq::<u8>::empty());
    }
    while k < end
        invariant
            start <= k <= end <= b@.len(),
            end - start <= MAX_INT_DIGITS,
            seg == b@.subrange(start as int, end as int),
            all_digits(seg.take(k - start)),
            acc == digits_value(seg.take(k - start)),
            0 <= acc < pow10((k - start) as nat),
        decreases end - k,
    {
        let byte: u8 = b[k];
        if byte < ASCII_ZERO || byte > ASCII_NINE {
            proof {
                assert(seg[k - start] == byte);
            }
            return None;
        }
        proof {
            assert(pow10(((k + 1) - start) as nat) == 10 * pow10((k - start) as nat));
            lemma_pow10_le_limit((end - start) as nat);
            assert(pow10((k - start) as nat) <= pow10((end - start) as nat)) by {
                lemma_pow10_increases((k - start) as nat, (end - start) as nat);
            }
        }
        acc = acc * 10 + ((byte - ASCII_ZERO) as i128);
        proof {
            let pre = seg.take(k - start);
            let pre1 = seg.take(k + 1 - start);
            assert(pre1.drop_last() =~= pre);
            assert(pre1.last() == byte);
        }
        k = k + 1;
    }
    proof {
        assert(seg.take(end - start) =~= seg);
    }
    Some(acc)
}

/// `pow10` grows with its argument.
pub proof fn lemma_pow10_increases(a: nat, e: nat)
    requires
        a <= e,
    ensures
        pow10(a) <= pow10(e),
        pow10(a) >= 1,
    decreases e,
{
    if a < e {
        lemma_pow10_increases(a, (e - 1) as nat);
    } else if e > 0 {
        lemma_pow10_increases((a - 1) as nat, (e - 1) as nat);
    }
}

/// Powers of ten up to the digit budget fit well inside the sentinel.
proof fn lemma_pow10_le_limit(e: nat)
    requires
        e <= MAX_INT_DIGITS,
    ensures
        pow10(e) <= 100_000_000_000_000_000_000,
{
    reveal_with_fuel(pow10, 21);
    lemma_pow10_increases(e, 20);
}

/// Ten to the `e`, for small exponents.
fn pow10_exec(e: usize) -> (r: i128)
    requires
        e <= MAX_FRAC_DIGITS,
    ensures
        r == pow10(e as nat),
        1 <= r <= 1_000_000_000,
{
    let mut r: i128 = 1;
    let mut k: usize = 0;
    proof {
        reveal_with_fuel(pow10, 10);
    }
    while k < e
        invariant
            0 <= k <= e <= MAX_FRAC_DIGITS,
            r == pow10(k as nat),
            1 <= r <= 1_000_000_000,
        decreases e - k,
    {
        proof {
            assert(pow10((k + 1) as nat) == 10 * pow10(k as nat));
            lemma_pow10_increases((k + 1) as nat, 9);
            assert(pow10(9) == 1_000_000_000) by {
                reveal_with_fuel(pow10, 10);
            }
        }
        r = r * 10;
        k = k + 1;
    }
    r
}

/// Parse the unsigned body `b[start..]` against the grammar.
fn parse_unsigned_bytes(b: &[u8], start: usize) -> (r: Option<i128>)
    requires
        start <= b@.len(),
    ensures
        match r {
            Some(v) => parse_unsigned(b@.subrange(start as int, b@.len() as int)) == Some(v as int)
                && 0 <= v < PRICE_LIMIT,
            None => parse_unsigned(b@.subrange(start as int, b@.len() as int)) is None,
        },
{
    let n: usize = b.len();
    let ghost sub = b@.subrange(start as int, n as int);
    // Find the first dot.
    let mut j: usize = start;
    while j < n && b[j] != ASCII_DOT
        invariant
            start <= j <= n == b@.len(),
            sub == b@.subrange(start as int, n as int),
            forall|i: int| start <= i < j ==> b@[i] != ASCII_DOT,
        decreases n - j,
    {
        j = j + 1;
    }
    proof {
        assert forall|i: int| 0 <= i < j - start implies sub[i] != ASCII_DOT by {
            assert(sub[i] == b@[start + i]);
        }
        if j < n {
            assert(sub[j - start] == b@[j as int]);
        }
        lemma_first_dot_unique(sub, j - start);
    }
    if j == n {
        // No dot: the whole segment is the integer part.
        let ilen: usize = n - start;
        if ilen < 1 || ilen > MAX_INT_DIGITS {
            return None;
        }
        match digits_segment(b, start, n) {
            Some(v) => {
                proof {
                    assert(sub =~= b@.subrange(start as int, n as int));
                    lemma_pow10_le_limit(ilen as nat);
                }
                Some(v * SCALE)
            },
            None => None,
        }
    } else {
        // A dot at j: integer part before it, fraction after it.
        let ilen: usize = j - start;
        let flen: usize = n - j - 1;
        if ilen > MAX_INT_DIGITS || flen > MAX_FRAC_DIGITS || ilen + flen < 1 {
            return None;
        }
        let ghost ip = sub.take(j - start);
        let ghost fp = sub.skip(j - start + 1);
        proof {
            assert(ip =~= b@.subrange(start as int, j as int));
            assert(fp =~= b@.subrange(j + 1, n as int));
        }
        let iv: i128 = match digits_segment(b, start, j) {
            Some(v) => v,
            None => {
                return None;
            },
        };
        let fv: i128 = match digits_segment(b, j + 1, n) {
            Some(v) => v,
            None => {
                return None;
            },
        };
        proof {
            lemma_pow10_le_limit(ilen as nat);
            lemma_frac_scaled_bound(fv as int, flen as nat);
        }
        let scaled_frac: i128 = fv * pow10_exec(MAX_FRAC_DIGITS - flen);
        Some(iv * SCALE + scaled_frac)
    }
}

/// A fraction of at most `MAX_FRAC_DIGITS` digits, scaled out to the
/// full `SCALE`, stays below `SCALE`.
proof fn lemma_frac_scaled_bound(fv: int, flen: nat)
    requires
        flen <= MAX_FRAC_DIGITS,
        0 <= fv < pow10(flen),
    ensures
        0 <= fv * pow10((MAX_FRAC_DIGITS - flen) as nat) < SCALE,
{
    let q: int = pow10((MAX_FRAC_DIGITS - flen) as nat);
    lemma_pow10_increases(0, (MAX_FRAC_DIGITS - flen) as nat);
    assert(fv * q <= (pow10(flen) - 1) * q) by (nonlinear_arith)
        requires
            fv < pow10(flen),
            q >= 1,
    ;
    assert(pow10(flen) * q == pow10(MAX_FRAC_DIGITS as nat)) by {
        lemma_pow10_adds(flen, (MAX_FRAC_DIGITS - flen) as nat);
    }
    assert(pow10(MAX_FRAC_DIGITS as nat) == SCALE) by {
        reveal_with_fuel(pow10, 10);
    }
    assert((pow10(flen) - 1) * q == pow10(flen) * q - q) by (nonlinear_arith);
    assert(fv * q >= 0) by (nonlinear_arith)
        requires
            fv >= 0,
            q >= 1,
    ;
}

/// `pow10` turns addition of exponents into multiplication.
proof fn lemma_pow10_adds(a: nat, c: nat)
    ensures
        pow10(a + c) == pow10(a) * pow10(c),
    decreases a,
{
    if a == 0 {
    } else {
        lemma_pow10_adds((a - 1) as nat, c);
        assert(pow10(a + c) == 10 * pow10((a - 1 + c) as nat));
        assert(10 * (pow10((a - 1) as nat) * pow10(c)) == (10 * pow10((a - 1) as nat)) * pow10(c))
            by (nonlinear_arith);
    }
}

/// Parse a whole byte string against the signed grammar.
fn parse_bytes(b: &[u8]) -> (r: Option<i128>)
    ensures
        match r {
            Some(v) => parse_price(b@) == Some(v as int) && -PRICE_LIMIT < v < PRICE_LIMIT,
            None => parse_price(b@) is None,
        },
{
    let n: usize = b.len();
    if n >= 1 && (b[0] == ASCII_PLUS || b[0] == ASCII_MINUS) {
        let neg = b[0] == ASCII_MINUS;
        proof {
            assert(b@.subrange(1, n as int) =~= b@.drop_first());
        }
        match parse_unsigned_bytes(b, 1) {
            Some(v) => Some(if neg { -v } else { v }),
            None => None,
        }
    } else {
        proof {
            assert(b@.subrange(0, n as int) =~= b@);
        }
        match parse_unsigned_bytes(b, 0) {
            Some(v) => Some(v),
            None => None,
        }
    }
}


/// A digit string's value is bounded by ten to its length.
pub proof fn lemma_digits_value_bound(s: Seq<u8>)
    requires
        all_digits(s),
    ensures
        0 <= digits_value(s) < pow10(s.len()),
    decreases s.len(),
{
    if s.len() == 0 {
    } else {
        assert(all_digits(s.drop_last())) by {
            assert(forall|i: int| 0 <= i < s.len() - 1 ==> s.drop_last()[i] == s[i]);
        }
        lemma_digits_value_bound(s.drop_last());
        assert(pow10(s.len()) == 10 * pow10((s.len() - 1) as nat));
        assert(is_ascii_digit(s.last()));
    }
}

/// Every value the unsigned grammar admits is below the sentinel.
pub proof fn lemma_parse_unsigned_range(s: Seq<u8>)
    ensures
        parse_unsigned(s) matches Some(v) ==> 0 <= v < PRICE_LIMIT,
{
    let d: int = first_dot(s);
    if d == s.len() {
        if 1 <= s.len() <= MAX_INT_DIGITS && all_digits(s) {
            lemma_digits_value_bound(s);
            lemma_pow10_le_limit(s.len());
        }
    } else {
        let ip = s.take(d);
        let fp = s.skip(d + 1);
        if all_digits(ip) && all_digits(fp) && ip.len() <= MAX_INT_DIGITS && fp.len()
            <= MAX_FRAC_DIGITS && ip.len() + fp.len() >= 1 {
            lemma_digits_value_bound(ip);
            lemma_digits_value_bound(fp);
            lemma_pow10_le_limit(ip.len());
            lemma_frac_scaled_bound(digits_value(fp), fp.len());
        }
    }
}

/// Every value the signed grammar admits is strictly inside the
/// sentinel range.
pub proof fn lemma_parse_price_range(s: Seq<u8>)
    ensures
        parse_price(s) matches Some(v) ==> -PRICE_LIMIT < v < PRICE_LIMIT,
{
    if s.len() >= 1 && s[0] == ASCII_PLUS {
        lemma_parse_unsigned_range(s.drop_first());
    } else if s.len() >= 1 && s[0] == ASCII_MINUS {
        lemma_parse_unsigned_range(s.drop_first());
    } else {
        lemma_parse_unsigned_range(s);
    }
}

} // verus!
