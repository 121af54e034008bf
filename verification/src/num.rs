//! Exact fixed-point numbers with nine decimal places.
//!
//! A value is a signed count of billionths held in an `i64`; parsing and
//! formatting of decimal numerals is specified character by character.

use vstd::prelude::*;

verus! {

/// Number of decimal places carried by a fixed-point value.
pub const FRAC_DIGITS: u32 = 9;

/// Scale factor: one whole unit is `SCALE` billionths.
pub const SCALE: u64 = 1_000_000_000;

/// Largest representable magnitude, in billionths (`i64::MAX`).
pub const MAX_MAG: u64 = 9_223_372_036_854_775_807;

pub open spec fn is_digit(c: char) -> bool {
    48 <= c as u32 <= 57
}

pub open spec fn digit_val(c: char) -> int {
    c as u32 - 48
}

pub open spec fn all_digits(s: Seq<char>) -> bool {
    forall|i: int| 0 <= i < s.len() ==> is_digit(#[trigger] s[i])
}

/// Value of a digit string read in base ten.
pub open spec fn digits_val(s: Seq<char>) -> int
    decreases s.len(),
{
    if s.len() == 0 {
        0
    } else {
        digits_val(s.drop_last()) * 10 + digit_val(s.last())
    }
}

pub open spec fn pow10(k: nat) -> int
    decreases k,
{
    if k == 0 {
        1
    } else {
        10 * pow10((k - 1) as nat)
    }
}

pub proof fn lemma_pow10_pos(k: nat)
    ensures
        pow10(k) >= 1,
    decreases k,
{
    if k > 0 {
        lemma_pow10_pos((k - 1) as nat);
    }
}

pub proof fn lemma_digits_val_nonneg(s: Seq<char>)
    requires
        all_digits(s),
    ensures
        digits_val(s) >= 0,
    decreases s.len(),
{
    if s.len() > 0 {
        assert(all_digits(s.drop_last()));
        lemma_digits_val_nonneg(s.drop_last());
    }
}

/// A digit string's value is below ten to the power of its length.
pub proof fn lemma_digits_val_bound(s: Seq<char>)
    requires
        all_digits(s),
    ensures
        digits_val(s) < pow10(s.len()),
    decreases s.len(),
{
    if s.len() == 0 {
    } else {
        assert(all_digits(s.drop_last()));
        lemma_digits_val_bound(s.drop_last());
        lemma_digits_val_nonneg(s.drop_last());
        let p = pow10((s.len() - 1) as nat);
        let d = digits_val(s.drop_last());
        assert(d <= p - 1);
        assert(d * 10 <= (p - 1) * 10) by (nonlinear_arith)
            requires d <= p - 1;
        assert(pow10(s.len()) == 10 * p);
    }
}

/// Reading digits appended on the right multiplies the prefix by a power of ten.
pub proof fn lemma_digits_val_concat(a: Seq<char>, b: Seq<char>)
    ensures
        digits_val(a + b) == digits_val(a) * pow10(b.len()) + digits_val(b),
    decreases b.len(),
{
    if b.len() == 0 {
        assert(a + b =~= a);
    } else {
        let b0 = b.drop_last();
        lemma_digits_val_concat(a, b0);
        assert((a + b).drop_last() =~= a + b0);
        assert((a + b).last() == b.last());
        let da = digits_val(a);
        let p0 = pow10(b0.len());
        assert(pow10(b.len()) == 10 * p0);
        assert((da * p0 + digits_val(b0)) * 10 + digit_val(b.last()) == da * (10 * p0)
            + (digits_val(b0) * 10 + digit_val(b.last()))) by (nonlinear_arith);
    }
}

/// Reads the digit run `s[from..to]`; `None` when a character is not a digit
/// or the value exceeds `MAX_MAG`.
pub fn digits_value(s: &str, from: usize, to: usize) -> (r: Option<u64>)
    requires
        from <= to <= s@.len(),
    ensures
        match r {
            Some(v) => all_digits(s@.subrange(from as int, to as int)) && v as int == digits_val(
                s@.subrange(from as int, to as int),
            ) && v <= MAX_MAG,
            None => !all_digits(s@.subrange(from as int, to as int)) || digits_val(
                s@.subrange(from as int, to as int),
            ) > MAX_MAG,
        },
{
    let ghost sub = s@.subrange(from as int, to as int);
    let mut i = from;
    let mut acc: u64 = 0;
    while i < to
        invariant
            from <= i <= to <= s@.len(),
            all_digits(s@.subrange(from as int, i as int)),
            acc as int == digits_val(s@.subrange(from as int, i as int)),
            acc <= MAX_MAG,
        decreases to - i,
    {
        let ghost pre = s@.subrange(from as int, i as int);
        let c = s.get_char(i);
        let d = c as u32;
        if d < 48 || d > 57 {
            proof {
                assert(s@.subrange(from as int, to as int)[i - from] == c);
                assert(!all_digits(s@.subrange(from as int, to as int)));
            }
            return None;
        }
        let dv = (d - 48) as u64;
        let ghost pre1 = s@.subrange(from as int, i + 1);
        proof {
            assert(pre1.drop_last() =~= pre);
            assert(pre1.last() == c);
            assert(digits_val(pre1) == acc * 10 + dv);
        }
        if acc > (MAX_MAG - dv) / 10 {
            proof {
                // The run read so far already overflows; any digits that follow
                // only increase the value.
                assert(acc * 10 + dv > MAX_MAG) by (nonlinear_arith)
                    requires acc > (MAX_MAG - dv) / 10, dv < 10, acc >= 0;
                let rest = s@.subrange(i + 1, to as int);
                assert(pre1 + rest =~= s@.subrange(from as int, to as int));
                lemma_digits_val_concat(pre1, rest);
                if all_digits(s@.subrange(from as int, to as int)) {
                    assert(all_digits(rest)) by {
                        assert forall|k: int| 0 <= k < rest.len() implies is_digit(#[trigger] rest[k]) by {
                            assert(rest[k] == s@.subrange(from as int, to as int)[i + 1 - from + k]);
                        }
                    }
                    lemma_digits_val_nonneg(rest);
                    lemma_pow10_pos(rest.len());
                    assert(digits_val(pre1) * pow10(rest.len()) >= digits_val(pre1) * 1)
                        by (nonlinear_arith)
                        requires digits_val(pre1) >= 0, pow10(rest.len()) >= 1;
                }
            }
            return None;
        }
        proof {
            assert(acc * 10 + dv <= MAX_MAG) by (nonlinear_arith)
                requires acc <= (MAX_MAG - dv) / 10, dv < 10, acc >= 0;
            assert(all_digits(pre1)) by {
                assert forall|k: int| 0 <= k < pre1.len() implies is_digit(#[trigger] pre1[k]) by {
                    if k < pre1.len() - 1 {
                        assert(pre1[k] == pre[k]);
                    }
                }
            }
        }
        acc = acc * 10 + dv;
        i = i + 1;
    }
    proof {
        assert(s@.subrange(from as int, i as int) =~= sub);
    }
    Some(acc)
}

/// Index of the first `.` in `b`, or `-1` when there is none.
pub open spec fn first_dot(b: Seq<char>) -> int
    decreases b.len(),
{
    if b.len() == 0 {
        -1
    } else if b[0] == '.' {
        0
    } else {
        let r = first_dot(b.skip(1));
        if r < 0 {
            -1
        } else {
            r + 1
        }
    }
}

pub proof fn lemma_first_dot_at(b: Seq<char>, j: int)
    requires
        0 <= j < b.len(),
        b[j] == '.',
        forall|k: int| 0 <= k < j ==> b[k] != '.',
    ensures
        first_dot(b) == j,
    decreases b.len(),
{
    if j > 0 {
        lemma_first_dot_at(b.skip(1), j - 1);
    }
}

pub proof fn lemma_first_dot_none(b: Seq<char>)
    requires
        forall|k: int| 0 <= k < b.len() ==> b[k] != '.',
    ensures
        first_dot(b) == -1,
    decreases b.len(),
{
    if b.len() > 0 {
        lemma_first_dot_none(b.skip(1));
    }
}

/// The numeral without its optional leading sign.
pub open spec fn dec_body(s: Seq<char>) -> Seq<char> {
    if s.len() > 0 && (s[0] == '+' || s[0] == '-') {
        s.skip(1)
    } else {
        s
    }
}

pub open spec fn dec_is_neg(s: Seq<char>) -> bool {
    s.len() > 0 && s[0] == '-'
}

/// Grammar of an unsigned decimal numeral: digits with at most one point,
/// at least one digit or point-adjacent digit, and at most nine fraction
/// digits.
pub open spec fn body_valid(b: Seq<char>) -> bool {
    let d = first_dot(b);
    if d < 0 {
        b.len() > 0 && all_digits(b)
    } else {
        b.len() >= 2 && all_digits(b.take(d)) && all_digits(b.skip(d + 1)) && b.skip(d + 1).len()
            <= FRAC_DIGITS
    }
}

/// Magnitude of a numeral body, in billionths.
pub open spec fn body_mag(b: Seq<char>) -> int {
    let d = first_dot(b);
    if d < 0 {
        digits_val(b) * SCALE
    } else {
        let frac = b.skip(d + 1);
        digits_val(b.take(d)) * SCALE + digits_val(frac) * pow10(
            (FRAC_DIGITS - frac.len()) as nat,
        )
    }
}

/// A numeral this library accepts: well-formed body whose magnitude fits in
/// an `i64` count of billionths.
pub open spec fn dec_valid(s: Seq<char>) -> bool {
    body_valid(dec_body(s)) && body_mag(dec_body(s)) <= MAX_MAG
}

/// The signed value of a valid numeral, in billionths.
pub open spec fn dec_value(s: Seq<char>) -> int {
    if dec_is_neg(s) {
        -body_mag(dec_body(s))
    } else {
        body_mag(dec_body(s))
    }
}

fn pow10_u64(k: u32) -> (r: u64)
    requires
        k <= FRAC_DIGITS,
    ensures
        r as int == pow10(k as nat),
        r <= SCALE,
{
    let mut j: u32 = 0;
    let mut p: u64 = 1;
    while j < k
        invariant
            j <= k <= 9,
            p as int == pow10(j as nat),
            p <= SCALE,
        decreases k - j,
    {
        proof {
            lemma_pow10_pos(j as nat);
            assert(pow10((j + 1) as nat) == 10 * pow10(j as nat));
            lemma_pow10_bound(j as nat);
        }
        p = p * 10;
        j = j + 1;
    }
    p
}

proof fn lemma_pow10_bound(k: nat)
    ensures
        k <= 8 ==> pow10(k) <= 100_000_000,
        k <= 9 ==> pow10(k) <= 1_000_000_000,
{
    reveal_with_fuel(pow10, 10);
    if k <= 8 {
        lemma_pow10_le(k, 8);
        assert(pow10(8) == 100_000_000);
    }
    if k <= 9 {
        lemma_pow10_le(k, 9);
        assert(pow10(9) == 1_000_000_000);
    }
}

/// Parses a signed decimal numeral into billionths.
///
/// Returns `Some` exactly on numerals the grammar [`dec_valid`] accepts, and
/// then returns precisely [`dec_value`].
pub fn parse_dec(s: &str) -> (r: Option<i64>)
    ensures
        r is Some <==> dec_valid(s@),
        r matches Some(v) ==> v as int == dec_value(s@),
{
    let n = s.unicode_len();
    let mut start: usize = 0;
    let mut neg = false;
    if n > 0 {
        let c0 = s.get_char(0);
        if c0 == '+' {
            start = 1;
        } else if c0 == '-' {
            neg = true;
            start = 1;
        }
    }
    let ghost b = dec_body(s@);
    proof {
        assert(b =~= s@.subrange(start as int, n as int));
        assert(neg == dec_is_neg(s@));
    }
    // Locate the first decimal point of the body.
    let mut i = start;
    let mut dot: Option<usize> = None;
    while i < n && dot.is_none()
        invariant
            start <= i <= n == s@.len(),
            b == s@.subrange(start as int, n as int),
            match dot {
                Some(j) => start <= j < n && i == j && s@[j as int] == '.' && (forall|k: int|
                    start <= k < j ==> s@[k] != '.'),
                None => forall|k: int| start <= k < i ==> s@[k] != '.',
            },
        decreases n - i + (if dot is Some { 0int } else { 1int }),
    {
        let c = s.get_char(i);
        if c == '.' {
            dot = Some(i);
        } else {
            i = i + 1;
        }
    }
    proof {
        match dot {
            Some(j) => {
                assert(b[j - start] == '.');
                assert(forall|k: int| 0 <= k < j - start ==> b[k] != '.');
                lemma_first_dot_at(b, j - start);
            },
            None => {
                assert(forall|k: int| 0 <= k < b.len() ==> b[k] != '.');
                lemma_first_dot_none(b);
            },
        }
    }
    match dot {
        None => {
            if start == n {
                return None;
            }
            let iv = match digits_value(s, start, n) {
                Some(v) => v,
                None => {
                    proof {
                        if all_digits(b) && digits_val(b) > MAX_MAG {
                            lemma_pow10_pos(9);
                            assert(digits_val(b) * SCALE >= digits_val(b) * 1)
                                by (nonlinear_arith)
                                requires digits_val(b) > 0;
                        }
                    }
                    return None;
                },
            };
            let mag = (iv as u128) * (SCALE as u128);
            if mag > MAX_MAG as u128 {
                return None;
            }
            let m = mag as i64;
            if neg {
                Some(-m)
            } else {
                Some(m)
            }
        },
        Some(d) => {
            let ghost dd = d - start;
            let ghost ipart = b.take(dd);
            let ghost frac = b.skip(dd + 1);
            proof {
                assert(ipart =~= s@.subrange(start as int, d as int));
                assert(frac =~= s@.subrange(d + 1, n as int));
            }
            if n - start < 2 {
                return None;
            }
            let flen = n - d - 1;
            if flen > 9 {
                return None;
            }
            let iv = match digits_value(s, start, d) {
                Some(v) => v,
                None => {
                    proof {
                        if body_valid(b) {
                            assert(all_digits(ipart));
                            lemma_digits_val_nonneg(frac);
                            lemma_pow10_pos((FRAC_DIGITS - frac.len()) as nat);
                            if digits_val(ipart) > MAX_MAG {
                                assert(digits_val(ipart) * SCALE >= digits_val(ipart) * 1)
                                    by (nonlinear_arith)
                                    requires digits_val(ipart) > 0;
                                assert(digits_val(frac) * pow10((FRAC_DIGITS - frac.len()) as nat)
                                    >= 0) by (nonlinear_arith)
                                    requires digits_val(frac) >= 0, pow10((FRAC_DIGITS
                                        - frac.len()) as nat) >= 1;
                            }
                        }
                    }
                    return None;
                },
            };
            let fv = match digits_value(s, d + 1, n) {
                Some(v) => v,
                None => {
                    proof {
                        if body_valid(b) {
                            assert(all_digits(frac));
                            lemma_digits_val_bound(frac);
                            lemma_pow10_le(frac.len() as nat, 9);
                            reveal_with_fuel(pow10, 10);
                            assert(pow10(9) == 1_000_000_000);
                        }
                    }
                    return None;
                },
            };
            let scale_back = pow10_u64(9 - flen as u32);
            proof {
                assert((iv as int) * SCALE <= MAX_MAG * SCALE) by (nonlinear_arith)
                    requires iv <= MAX_MAG;
                assert((fv as int) * (scale_back as int) <= MAX_MAG * SCALE)
                    by (nonlinear_arith)
                    requires fv <= MAX_MAG, scale_back <= SCALE;
            }
            let mag = (iv as u128) * (SCALE as u128) + (fv as u128) * (scale_back as u128);
            if mag > MAX_MAG as u128 {
                return None;
            }
            let m = mag as i64;
            if neg {
                Some(-m)
            } else {
                Some(m)
            }
        },
    }
}

pub open spec fn digit_char(d: int) -> char {
    if d == 0 {
        '0'
    } else if d == 1 {
        '1'
    } else if d == 2 {
        '2'
    } else if d == 3 {
        '3'
    } else if d == 4 {
        '4'
    } else if d == 5 {
        '5'
    } else if d == 6 {
        '6'
    } else if d == 7 {
        '7'
    } else if d == 8 {
        '8'
    } else {
        '9'
    }
}

/// Decimal digit string of `n`, most significant digit first, no leading zeros
/// except for `n == 0` itself.
pub open spec fn u_digits(n: nat) -> Seq<char>
    decreases n,
{
    if n < 10 {
        seq![digit_char(n as int)]
    } else {
        u_digits(n / 10).push(digit_char((n % 10) as int))
    }
}

pub open spec fn repeat_char(c: char, n: nat) -> Seq<char> {
    Seq::new(n, |i: int| c)
}

/// `s` left-padded with zeros to width `w` (unchanged when already as wide).
pub open spec fn pad_zeros(s: Seq<char>, w: nat) -> Seq<char> {
    if s.len() >= w {
        s
    } else {
        repeat_char('0', (w - s.len()) as nat) + s
    }
}

/// `s` with every trailing `'0'` removed.
pub open spec fn strip_tz(s: Seq<char>) -> Seq<char>
    decreases s.len(),
{
    if s.len() > 0 && s.last() == '0' {
        strip_tz(s.drop_last())
    } else {
        s
    }
}

/// Display form of a fixed-point value: optional minus sign, integer part,
/// and, when the fraction is not zero, a point followed by the fraction
/// digits with trailing zeros removed.
pub open spec fn dec_render(v: int) -> Seq<char> {
    let m = if v < 0 {
        -v
    } else {
        v
    };
    let u = m / (SCALE as int);
    let f = m % (SCALE as int);
    let sign: Seq<char> = if v < 0 {
        seq!['-']
    } else {
        Seq::empty()
    };
    if f == 0 {
        sign + u_digits(u as nat)
    } else {
        sign + u_digits(u as nat) + seq!['.'] + strip_tz(pad_zeros(u_digits(f as nat), 9))
    }
}

fn digit_str(d: u64) -> (r: &'static str)
    requires
        d < 10,
    ensures
        r@ == seq![digit_char(d as int)],
{
    match d {
        0 => {
            proof {
                reveal_strlit("0");
                assert("0"@ =~= seq![digit_char(0)]);
            }
            "0"
        },
        1 => {
            proof {
                reveal_strlit("1");
                assert("1"@ =~= seq![digit_char(1)]);
            }
            "1"
        },
        2 => {
            proof {
                reveal_strlit("2");
                assert("2"@ =~= seq![digit_char(2)]);
            }
            "2"
        },
        3 => {
            proof {
                reveal_strlit("3");
                assert("3"@ =~= seq![digit_char(3)]);
            }
            "3"
        },
        4 => {
            proof {
                reveal_strlit("4");
                assert("4"@ =~= seq![digit_char(4)]);
            }
            "4"
        },
        5 => {
            proof {
                reveal_strlit("5");
                assert("5"@ =~= seq![digit_char(5)]);
            }
            "5"
        },
        6 => {
            proof {
                reveal_strlit("6");
                assert("6"@ =~= seq![digit_char(6)]);
            }
            "6"
        },
        7 => {
            proof {
                reveal_strlit("7");
                assert("7"@ =~= seq![digit_char(7)]);
            }
            "7"
        },
        8 => {
            proof {
                reveal_strlit("8");
                assert("8"@ =~= seq![digit_char(8)]);
            }
            "8"
        },
        _ => {
            proof {
                reveal_strlit("9");
                assert("9"@ =~= seq![digit_char(9)]);
            }
            "9"
        },
    }
}

/// Formats `n` in decimal.
pub fn fmt_u64(n: u64) -> (r: String)
    ensures
        r@ == u_digits(n as nat),
    decreases n,
{
    if n < 10 {
        String::from_str(digit_str(n))
    } else {
        proof {
            assert(n / 10 < n) by (nonlinear_arith)
                requires n >= 10;
        }
        let mut p = fmt_u64(n / 10);
        p.append(digit_str(n % 10));
        proof {
            assert(p@ =~= u_digits((n / 10) as nat).push(digit_char((n % 10) as int)));
        }
        p
    }
}

/// A number below ten to the `k` has at most `k` digits.
pub proof fn lemma_u_digits_len(n: nat, k: nat)
    requires
        n < pow10(k),
        k >= 1,
    ensures
        u_digits(n).len() <= k,
    decreases n,
{
    if n < 10 {
    } else {
        if k == 1 {
            assert(pow10(1) == 10 * pow10(0));
        } else {
            assert(pow10(k) == 10 * pow10((k - 1) as nat));
            assert(n / 10 < pow10((k - 1) as nat)) by (nonlinear_arith)
                requires n < 10 * pow10((k - 1) as nat), n >= 0;
            assert(n / 10 < n) by (nonlinear_arith)
                requires n >= 10;
            lemma_u_digits_len(n / 10, (k - 1) as nat);
        }
    }
}

/// Every digit string holds at least one character.
pub proof fn lemma_u_digits_len_low(n: nat)
    ensures
        u_digits(n).len() >= 1,
{
}

/// A positive number's digit string holds at least one digit that is not zero.
proof fn lemma_u_digits_nonzero(n: nat)
    requires
        n >= 1,
    ensures
        exists|i: int| 0 <= i < u_digits(n).len() && u_digits(n)[i] != '0',
    decreases n,
{
    if n < 10 {
        assert(u_digits(n)[0] == digit_char(n as int));
        assert(digit_char(n as int) != '0');
    } else {
        if n % 10 != 0 {
            let s = u_digits(n);
            assert(s[s.len() - 1] == digit_char((n % 10) as int));
            assert(digit_char((n % 10) as int) != '0');
        } else {
            assert(n / 10 >= 1 && n / 10 < n) by (nonlinear_arith)
                requires n >= 10;
            lemma_u_digits_nonzero(n / 10);
            let s0 = u_digits(n / 10);
            let i = choose|i: int| 0 <= i < s0.len() && s0[i] != '0';
            assert(u_digits(n)[i] == s0[i]);
        }
    }
}

/// Removing `t` trailing zeros is the same as keeping the first `len - t`
/// characters, when position `len - t - 1` is not a zero.
proof fn lemma_strip_tz_take(s: Seq<char>, t: int)
    requires
        0 <= t <= s.len(),
        forall|i: int| s.len() - t <= i < s.len() ==> s[i] == '0',
        t == s.len() || s[s.len() - t - 1] != '0',
    ensures
        strip_tz(s) == s.take(s.len() - t),
    decreases t,
{
    if t == 0 {
        assert(s.take(s.len() as int) =~= s);
    } else {
        assert(s.last() == '0');
        let s0 = s.drop_last();
        assert(forall|i: int| s0.len() - (t - 1) <= i < s0.len() ==> s0[i] == s[i] && s[i] == '0');
        lemma_strip_tz_take(s0, t - 1);
        assert(s0.take(s0.len() - (t - 1)) =~= s.take(s.len() - t));
    }
}

/// Formats a fixed-point count of billionths as a decimal numeral,
/// exactly as [`dec_render`] describes.
pub fn fmt_dec(v: i64) -> (r: String)
    ensures
        r@ == dec_render(v as int),
{
    let m: u64 = if v < 0 {
        (-(v as i128)) as u64
    } else {
        v as u64
    };
    let u = m / SCALE;
    let f = m % SCALE;
    let mut out = if v < 0 {
        proof {
            reveal_strlit("-");
            assert("-"@ =~= seq!['-']);
        }
        String::from_str("-")
    } else {
        String::new()
    };
    let ghost sign = out@;
    let ip = fmt_u64(u);
    out.append(ip.as_str());
    if f == 0 {
        proof {
            assert(out@ =~= dec_render(v as int));
        }
        return out;
    }
    proof {
        reveal_strlit(".");
        assert("."@ =~= seq!['.']);
    }
    out.append(".");
    let digits = fmt_u64(f);
    proof {
        reveal_with_fuel(pow10, 10);
        assert(pow10(9) == 1_000_000_000);
        lemma_u_digits_len(f as nat, 9);
    }
    let dlen = digits.as_str().unicode_len();
    let mut padded = String::new();
    let mut k = dlen;
    while k < 9
        invariant
            dlen <= k <= 9,
            padded@ =~= repeat_char('0', (k - dlen) as nat),
        decreases 9 - k,
    {
        proof {
            reveal_strlit("0");
            assert("0"@ =~= seq!['0']);
        }
        padded.append("0");
        proof {
            assert(padded@ =~= repeat_char('0', (k + 1 - dlen) as nat));
        }
        k = k + 1;
    }
    padded.append(digits.as_str());
    proof {
        assert(padded@ =~= pad_zeros(u_digits(f as nat), 9));
        assert(padded@.len() == 9);
    }
    // Count the trailing zeros of the nine-digit fraction block.
    let mut t: usize = 0;
    while t < 9 && padded.as_str().get_char(8 - t) == '0'
        invariant
            0 <= t <= 9,
            padded@.len() == 9,
            forall|i: int| 9 - t <= i < 9 ==> padded@[i] == '0',
        decreases 9 - t,
    {
        t = t + 1;
    }
    proof {
        lemma_u_digits_nonzero(f as nat);
        if t == 9 {
            let i = choose|i: int|
                0 <= i < u_digits(f as nat).len() && u_digits(f as nat)[i] != '0';
            assert(padded@[9 - u_digits(f as nat).len() + i] != '0');
            assert(false);
        }
    }
    let kept = padded.as_str().substring_char(0, 9 - t);
    proof {
        lemma_strip_tz_take(padded@, t as int);
        assert(kept@ =~= padded@.take(9 - t));
    }
    out.append(kept);
    proof {
        assert(out@ =~= dec_render(v as int));
    }
    out
}

/// Powers of ten grow with the exponent.
proof fn lemma_pow10_le(a: nat, b_exp: nat)
    requires
        a <= b_exp,
    ensures
        pow10(a) <= pow10(b_exp),
    decreases b_exp,
{
    if a < b_exp {
        lemma_pow10_le(a, (b_exp - 1) as nat);
        lemma_pow10_pos((b_exp - 1) as nat);
    }
}

} // verus!
