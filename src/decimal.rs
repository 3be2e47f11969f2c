//! Exact decimal numbers and the truncated decimal text of their quotient.
use vstd::prelude::*;
use crate::text::{chars_of, index_of, lemma_index_of};

verus! {

/// The most digits a decimal number may have.
pub const MAX_DIGITS: usize = 18;

/// The number of digits written after the point in a quotient.
pub const FRACTION_DIGITS: u32 = 17;

/// The number `±mantissa / 10^scale`.
#[derive(Clone, Copy, Debug, PartialEq, Eq, Structural)]
pub struct Decimal {
    pub negative: bool,
    pub mantissa: u64,
    pub scale: u32,
}

pub open spec fn pow10(n: nat) -> nat
    decreases n,
{
    if n == 0 {
        1
    } else {
        10 * pow10((n - 1) as nat)
    }
}

pub open spec fn is_digit(c: char) -> bool {
    '0' <= c <= '9'
}

pub open spec fn all_digits(s: Seq<char>) -> bool {
    forall|i: int| 0 <= i < s.len() ==> is_digit(#[trigger] s[i])
}

/// The number that a string of decimal digits denotes.
pub open spec fn digits_value(s: Seq<char>) -> nat
    decreases s.len(),
{
    if s.len() == 0 {
        0
    } else {
        digits_value(s.drop_last()) * 10 + ((s.last() as nat) - ('0' as nat)) as nat
    }
}

/// Length of a leading sign.
pub open spec fn sign_len(s: Seq<char>) -> int {
    if s.len() > 0 && (s[0] == '-' || s[0] == '+') {
        1
    } else {
        0
    }
}

/// The digits of `s` before its point.
pub open spec fn int_digits(s: Seq<char>) -> Seq<char> {
    let body = s.skip(sign_len(s));
    body.take(index_of(body, '.'))
}

/// The digits of `s` after its point.
pub open spec fn frac_digits(s: Seq<char>) -> Seq<char> {
    let body = s.skip(sign_len(s));
    let p = index_of(body, '.');
    if p < body.len() {
        body.skip(p + 1)
    } else {
        Seq::empty()
    }
}

/// A decimal number: an optional sign, digits with at most one point, at least
/// one digit and at most `MAX_DIGITS` of them.
pub open spec fn decimal_spec(s: Seq<char>) -> Option<Decimal> {
    let ip = int_digits(s);
    let fp = frac_digits(s);
    if all_digits(ip) && all_digits(fp) && 1 <= ip.len() + fp.len() <= MAX_DIGITS {
        Some(
            Decimal {
                negative: sign_len(s) == 1 && s[0] == '-',
                mantissa: digits_value(ip + fp) as u64,
                scale: fp.len() as u32,
            },
        )
    } else {
        None
    }
}

proof fn lemma_digits_value_bound(s: Seq<char>)
    requires
        all_digits(s),
    ensures
        digits_value(s) < pow10(s.len()),
    decreases s.len(),
{
    if s.len() > 0 {
        let s0 = s.drop_last();
        assert(all_digits(s0)) by {
            assert forall|i: int| 0 <= i < s0.len() implies is_digit(#[trigger] s0[i]) by {
                assert(s0[i] == s[i]);
            }
        }
        lemma_digits_value_bound(s0);
        assert(is_digit(s[s.len() - 1]));
    }
}

proof fn lemma_pow10_18()
    ensures
        pow10(18) == 1_000_000_000_000_000_000,
{
    reveal_with_fuel(pow10, 19);
}

proof fn lemma_pow10_mono(a: nat, b: nat)
    requires
        a <= b,
    ensures
        pow10(a) <= pow10(b),
    decreases b,
{
    if a < b {
        lemma_pow10_mono(a, (b - 1) as nat);
    }
}

/// Reads a decimal number.
pub fn parse_decimal(s: &str) -> (r: Option<Decimal>)
    ensures
        r == decimal_spec(s@),
{
    let cs = chars_of(s);
    let n = cs.len();
    let start: usize = if n > 0 && (cs[0] == '-' || cs[0] == '+') {
        1
    } else {
        0
    };
    let ghost body = s@.skip(start as int);
    let mut p: usize = start;
    while p < n && cs[p] != '.'
        invariant
            start <= p <= n == cs.len(),
            cs@ == s@,
            body == s@.skip(start as int),
            forall|j: int| 0 <= j < p - start ==> #[trigger] body[j] != '.',
        decreases n - p,
    {
        assert(body[p - start] == cs@[p as int]);
        p = p + 1;
    }
    proof {
        if p < n {
            assert(body[p - start] == cs@[p as int]);
        }
        lemma_index_of(body, '.', p - start);
    }
    let ghost ip = int_digits(s@);
    let ghost fp = frac_digits(s@);
    let mut digits: Vec<char> = Vec::new();
    let mut i: usize = start;
    while i < p
        invariant
            start <= i <= p <= n == cs.len(),
            cs@ == s@,
            body == s@.skip(start as int),
            ip == body.take(p - start),
            digits@ == ip.take(i - start),
        decreases p - i,
    {
        digits.push(cs[i]);
        proof {
            assert(digits@ =~= ip.take(i + 1 - start));
        }
        i = i + 1;
    }
    proof {
        assert(ip.take(p - start) =~= ip);
    }
    let mut j: usize = if p < n {
        p + 1
    } else {
        n
    };
    let j0 = j;
    proof {
        assert(body.len() == n - start);
        assert(digits@ =~= ip + fp.take(0));
    }
    while j < n
        invariant
            j0 <= j <= n == cs.len(),
            p <= n,
            j0 == (if p < n { p + 1 } else { n as int }),
            start <= p,
            cs@ == s@,
            body == s@.skip(start as int),
            body.len() == n - start,
            fp == (if p < n { body.skip(p - start + 1) } else { Seq::<char>::empty() }),
            digits@ == ip + fp.take(j - j0),
        decreases n - j,
    {
        digits.push(cs[j]);
        proof {
            assert(p < n);
            assert(fp.len() == n - j0);
            assert(fp[j - j0] == body[j - start]);
            assert(fp[j - j0] == cs@[j as int]);
            assert(digits@ =~= ip + fp.take(j + 1 - j0));
        }
        j = j + 1;
    }
    proof {
        if p < n {
            assert(fp.len() == n - j0);
        } else {
            assert(fp.len() == 0);
        }
        assert(fp.take(n - j0) =~= fp);
    }
    let total = digits.len();
    if total < 1 || total > MAX_DIGITS {
        return None;
    }
    let mut v: u64 = 0;
    let mut k: usize = 0;
    while k < total
        invariant
            total == digits.len() <= MAX_DIGITS,
            k <= total,
            digits@ == ip + fp,
            ip == int_digits(s@),
            fp == frac_digits(s@),
            all_digits(digits@.take(k as int)),
            v == digits_value(digits@.take(k as int)),
            v < pow10(k as nat),
        decreases total - k,
    {
        let c = digits[k];
        if !('0' <= c && c <= '9') {
            proof {
                if all_digits(ip) && all_digits(fp) {
                    if k < ip.len() {
                        assert(digits@[k as int] == ip[k as int]);
                        assert(is_digit(ip[k as int]));
                    } else {
                        assert(digits@[k as int] == fp[k - ip.len()]);
                        assert(is_digit(fp[k - ip.len()]));
                    }
                }
            }
            return None;
        }
        proof {
            assert(digits@.take(k + 1).drop_last() =~= digits@.take(k as int));
            lemma_pow10_mono((k + 1) as nat, 18);
            lemma_pow10_18();
        }
        v = v * 10 + ((c as u32) - ('0' as u32)) as u64;
        proof {
            assert(all_digits(digits@.take(k + 1)));
        }
        k = k + 1;
    }
    proof {
        assert(digits@.take(total as int) =~= digits@);
        assert(all_digits(ip)) by {
            assert forall|i: int| 0 <= i < ip.len() implies is_digit(#[trigger] ip[i]) by {
                assert(digits@[i] == ip[i]);
            }
        }
        assert(all_digits(fp)) by {
            assert forall|i: int| 0 <= i < fp.len() implies is_digit(#[trigger] fp[i]) by {
                assert(digits@[ip.len() + i] == fp[i]);
            }
        }
    }
    let negative = start == 1 && cs[0] == '-';
    Some(Decimal { negative, mantissa: v, scale: (total - (p - start)) as u32 })
}

} // verus!

verus! {

impl Decimal {
    /// Within the bounds that `decimal_spec` gives.
    pub open spec fn valid(&self) -> bool {
        self.mantissa < pow10(MAX_DIGITS as nat) && self.scale <= MAX_DIGITS
    }
}

/// Every number that `decimal_spec` reads is within its bounds.
pub proof fn lemma_decimal_spec_valid(s: Seq<char>)
    ensures
        decimal_spec(s) matches Some(d) ==> d.valid(),
{
    let ip = int_digits(s);
    let fp = frac_digits(s);
    if decimal_spec(s) is Some {
        let ds = ip + fp;
        assert(all_digits(ds)) by {
            assert forall|i: int| 0 <= i < ds.len() implies is_digit(#[trigger] ds[i]) by {
                if i < ip.len() {
                    assert(ds[i] == ip[i]);
                } else {
                    assert(ds[i] == fp[i - ip.len()]);
                }
            }
        }
        lemma_digits_value_bound(ds);
        lemma_pow10_mono(ds.len(), MAX_DIGITS as nat);
        lemma_pow10_18();
    }
}

/// The character of a digit.
pub open spec fn digit_char(d: nat) -> char {
    ((48 + d) as u8) as char
}

/// The decimal digits of `n`, without leading zeros.
pub open spec fn digits_of(n: nat) -> Seq<char>
    decreases n,
{
    if n < 10 {
        seq![digit_char(n)]
    } else {
        digits_of(n / 10).push(digit_char(n % 10))
    }
}

/// The last `w` decimal digits of `n`, with leading zeros.
pub open spec fn fixed_digits(n: nat, w: nat) -> Seq<char>
    decreases w,
{
    if w == 0 {
        Seq::empty()
    } else {
        fixed_digits(n / 10, (w - 1) as nat).push(digit_char(n % 10))
    }
}

/// A fraction of `w` digits with its trailing zeros dropped.
pub open spec fn strip_zeros(f: nat, w: nat) -> (nat, nat)
    decreases w,
{
    if w > 0 && f % 10 == 0 {
        strip_zeros(f / 10, (w - 1) as nat)
    } else {
        (f, w)
    }
}

/// The numerator of `a / b` once both are brought to whole numbers.
pub open spec fn scaled_num(a: Decimal, b: Decimal) -> nat {
    a.mantissa as nat * pow10(b.scale as nat)
}

/// The denominator of `a / b` once both are brought to whole numbers.
pub open spec fn scaled_den(a: Decimal, b: Decimal) -> nat {
    b.mantissa as nat * pow10(a.scale as nat)
}

/// The whole part of `|a / b|`.
pub open spec fn quotient_whole(a: Decimal, b: Decimal) -> nat {
    scaled_num(a, b) / scaled_den(a, b)
}

/// The first `FRACTION_DIGITS` digits of the fractional part of `|a / b|`, as a number.
pub open spec fn quotient_fraction(a: Decimal, b: Decimal) -> nat {
    (scaled_num(a, b) % scaled_den(a, b)) * pow10(FRACTION_DIGITS as nat) / scaled_den(a, b)
}

/// `a / b` cut after `FRACTION_DIGITS` digits: a minus sign where the result is
/// negative and not zero, the whole part, then a point and the fraction digits
/// without trailing zeros where the fraction is not zero.
pub open spec fn quotient_text(a: Decimal, b: Decimal) -> Seq<char> {
    let w = quotient_whole(a, b);
    let f = quotient_fraction(a, b);
    let sign = if a.negative != b.negative && (w != 0 || f != 0) {
        seq!['-']
    } else {
        Seq::empty()
    };
    let frac = if f == 0 {
        Seq::empty()
    } else {
        let (g, k) = strip_zeros(f, FRACTION_DIGITS as nat);
        seq!['.'] + fixed_digits(g, k)
    };
    sign + digits_of(w) + frac
}

fn digit_char_exec(d: u8) -> (c: char)
    requires
        d < 10,
    ensures
        c == digit_char(d as nat),
{
    (48 + d) as char
}

fn push_digits(out: &mut String, n: u128)
    ensures
        final(out)@ == old(out)@ + digits_of(n as nat),
    decreases n,
{
    if n >= 10 {
        push_digits(out, n / 10);
    }
    out.push(digit_char_exec((n % 10) as u8));
    proof {
        assert(final(out)@ =~= old(out)@ + digits_of(n as nat));
    }
}

fn push_fixed(out: &mut String, n: u64, w: u32)
    ensures
        final(out)@ == old(out)@ + fixed_digits(n as nat, w as nat),
    decreases w,
{
    if w > 0 {
        push_fixed(out, n / 10, w - 1);
        out.push(digit_char_exec((n % 10) as u8));
    }
    proof {
        assert(final(out)@ =~= old(out)@ + fixed_digits(n as nat, w as nat));
    }
}

fn pow10_exec(n: u32) -> (r: u64)
    requires
        n <= MAX_DIGITS,
    ensures
        r == pow10(n as nat),
{
    let mut r: u64 = 1;
    let mut i: u32 = 0;
    while i < n
        invariant
            i <= n <= MAX_DIGITS,
            r == pow10(i as nat),
        decreases n - i,
    {
        proof {
            lemma_pow10_mono((i + 1) as nat, MAX_DIGITS as nat);
            lemma_pow10_18();
        }
        r = r * 10;
        i = i + 1;
    }
    r
}

} // verus!

verus! {

/// The text of `a / b`, cut after `FRACTION_DIGITS` digits.
pub fn format_quotient(a: Decimal, b: Decimal) -> (r: String)
    requires
        a.valid(),
        b.valid(),
        b.mantissa != 0,
    ensures
        r@ == quotient_text(a, b),
{
    proof {
        lemma_pow10_mono(a.scale as nat, MAX_DIGITS as nat);
        lemma_pow10_mono(b.scale as nat, MAX_DIGITS as nat);
        lemma_pow10_18();
    }
    let pa = pow10_exec(a.scale);
    let pb = pow10_exec(b.scale);
    let bound: u128 = 1_000_000_000_000_000_000;
    assert(a.mantissa < bound && pb <= bound && b.mantissa < bound && pa <= bound);
    assert((a.mantissa as u128) * (pb as u128) <= bound * bound) by (nonlinear_arith)
        requires
            a.mantissa < bound,
            pb <= bound,
    ;
    assert((b.mantissa as u128) * (pa as u128) <= bound * bound) by (nonlinear_arith)
        requires
            b.mantissa < bound,
            pa <= bound,
    ;
    let num: u128 = (a.mantissa as u128) * (pb as u128);
    let den: u128 = (b.mantissa as u128) * (pa as u128);
    assert(pa >= 1) by {
        lemma_pow10_pos(a.scale as nat);
    }
    assert(den >= 1) by (nonlinear_arith)
        requires
            den == (b.mantissa as u128) * (pa as u128),
            b.mantissa >= 1,
            pa >= 1,
    ;
    let whole = num / den;
    let r0 = num % den;
    let mut r: u128 = r0;
    let mut f: u64 = 0;
    let mut k: u32 = 0;
    assert(pow10(0) == 1);
    assert(r0 * pow10(0) == r0);
    while k < FRACTION_DIGITS
        invariant
            1 <= den <= bound * bound,
            bound == 1_000_000_000_000_000_000,
            r0 < den,
            k <= FRACTION_DIGITS,
            r < den,
            f as nat * den + r == r0 * pow10(k as nat),
            f < pow10(k as nat),
        decreases FRACTION_DIGITS - k,
    {
        let t = r * 10;
        let q = t / den;
        proof {
            vstd::arithmetic::div_mod::lemma_fundamental_div_mod(t as int, den as int);
            assert(q < 10) by (nonlinear_arith)
                requires
                    t < den * 10,
                    q == t / den,
                    t == den * q + t % den,
                    t % den >= 0,
                    den >= 1,
            ;
            lemma_pow10_mono((k + 1) as nat, FRACTION_DIGITS as nat);
            reveal_with_fuel(pow10, 18);
            assert(f * 10 + q < pow10((k + 1) as nat)) by (nonlinear_arith)
                requires
                    f < pow10(k as nat),
                    q < 10,
                    pow10((k + 1) as nat) == 10 * pow10(k as nat),
            ;
            assert((f * 10 + q) * den + t % den == r0 * pow10((k + 1) as nat)) by (nonlinear_arith)
                requires
                    f as nat * den + r == r0 * pow10(k as nat),
                    t == r * 10,
                    t == den * q + t % den,
                    pow10((k + 1) as nat) == 10 * pow10(k as nat),
            ;
        }
        f = f * 10 + q as u64;
        r = t % den;
        k = k + 1;
    }
    proof {
        vstd::arithmetic::div_mod::lemma_fundamental_div_mod_converse(
            (r0 * pow10(FRACTION_DIGITS as nat)) as int,
            den as int,
            f as int,
            r as int,
        );
    }
    let mut out = String::new();
    let negative = a.negative != b.negative && (whole != 0 || f != 0);
    if negative {
        out.push('-');
    }
    push_digits(&mut out, whole);
    if f != 0 {
        out.push('.');
        let mut g: u64 = f;
        let mut w: u32 = FRACTION_DIGITS;
        while w > 0 && g % 10 == 0
            invariant
                strip_zeros(g as nat, w as nat) == strip_zeros(f as nat, FRACTION_DIGITS as nat),
            decreases w,
        {
            g = g / 10;
            w = w - 1;
        }
        push_fixed(&mut out, g, w);
    }
    proof {
        assert(out@ =~= quotient_text(a, b));
    }
    out
}

proof fn lemma_pow10_pos(n: nat)
    ensures
        pow10(n) >= 1,
    decreases n,
{
    if n > 0 {
        lemma_pow10_pos((n - 1) as nat);
    }
}

} // verus!

verus! {

/// The digits of a quotient's text are the exact quotient `|a / b|` cut after
/// `FRACTION_DIGITS` digits: whole part and fraction together are the integer
/// part of `|a / b| * 10^FRACTION_DIGITS`.
pub proof fn lemma_quotient_truncates(a: Decimal, b: Decimal)
    requires
        b.mantissa != 0,
    ensures
        quotient_whole(a, b) * pow10(FRACTION_DIGITS as nat) + quotient_fraction(a, b) == (
        scaled_num(a, b) * pow10(FRACTION_DIGITS as nat)) / scaled_den(a, b),
{
    let n = scaled_num(a, b) as int;
    let d = scaled_den(a, b) as int;
    let p = pow10(FRACTION_DIGITS as nat) as int;
    lemma_pow10_pos(a.scale as nat);
    assert(d > 0) by (nonlinear_arith)
        requires
            d == b.mantissa as nat * pow10(a.scale as nat),
            b.mantissa >= 1,
            pow10(a.scale as nat) >= 1,
    ;
    let w = n / d;
    let rem = n % d;
    vstd::arithmetic::div_mod::lemma_fundamental_div_mod(n, d);
    let f = rem * p / d;
    let r2 = rem * p % d;
    vstd::arithmetic::div_mod::lemma_fundamental_div_mod(rem * p, d);
    assert(n * p == (w * p + f) * d + r2) by (nonlinear_arith)
        requires
            n == d * w + rem,
            rem * p == d * f + r2,
    ;
    vstd::arithmetic::div_mod::lemma_fundamental_div_mod_converse(n * p, d, w * p + f, r2);
}

} // verus!
