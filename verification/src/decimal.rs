//! Fixed-point decimal values.
//!
//! An amount is a sign, an unscaled mantissa and a decimal scale (digits
//! after the point), kept normalised: no trailing zero digits in the
//! fraction, and zero is always `+0` at scale 0.  The scale is bounded by
//! twelve fractional digits; every value is therefore an integer multiple of
//! `10^-12`, and contracts speak of [`Decimal::val12`], the value scaled by
//! `10^12`.  The display policy of the expense format — two decimals, with
//! excess digits dropped toward zero — is [`Decimal::with_scale_2`].

use crate::text::{
    chars_of, push_dec_chars, spec_dec_chars, spec_digit_char, spec_digit_val, spec_is_digit,
    spec_pow10,
};
use vstd::prelude::*;

verus! {

/// Largest supported mantissa, `10^30`.
pub const MAX_MANT: u128 = 1_000_000_000_000_000_000_000_000_000_000;

/// Largest supported scale: twelve fractional digits.
pub const MAX_SCALE: u32 = 12;

/// A sign-and-mantissa decimal: the value is `mant / 10^scale`, negated
/// when `neg` is set.
#[derive(Clone, Copy, Debug, PartialEq, Eq, Structural)]
pub struct Decimal {
    pub neg: bool,
    pub mant: u128,
    pub scale: u32,
}

impl Decimal {
    /// Normalised: bounded scale, no trailing fractional zeros, canonical
    /// zero.  Under `wf`, structural equality is value equality.
    pub open spec fn wf(self) -> bool {
        &&& self.scale <= MAX_SCALE
        &&& (self.scale > 0 ==> self.mant % 10 != 0)
        &&& (self.mant == 0 ==> !self.neg && self.scale == 0)
    }

    /// The value multiplied by `10^12`, as a mathematical integer.
    pub open spec fn val12(self) -> int {
        spec_val12_raw(self.neg, self.mant as nat, self.scale as int)
    }

    /// The canonical zero.
    pub fn zero() -> (r: Decimal)
        ensures
            r.wf(),
            r.val12() == 0,
            r == (Decimal { neg: false, mant: 0, scale: 0 }),
    {
        Decimal { neg: false, mant: 0, scale: 0 }
    }
}

/// `sign * v * 10^(12 - s)` — the value of an unnormalised triple, scaled
/// by `10^12` (meaningful for `s <= 12`).
pub open spec fn spec_val12_raw(neg: bool, v: nat, s: int) -> int {
    let m = v * spec_pow10((12 - s) as nat);
    if neg {
        -m
    } else {
        m as int
    }
}

/// Powers of ten up to `10^12`.
pub fn pow10_small(e: u32) -> (r: u128)
    requires
        e <= 12,
    ensures
        r == spec_pow10(e as nat),
        1 <= r <= 1_000_000_000_000,
{
    proof {
        lemma_pow10_values();
    }
    if e == 0 {
        1
    } else if e == 1 {
        10
    } else if e == 2 {
        100
    } else if e == 3 {
        1_000
    } else if e == 4 {
        10_000
    } else if e == 5 {
        100_000
    } else if e == 6 {
        1_000_000
    } else if e == 7 {
        10_000_000
    } else if e == 8 {
        100_000_000
    } else if e == 9 {
        1_000_000_000
    } else if e == 10 {
        10_000_000_000
    } else if e == 11 {
        100_000_000_000
    } else {
        1_000_000_000_000
    }
}

/// The concrete powers of ten the proofs need.
pub proof fn lemma_pow10_values()
    ensures
        spec_pow10(0) == 1,
        spec_pow10(1) == 10,
        spec_pow10(2) == 100,
        spec_pow10(3) == 1_000,
        spec_pow10(4) == 10_000,
        spec_pow10(5) == 100_000,
        spec_pow10(6) == 1_000_000,
        spec_pow10(7) == 10_000_000,
        spec_pow10(8) == 100_000_000,
        spec_pow10(9) == 1_000_000_000,
        spec_pow10(10) == 10_000_000_000,
        spec_pow10(11) == 100_000_000_000,
        spec_pow10(12) == 1_000_000_000_000,
{
    assert(spec_pow10(0) == 1);
    assert(spec_pow10(1) == 10);
    assert(spec_pow10(2) == 100);
    assert(spec_pow10(3) == 1_000);
    assert(spec_pow10(4) == 10_000);
    assert(spec_pow10(5) == 100_000);
    assert(spec_pow10(6) == 1_000_000);
    assert(spec_pow10(7) == 10_000_000);
    assert(spec_pow10(8) == 100_000_000);
    assert(spec_pow10(9) == 1_000_000_000);
    assert(spec_pow10(10) == 10_000_000_000);
    assert(spec_pow10(11) == 100_000_000_000);
    assert(spec_pow10(12) == 1_000_000_000_000);
}

/// Dividing a trailing zero out of the mantissa and lowering the scale
/// keeps the value.
proof fn lemma_strip_step(v: nat, s: int)
    requires
        1 <= s <= 12,
        v % 10 == 0,
    ensures
        (v / 10) * spec_pow10((12 - (s - 1)) as nat) == v * spec_pow10((12 - s) as nat),
{
    let w = v / 10;
    vstd::arithmetic::div_mod::lemma_fundamental_div_mod(v as int, 10);
    assert(v == 10 * w);
    let p = spec_pow10((12 - s) as nat);
    assert(spec_pow10((13 - s) as nat) == 10 * p);
    assert(w * (10 * p) == (10 * w) * p) by (nonlinear_arith);
}

/// Builds the normalised decimal with value `sign * v * 10^-s`.
pub fn norm(neg: bool, v: u128, s: u32) -> (r: Decimal)
    requires
        s <= 12,
    ensures
        r.wf(),
        r.val12() == spec_val12_raw(neg, v as nat, s as int),
        r.mant <= v,
        r.scale <= s,
{
    let mut m: u128 = v;
    let mut sc: u32 = s;
    while sc > 0 && m % 10 == 0
        invariant
            sc <= s <= 12,
            m <= v,
            spec_val12_raw(neg, m as nat, sc as int) == spec_val12_raw(neg, v as nat, s as int),
        decreases sc,
    {
        proof {
            lemma_strip_step(m as nat, sc as int);
        }
        m = m / 10;
        sc = sc - 1;
    }
    if m == 0 {
        proof {
            lemma_pow10_values();
        }
        Decimal { neg: false, mant: 0, scale: 0 }
    } else {
        Decimal { neg, mant: m, scale: sc }
    }
}

/// Truncation of a `10^12`-scaled value to two decimals, toward zero.
pub open spec fn spec_trunc2(v12: int) -> int {
    if v12 >= 0 {
        (v12 / 10_000_000_000) * 10_000_000_000
    } else {
        -((((-v12)) / 10_000_000_000) * 10_000_000_000)
    }
}

/// The value rounded to two decimals by dropping further digits toward
/// zero — the fixed display scale of the expense format.
pub fn with_scale_2(d: &Decimal) -> (r: Decimal)
    requires
        d.wf(),
    ensures
        r.wf(),
        r.scale <= 2,
        r.val12() == spec_trunc2(d.val12()),
        r.mant <= d.mant,
        r.neg ==> d.neg,
{
    proof {
        lemma_pow10_values();
    }
    if d.scale <= 2 {
        proof {
            let p = spec_pow10((12 - d.scale) as nat);
            assert(12 - d.scale == 10 || 12 - d.scale == 11 || 12 - d.scale == 12);
            assert(p % 10_000_000_000 == 0);
            lemma_mul_multiple(d.mant as nat, p, 10_000_000_000);
        }
        *d
    } else {
        let f = pow10_small(d.scale - 2);
        let m2 = d.mant / f;
        let r = norm(d.neg, m2, 2);
        proof {
            let p = spec_pow10((12 - d.scale) as nat);
            lemma_trunc2_div(d.mant as nat, d.scale as int);
            assert(spec_pow10(10) == 10_000_000_000);
            assert(r.val12() == spec_val12_raw(d.neg, m2 as nat, 2));
            assert(spec_val12_raw(d.neg, m2 as nat, 2) == if d.neg {
                -(m2 as nat * spec_pow10(10)) as int
            } else {
                (m2 as nat * spec_pow10(10)) as int
            });
        }
        r
    }
}

/// A multiple of a multiple of `k` truncates to itself.
proof fn lemma_mul_multiple(m: nat, p: nat, k: nat)
    requires
        k >= 1,
        p % k == 0,
    ensures
        ((m * p) as int / k as int) * k as int == (m * p) as int,
        (m * p) as int % k as int == 0,
{
    let q = p / k;
    vstd::arithmetic::div_mod::lemma_fundamental_div_mod(p as int, k as int);
    assert(p == k * q);
    assert(m * (k * q) == (m * q) * k) by (nonlinear_arith);
    vstd::arithmetic::div_mod::lemma_fundamental_div_mod_converse(
        (m * p) as int,
        k as int,
        (m * q) as int,
        0,
    );
}

/// Dropping `scale - 2` digits of the mantissa is exactly two-decimal
/// truncation of the `10^12`-scaled value.
proof fn lemma_trunc2_div(m: nat, s: int)
    requires
        2 < s <= 12,
    ensures
        (m / spec_pow10((s - 2) as nat)) * spec_pow10((12 - 2) as nat) == ((m * spec_pow10(
            (12 - s) as nat,
        )) / spec_pow10(10)) * spec_pow10(10),
{
    let f = spec_pow10((s - 2) as nat);
    let p = spec_pow10((12 - s) as nat);
    let t = spec_pow10(10);
    // t == f * p
    lemma_pow10_add((s - 2) as nat, (12 - s) as nat);
    assert(f >= 1) by {
        lemma_pow10_pos((s - 2) as nat);
    }
    assert(p >= 1) by {
        lemma_pow10_pos((12 - s) as nat);
    }
    let q = m / f;
    let r = m % f;
    vstd::arithmetic::div_mod::lemma_fundamental_div_mod(m as int, f as int);
    // m * p == q * t + r * p, with 0 <= r * p < t
    assert(m * p == q * t + r * p) by (nonlinear_arith)
        requires
            m == f * q + r,
            t == f * p,
    ;
    assert(r * p < t) by (nonlinear_arith)
        requires
            r < f,
            p >= 1,
            t == f * p,
    ;
    assert(r * p >= 0) by (nonlinear_arith)
        requires
            r >= 0,
            p >= 0,
    ;
    vstd::arithmetic::div_mod::lemma_fundamental_div_mod_converse(
        (m * p) as int,
        t as int,
        q as int,
        (r * p) as int,
    );
}

/// `10^a * 10^b == 10^(a+b)`.
pub proof fn lemma_pow10_add(a: nat, b: nat)
    ensures
        spec_pow10(a) * spec_pow10(b) == spec_pow10(a + b),
    decreases a,
{
    if a == 0 {
        assert(spec_pow10(0) == 1);
    } else {
        lemma_pow10_add((a - 1) as nat, b);
        assert(spec_pow10(a) == 10 * spec_pow10((a - 1) as nat));
        assert((10 * spec_pow10((a - 1) as nat)) * spec_pow10(b) == 10 * (spec_pow10(
            (a - 1) as nat,
        ) * spec_pow10(b))) by (nonlinear_arith);
    }
}

/// `10^n >= 1`.
pub proof fn lemma_pow10_pos(n: nat)
    ensures
        spec_pow10(n) >= 1,
    decreases n,
{
    if n > 0 {
        lemma_pow10_pos((n - 1) as nat);
    }
}

/// The value of a non-negative decimal, unfolded.
pub proof fn lemma_val12_expand(d: Decimal)
    requires
        !d.neg,
    ensures
        d.val12() == d.mant * spec_pow10((12 - d.scale) as nat),
        d.val12() >= 0,
{
    lemma_pow10_pos((12 - d.scale) as nat);
    assert(d.mant * spec_pow10((12 - d.scale) as nat) >= 0) by (nonlinear_arith)
        requires
            d.mant >= 0,
            spec_pow10((12 - d.scale) as nat) >= 0,
    ;
}

/// A non-negative decimal with a nonzero mantissa has a positive value.
pub proof fn lemma_val12_pos(d: Decimal)
    requires
        !d.neg,
        d.mant >= 1,
    ensures
        d.val12() >= 1,
{
    lemma_pow10_pos((12 - d.scale) as nat);
    assert(d.mant * spec_pow10((12 - d.scale) as nat) >= 1) by (nonlinear_arith)
        requires
            d.mant >= 1,
            spec_pow10((12 - d.scale) as nat) >= 1,
    ;
}

/// A negative decimal (nonzero mantissa) has a negative value.
pub proof fn lemma_val12_neg(d: Decimal)
    requires
        d.neg,
        d.mant >= 1,
    ensures
        d.val12() <= -1,
{
    lemma_pow10_pos((12 - d.scale) as nat);
    assert(d.mant * spec_pow10((12 - d.scale) as nat) >= 1) by (nonlinear_arith)
        requires
            d.mant >= 1,
            spec_pow10((12 - d.scale) as nat) >= 1,
    ;
}

/// Scaling the value by an integer factor, in terms of the mantissa.
pub proof fn lemma_val12_times(d: Decimal, k: int)
    requires
        !d.neg,
        k >= 0,
    ensures
        d.val12() * k == (d.mant * k) * spec_pow10((12 - d.scale) as nat),
        d.val12() * k >= d.mant * k,
        d.mant * k >= 0,
{
    let p = spec_pow10((12 - d.scale) as nat);
    lemma_pow10_pos((12 - d.scale) as nat);
    assert(d.mant * k >= 0) by (nonlinear_arith)
        requires
            d.mant >= 0,
            k >= 0,
    ;
    assert((d.mant * p) * k == (d.mant * k) * p) by (nonlinear_arith);
    assert((d.mant * k) * p >= d.mant * k) by (nonlinear_arith)
        requires
            p >= 1,
            d.mant * k >= 0,
    ;
}

/// Two-decimal truncation keeps the sign and never grows the magnitude.
pub proof fn lemma_trunc2_sign(v: int)
    ensures
        v >= 0 ==> 0 <= spec_trunc2(v) <= v,
        v < 0 ==> v <= spec_trunc2(v) <= 0,
{
    if v >= 0 {
        vstd::arithmetic::div_mod::lemma_fundamental_div_mod(v, 10_000_000_000);
        assert(v / 10_000_000_000 >= 0) by (nonlinear_arith)
            requires
                v >= 0,
        ;
        assert((v / 10_000_000_000) * 10_000_000_000 >= 0) by (nonlinear_arith)
            requires
                v / 10_000_000_000 >= 0,
        ;
    } else {
        let w = -v;
        vstd::arithmetic::div_mod::lemma_fundamental_div_mod(w, 10_000_000_000);
        assert(w / 10_000_000_000 >= 0) by (nonlinear_arith)
            requires
                w >= 0,
        ;
        assert((w / 10_000_000_000) * 10_000_000_000 >= 0) by (nonlinear_arith)
            requires
                w / 10_000_000_000 >= 0,
        ;
    }
}

/// The mantissa multiplied by an integer factor; `None` on overflow of the
/// supported mantissa range.
pub fn mul_u64(d: &Decimal, k: u64) -> (r: Option<Decimal>)
    requires
        d.wf(),
    ensures
        match r {
            Some(rr) => rr.wf() && rr.val12() == d.val12() * k,
            None => d.mant * k > u128::MAX,
        },
{
    if k == 0 {
        proof {
            lemma_pow10_values();
            assert(d.val12() * 0 == 0) by (nonlinear_arith);
        }
        return Some(Decimal { neg: false, mant: 0, scale: 0 });
    }
    let m = match d.mant.checked_mul(k as u128) {
        Some(m) => m,
        None => {
            return None;
        },
    };
    let r = norm(d.neg, m, d.scale);
    proof {
        let p = spec_pow10((12 - d.scale) as nat);
        assert((d.mant * k) * p == (d.mant * p) * k) by (nonlinear_arith);
        if d.neg {
            assert(r.val12() == -((d.mant * k) * p));
            assert(-((d.mant * p) * k) == (-(d.mant * p)) * k) by (nonlinear_arith);
        }
    }
    Some(r)
}

/// The value as a non-negative `10^12`-scaled integer; the value must be
/// non-negative and small enough for the scaling not to overflow.
pub fn val12_u128(d: &Decimal) -> (r: u128)
    requires
        d.wf(),
        !d.neg,
        d.val12() <= u128::MAX,
    ensures
        r == d.val12(),
{
    let f = pow10_small(12 - d.scale);
    proof {
        assert(d.val12() == d.mant * spec_pow10((12 - d.scale) as nat));
    }
    d.mant * f
}

/// The normalised decimal with non-negative `10^12`-scaled value `v`; the
/// value must be an integer multiple of `10^10` (two-decimal values).
pub fn from_val12_scale2(v: u128) -> (r: Decimal)
    requires
        v % 10_000_000_000 == 0,
    ensures
        r.wf(),
        r.val12() == v,
        !r.neg,
{
    proof {
        lemma_pow10_values();
    }
    let m2 = v / 10_000_000_000;
    let r = norm(false, m2, 2);
    proof {
        vstd::arithmetic::div_mod::lemma_fundamental_div_mod(v as int, 10_000_000_000);
        assert(m2 * spec_pow10(10) == v);
    }
    r
}

// ---------------------------------------------------------------------------
// display at scale two
// ---------------------------------------------------------------------------

/// The two-decimal rendering `[-]W.FF` of a decimal with `scale <= 2`.
pub open spec fn spec_scale2_chars(d: Decimal) -> Seq<char> {
    let m2 = d.mant as nat * spec_pow10((2 - d.scale) as nat);
    let sign: Seq<char> = if d.neg {
        seq!['-']
    } else {
        seq![]
    };
    sign + spec_dec_chars(m2 / 100) + seq!['.'] + seq![
        spec_digit_char(((m2 / 10) % 10) as int),
        spec_digit_char((m2 % 10) as int),
    ]
}

/// Appends the two-decimal rendering of `d` (e.g. `10.00`, `56.84`).
pub fn push_scale2_chars(out: &mut Vec<char>, d: &Decimal)
    requires
        d.wf(),
        d.scale <= 2,
        d.mant <= MAX_MANT,
    ensures
        final (out)@ == old(out)@ + spec_scale2_chars(*d),
{
    let f = pow10_small(2 - d.scale);
    proof {
        lemma_pow10_values();
        assert(2 - d.scale == 0 || 2 - d.scale == 1 || 2 - d.scale == 2);
        assert(f <= 100);
        assert(d.mant * f <= MAX_MANT * 100) by (nonlinear_arith)
            requires
                d.mant <= MAX_MANT && 0 <= f <= 100,
        ;
    }
    let m2 = d.mant * f;
    if d.neg {
        out.push('-');
    }
    push_dec_chars(out, m2 / 100);
    out.push('.');
    let t = crate::text::digit_char(((m2 / 10) % 10) as u32);
    out.push(t);
    let u = crate::text::digit_char((m2 % 10) as u32);
    out.push(u);
    proof {
        assert(out@ =~= old(out)@ + spec_scale2_chars(*d));
    }
}

// ---------------------------------------------------------------------------
// parsing decimal literals
// ---------------------------------------------------------------------------

/// Cap on the raw digit value of a parsed literal, `10^33`.
pub const MAX_UVAL: u128 = 1_000_000_000_000_000_000_000_000_000_000_000;

/// First position holding `a` or `b`.
pub open spec fn spec_find2(s: Seq<char>, a: char, b: char) -> Option<int>
    decreases s.len(),
{
    if s.len() == 0 {
        None
    } else if s[0] == a || s[0] == b {
        Some(0)
    } else {
        match spec_find2(s.skip(1), a, b) {
            Some(i) => Some(i + 1),
            None => None,
        }
    }
}

/// Finds the first occurrence of `a` or `b`.
pub fn find2(v: &Vec<char>, a: char, b: char) -> (r: Option<usize>)
    ensures
        match r {
            Some(i) => spec_find2(v@, a, b) == Some(i as int) && i < v@.len(),
            None => spec_find2(v@, a, b) is None,
        },
{
    let n = v.len();
    let mut i: usize = 0;
    proof {
        assert(v@.skip(0) =~= v@);
    }
    loop
        invariant
            i <= n,
            n == v@.len(),
            spec_find2(v@, a, b) == match spec_find2(v@.skip(i as int), a, b) {
                Some(k) => Some(k + i),
                None => None::<int>,
            },
        decreases n - i,
    {
        if i == n {
            return None;
        }
        let c = v[i];
        proof {
            assert(v@.skip(i as int)[0] == v@[i as int]);
            assert(v@.skip(i as int).skip(1) =~= v@.skip(i + 1));
        }
        if c == a || c == b {
            return Some(i);
        }
        i = i + 1;
    }
}

/// Digit or underscore, the characters a big-integer literal may hold.
pub open spec fn spec_is_du(c: char) -> bool {
    spec_is_digit(c) || c == '_'
}

pub open spec fn spec_all_du(s: Seq<char>) -> bool {
    forall|i: int| 0 <= i < s.len() ==> spec_is_du(#[trigger] s[i])
}

/// Value of a digit string with underscores ignored.
pub open spec fn spec_uval(s: Seq<char>) -> nat
    decreases s.len(),
{
    if s.len() == 0 {
        0
    } else if s.last() == '_' {
        spec_uval(s.drop_last())
    } else {
        spec_uval(s.drop_last()) * 10 + spec_digit_val(s.last()) as nat
    }
}

proof fn lemma_uval_monotonic(s: Seq<char>, i: int)
    requires
        0 <= i <= s.len(),
    ensures
        spec_uval(s.subrange(0, i)) <= spec_uval(s),
    decreases s.len() - i,
{
    if i < s.len() {
        lemma_uval_monotonic(s, i + 1);
        assert(s.subrange(0, i + 1).drop_last() =~= s.subrange(0, i));
        assert(s.subrange(0, i + 1).last() == s[i]);
    } else {
        assert(s.subrange(0, i) =~= s);
    }
}

/// Value of an underscore-allowing digit string, or `None` above `cap`.
fn uval_checked(v: &Vec<char>, cap: u128) -> (r: Option<u128>)
    requires
        spec_all_du(v@),
    ensures
        match r {
            Some(x) => x == spec_uval(v@) && x <= cap,
            None => spec_uval(v@) > cap,
        },
{
    let n = v.len();
    let mut acc: u128 = 0;
    let mut i: usize = 0;
    while i < n
        invariant
            i <= n,
            n == v@.len(),
            spec_all_du(v@),
            acc == spec_uval(v@.subrange(0, i as int)),
            acc <= cap,
        decreases n - i,
    {
        let c = v[i];
        proof {
            assert(v@.subrange(0, i + 1).drop_last() =~= v@.subrange(0, i as int));
            assert(v@.subrange(0, i + 1).last() == v@[i as int]);
        }
        if c == '_' {
            i = i + 1;
            continue ;
        }
        proof {
            assert(spec_is_digit(v@[i as int]));
        }
        let d = crate::text::digit_val(c) as u128;
        if acc > cap / 10 || (acc == cap / 10 && d > cap % 10) {
            proof {
                assert(acc * 10 + d > cap) by {
                    if acc > cap / 10 {
                        assert(acc >= cap / 10 + 1);
                        assert(acc * 10 >= (cap / 10 + 1) * 10) by (nonlinear_arith)
                            requires
                                acc >= cap / 10 + 1,
                        ;
                        assert(cap / 10 * 10 + 10 > cap);
                    }
                }
                lemma_uval_monotonic(v@, i + 1);
            }
            return None;
        }
        proof {
            assert(acc * 10 + d <= cap) by {
                assert(acc <= cap / 10);
                assert(acc * 10 <= cap / 10 * 10) by (nonlinear_arith)
                    requires
                        acc <= cap / 10,
                ;
            }
        }
        acc = acc * 10 + d;
        i = i + 1;
    }
    proof {
        assert(v@.subrange(0, n as int) =~= v@);
    }
    Some(acc)
}

/// Count of characters other than `'_'` (the fractional digit count).
pub open spec fn spec_count_nonus(s: Seq<char>) -> int
    decreases s.len(),
{
    if s.len() == 0 {
        0
    } else {
        spec_count_nonus(s.drop_last()) + if s.last() == '_' {
            0int
        } else {
            1int
        }
    }
}

fn count_nonus(v: &Vec<char>) -> (r: usize)
    ensures
        r == spec_count_nonus(v@),
        r <= v@.len(),
{
    proof {
        lemma_count_nonus_bounds(v@);
    }
    let n = v.len();
    let mut cnt: usize = 0;
    let mut i: usize = 0;
    while i < n
        invariant
            i <= n,
            n == v@.len(),
            cnt == spec_count_nonus(v@.subrange(0, i as int)),
            cnt <= i,
        decreases n - i,
    {
        proof {
            assert(v@.subrange(0, i + 1).drop_last() =~= v@.subrange(0, i as int));
            assert(v@.subrange(0, i + 1).last() == v@[i as int]);
            lemma_count_nonus_bounds(v@.subrange(0, i + 1));
        }
        if v[i] != '_' {
            cnt = cnt + 1;
        }
        i = i + 1;
    }
    proof {
        assert(v@.subrange(0, n as int) =~= v@);
    }
    cnt
}

proof fn lemma_count_nonus_bounds(s: Seq<char>)
    ensures
        0 <= spec_count_nonus(s) <= s.len(),
    decreases s.len(),
{
    if s.len() > 0 {
        lemma_count_nonus_bounds(s.drop_last());
    }
}

/// The characters `v[from..to]`, copied out.
pub fn sub_chars(v: &Vec<char>, from: usize, to: usize) -> (r: Vec<char>)
    requires
        from <= to <= v@.len(),
    ensures
        r@ == v@.subrange(from as int, to as int),
{
    let mut r: Vec<char> = Vec::new();
    let mut i: usize = from;
    while i < to
        invariant
            from <= i <= to <= v@.len(),
            r@ =~= v@.subrange(from as int, i as int),
        decreases to - i,
    {
        r.push(v[i]);
        assert(r@ =~= v@.subrange(from as int, i + 1 as int));
        i = i + 1;
    }
    proof {
        assert(r@ =~= v@.subrange(from as int, to as int));
    }
    r
}

/// The unsigned big-integer grammar: an optional single `'+'`, then a
/// non-empty digit string that may contain (but not start with) underscores.
/// `None` also above the supported magnitude [`MAX_UVAL`].
pub open spec fn spec_parse_biguint(s: Seq<char>) -> Option<nat> {
    let t = if s.len() >= 1 && s[0] == '+' && !(s.len() >= 2 && s[1] == '+') {
        s.skip(1)
    } else {
        s
    };
    if t.len() == 0 {
        None
    } else if t[0] == '_' {
        None
    } else if !spec_all_du(t) {
        None
    } else if spec_uval(t) > MAX_UVAL {
        None
    } else {
        Some(spec_uval(t))
    }
}

#[verifier::loop_isolation(false)]
fn parse_biguint(v: &Vec<char>) -> (r: Option<u128>)
    ensures
        match r {
            Some(x) => spec_parse_biguint(v@) == Some(x as nat) && x <= MAX_UVAL,
            None => spec_parse_biguint(v@) is None,
        },
{
    let t: Vec<char> = if v.len() >= 1 && v[0] == '+' && !(v.len() >= 2 && v[1] == '+') {
        sub_chars(v, 1, v.len())
    } else {
        sub_chars(v, 0, v.len())
    };
    proof {
        if v@.len() >= 1 && v@[0] == '+' && !(v@.len() >= 2 && v@[1] == '+') {
            assert(t@ =~= v@.skip(1));
        } else {
            assert(t@ =~= v@);
        }
    }
    if t.len() == 0 {
        return None;
    }
    if t[0] == '_' {
        return None;
    }
    let n = t.len();
    let mut i: usize = 0;
    while i < n
        invariant
            i <= n,
            n == t@.len(),
            forall|k: int| 0 <= k < i ==> spec_is_du(#[trigger] t@[k]),
        decreases n - i,
    {
        let c = t[i];
        if !(crate::text::is_digit(c) || c == '_') {
            proof {
                assert(!spec_is_du(t@[i as int]));
                assert(!spec_all_du(t@));
            }
            return None;
        }
        i = i + 1;
    }
    uval_checked(&t, MAX_UVAL)
}

/// The signed big-integer grammar: an optional `'-'` (not followed by a
/// stray `'+'`) before the unsigned grammar.
pub open spec fn spec_parse_bigint(s: Seq<char>) -> Option<(bool, nat)> {
    if s.len() >= 1 && s[0] == '-' && !(s.len() >= 2 && s[1] == '+') {
        match spec_parse_biguint(s.skip(1)) {
            Some(x) => Some((true, x)),
            None => None,
        }
    } else {
        match spec_parse_biguint(s) {
            Some(x) => Some((false, x)),
            None => None,
        }
    }
}

fn parse_bigint(v: &Vec<char>) -> (r: Option<(bool, u128)>)
    ensures
        match r {
            Some((ng, x)) => spec_parse_bigint(v@) == Some((ng, x as nat)) && x <= MAX_UVAL,
            None => spec_parse_bigint(v@) is None,
        },
{
    if v.len() >= 1 && v[0] == '-' && !(v.len() >= 2 && v[1] == '+') {
        let t = sub_chars(v, 1, v.len());
        proof {
            assert(t@ =~= v@.skip(1));
        }
        match parse_biguint(&t) {
            Some(x) => Some((true, x)),
            None => None,
        }
    } else {
        match parse_biguint(v) {
            Some(x) => Some((false, x)),
            None => None,
        }
    }
}

/// The exponent grammar of a decimal literal: an optional sign, then plain
/// digits, within the range of a 128-bit signed integer.
pub open spec fn spec_parse_exp(s: Seq<char>) -> Option<int> {
    if s.len() == 0 {
        None
    } else if s[0] == '-' {
        let t = s.skip(1);
        if t.len() >= 1 && crate::text::spec_all_digits(t) && spec_digits_val_of(t)
            <= 0x8000_0000_0000_0000_0000_0000_0000_0000 {
            Some(-spec_digits_val_of(t))
        } else {
            None
        }
    } else if s[0] == '+' {
        let t = s.skip(1);
        if t.len() >= 1 && crate::text::spec_all_digits(t) && spec_digits_val_of(t)
            <= 0x7fff_ffff_ffff_ffff_ffff_ffff_ffff_ffff {
            Some(spec_digits_val_of(t))
        } else {
            None
        }
    } else {
        if crate::text::spec_all_digits(s) && spec_digits_val_of(s)
            <= 0x7fff_ffff_ffff_ffff_ffff_ffff_ffff_ffff {
            Some(spec_digits_val_of(s))
        } else {
            None
        }
    }
}

/// `spec_digits_val` as an `int`.
pub open spec fn spec_digits_val_of(s: Seq<char>) -> int {
    crate::text::spec_digits_val(s) as int
}

fn all_digits_check(v: &Vec<char>) -> (r: bool)
    ensures
        r == crate::text::spec_all_digits(v@),
{
    let n = v.len();
    let mut i: usize = 0;
    while i < n
        invariant
            i <= n,
            n == v@.len(),
            forall|k: int| 0 <= k < i ==> spec_is_digit(#[trigger] v@[k]),
        decreases n - i,
    {
        if !crate::text::is_digit(v[i]) {
            return false;
        }
        i = i + 1;
    }
    true
}

fn parse_exp(v: &Vec<char>) -> (r: Option<i128>)
    ensures
        match r {
            Some(x) => spec_parse_exp(v@) == Some(x as int),
            None => spec_parse_exp(v@) is None,
        },
{
    if v.len() == 0 {
        return None;
    }
    if v[0] == '-' {
        let t = sub_chars(v, 1, v.len());
        proof {
            assert(t@ =~= v@.skip(1));
        }
        if t.len() == 0 || !all_digits_check(&t) {
            return None;
        }
        proof {
            assert(t@.subrange(0, t@.len() as int) =~= t@);
        }
        match crate::text::digits_val_checked(
            &t,
            0,
            t.len(),
            0x8000_0000_0000_0000_0000_0000_0000_0000,
        ) {
            Some(x) => {
                if x == 0x8000_0000_0000_0000_0000_0000_0000_0000 {
                    Some(i128::MIN)
                } else {
                    Some(-(x as i128))
                }
            },
            None => None,
        }
    } else if v[0] == '+' {
        let t = sub_chars(v, 1, v.len());
        proof {
            assert(t@ =~= v@.skip(1));
        }
        if t.len() == 0 || !all_digits_check(&t) {
            return None;
        }
        proof {
            assert(t@.subrange(0, t@.len() as int) =~= t@);
        }
        match crate::text::digits_val_checked(
            &t,
            0,
            t.len(),
            0x7fff_ffff_ffff_ffff_ffff_ffff_ffff_ffff,
        ) {
            Some(x) => Some(x as i128),
            None => None,
        }
    } else {
        if !all_digits_check(v) {
            return None;
        }
        proof {
            assert(v@.subrange(0, v@.len() as int) =~= v@);
        }
        match crate::text::digits_val_checked(
            v,
            0,
            v.len(),
            0x7fff_ffff_ffff_ffff_ffff_ffff_ffff_ffff,
        ) {
            Some(x) => Some(x as i128),
            None => None,
        }
    }
}

/// Trailing-zero stripping at the value level.
pub open spec fn spec_strip(v: nat, s: int) -> (nat, int)
    decreases s,
{
    if s > 0 && v % 10 == 0 {
        spec_strip(v / 10, s - 1)
    } else {
        (v, s)
    }
}

/// Packs a sign, raw digit value and scale into a normalised decimal:
/// trailing fractional zeros are stripped, negative scales are multiplied
/// out, and `None` marks the machine limits: a scale beyond twelve digits
/// or outside the 64-bit range, or a mantissa beyond [`MAX_MANT`].
pub open spec fn spec_make(neg: bool, v: nat, scale0: int) -> Option<Decimal> {
    if scale0 > 0x7fff_ffff_ffff_ffff || scale0 < -0x8000_0000_0000_0000 {
        None
    } else if v == 0 {
        Some(Decimal { neg: false, mant: 0, scale: 0 })
    } else {
        let (v2, s2) = spec_strip(v, scale0);
        if s2 > 12 {
            None
        } else if s2 < 0 {
            if v2 * spec_pow10((-s2) as nat) > MAX_MANT {
                None
            } else {
                Some(Decimal { neg, mant: (v2 * spec_pow10((-s2) as nat)) as u128, scale: 0 })
            }
        } else if v2 > MAX_MANT {
            None
        } else {
            Some(Decimal { neg, mant: v2 as u128, scale: s2 as u32 })
        }
    }
}

proof fn lemma_strip_props(v: nat, s: int)
    ensures
        ({
            let (v2, s2) = spec_strip(v, s);
            &&& v2 <= v
            &&& s2 <= s
            &&& (s > 0 ==> s2 >= 0)
            &&& (s <= 0 ==> s2 == s)
            &&& (s2 == s || (s2 < s && s2 >= 0))
            &&& (s2 > 0 ==> v2 % 10 != 0)
            &&& (v == 0 ==> v2 == 0)
            &&& (v > 0 ==> v2 > 0)
        }),
    decreases s,
{
    if s > 0 && v % 10 == 0 {
        lemma_strip_props(v / 10, s - 1);
    }
}

#[verifier::loop_isolation(false)]
fn make(neg: bool, v: u128, scale0: i128) -> (r: Option<Decimal>)
    requires
        v <= MAX_UVAL,
    ensures
        r == spec_make(neg, v as nat, scale0 as int),
        r is Some ==> r.unwrap().wf() && r.unwrap().mant <= MAX_MANT,
{
    proof {
        lemma_pow10_values();
    }
    if scale0 > 0x7fff_ffff_ffff_ffff || scale0 < -0x8000_0000_0000_0000 {
        return None;
    }
    if v == 0 {
        proof {
            lemma_strip_props(v as nat, scale0 as int);
        }
        return Some(Decimal { neg: false, mant: 0, scale: 0 });
    }
    let mut vv: u128 = v;
    let mut ss: i128 = scale0;
    while ss > 0 && vv % 10 == 0
        invariant
            vv <= v,
            vv >= 1 || v == 0,
            v >= 1,
            spec_strip(v as nat, scale0 as int) == spec_strip(vv as nat, ss as int),
            ss <= 0x7fff_ffff_ffff_ffff,
        decreases ss,
    {
        proof {
            lemma_strip_props(vv as nat / 10, ss as int - 1);
        }
        vv = vv / 10;
        ss = ss - 1;
    }
    proof {
        lemma_strip_props(v as nat, scale0 as int);
        assert(spec_strip(vv as nat, ss as int) == (vv as nat, ss as int));
    }
    if ss > 12 {
        return None;
    }
    if ss < 0 {
        let mut k: i128 = ss;
        let ghost target = vv as nat * spec_pow10((-ss) as nat);
        let mut w: u128 = vv;
        while k < 0
            invariant
                w >= 1,
                k <= 0,
                target == w as nat * spec_pow10((-k) as nat),
            decreases -k,
        {
            if w > MAX_MANT {
                proof {
                    lemma_pow10_pos((-k) as nat);
                    assert(target >= w as nat) by (nonlinear_arith)
                        requires
                            target == w as nat * spec_pow10((-k) as nat),
                            spec_pow10((-k) as nat) >= 1,
                            w >= 1,
                    ;
                }
                return None;
            }
            proof {
                let p1 = spec_pow10((-k) as nat);
                let p0 = spec_pow10((-(k + 1)) as nat);
                assert((-k) as nat == ((-(k + 1)) as nat) + 1);
                assert(p1 == 10 * p0);
                assert(w as nat * (10 * p0) == (w as nat * 10) * p0) by (nonlinear_arith);
            }
            w = w * 10;
            k = k + 1;
        }
        proof {
            assert(k == 0);
            assert((-k) as nat == 0);
            assert(spec_pow10(0) == 1);
            assert(w as nat * 1 == w as nat) by (nonlinear_arith);
            assert(target == w as nat);
        }
        if w > MAX_MANT {
            return None;
        }
        return Some(Decimal { neg, mant: w, scale: 0 });
    }
    if vv > MAX_MANT {
        return None;
    }
    Some(Decimal { neg, mant: vv, scale: ss as u32 })
}

/// First `'.'`, as the decimal point of the base part.
pub open spec fn spec_find_dot(s: Seq<char>) -> Option<int> {
    spec_find2(s, '.', '.')
}

/// Parses the base (non-exponent) part against an already parsed exponent.
pub open spec fn spec_parse_base(b: Seq<char>, exp: int) -> Option<Decimal> {
    if b.len() == 0 {
        None
    } else {
        let digits = match spec_find_dot(b) {
            None => b,
            Some(loc) => if loc == b.len() - 1 {
                b.subrange(0, loc)
            } else {
                b.subrange(0, loc) + b.subrange(loc + 1, b.len() as int)
            },
        };
        let offset: int = match spec_find_dot(b) {
            None => 0,
            Some(loc) => if loc == b.len() - 1 {
                0
            } else {
                spec_count_nonus(b.subrange(loc + 1, b.len() as int))
            },
        };
        match spec_parse_bigint(digits) {
            None => None,
            Some((ng, x)) => spec_make(ng, x, offset - exp),
        }
    }
}

/// The decimal literal grammar: an optional exponent split at the first
/// `'e'` or `'E'`, and a base of sign, digits (underscores allowed) and at
/// most one decimal point.
pub open spec fn spec_parse_amount(s: Seq<char>) -> Option<Decimal> {
    match spec_find2(s, 'e', 'E') {
        None => spec_parse_base(s, 0),
        Some(ep) => {
            match spec_parse_exp(s.subrange(ep + 1, s.len() as int)) {
                None => None,
                Some(exp) => spec_parse_base(s.subrange(0, ep), exp),
            }
        },
    }
}

/// Parses a decimal literal (`1729`, `9.99`, `-1.2e3`); `None` when the
/// text does not follow the grammar or the value falls outside the
/// supported range.
pub fn parse_amount(s: &str) -> (r: Option<Decimal>)
    ensures
        r == spec_parse_amount(s@),
        r is Some ==> r.unwrap().wf() && r.unwrap().mant <= MAX_MANT,
{
    let v = chars_of(s);
    parse_amount_chars(&v)
}

/// [`parse_amount`] on a character vector.
pub fn parse_amount_chars(v: &Vec<char>) -> (r: Option<Decimal>)
    ensures
        r == spec_parse_amount(v@),
        r is Some ==> r.unwrap().wf() && r.unwrap().mant <= MAX_MANT,
{
    match find2(v, 'e', 'E') {
        None => {
            let b = sub_chars(v, 0, v.len());
            proof {
                assert(b@ =~= v@);
            }
            parse_base(&b, 0)
        },
        Some(ep) => {
            let n = v.len();
            let et = sub_chars(v, ep + 1, n);
            match parse_exp(&et) {
                None => None,
                Some(exp) => {
                    let b = sub_chars(v, 0, ep);
                    parse_base(&b, exp)
                },
            }
        },
    }
}

fn parse_base(b: &Vec<char>, exp: i128) -> (r: Option<Decimal>)
    ensures
        r == spec_parse_base(b@, exp as int),
        r is Some ==> r.unwrap().wf() && r.unwrap().mant <= MAX_MANT,
{
    if b.len() == 0 {
        return None;
    }
    let (digits, offset): (Vec<char>, usize) = match find2(b, '.', '.') {
        None => {
            let d = sub_chars(b, 0, b.len());
            proof {
                assert(d@ =~= b@);
            }
            (d, 0)
        },
        Some(loc) => {
            if loc == b.len() - 1 {
                (sub_chars(b, 0, loc), 0)
            } else {
                let mut d = sub_chars(b, 0, loc);
                let tail = sub_chars(b, loc + 1, b.len());
                let cnt = count_nonus(&tail);
                crate::date::push_chars_vec(&mut d, &tail);
                proof {
                    assert(d@ =~= b@.subrange(0, loc as int) + b@.subrange(
                        loc + 1,
                        b@.len() as int,
                    ));
                }
                (d, cnt)
            }
        },
    };
    match parse_bigint(&digits) {
        None => None,
        Some((ng, x)) => {
            if exp < -0x4000_0000_0000_0000_0000_0000_0000_0000
                || exp > 0x4000_0000_0000_0000_0000_0000_0000_0000 {
                proof {
                    assert(spec_make(ng, x as nat, offset - exp as int) is None);
                }
                return None;
            }
            make(ng, x, offset as i128 - exp)
        },
    }
}

} // verus!
