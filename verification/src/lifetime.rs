//! Recurrence patterns and their calendar arithmetic.
//!
//! A lifetime says how long an expense runs: a single day, or `amount`
//! days/weeks/months/years repeated `times` times.  Days and weeks convert
//! to day counts by multiplication; months and years advance the calendar
//! field-wise (carrying months into years, preserving the day of month and
//! clamping it to the target month's length) and take the day-number
//! distance.  Two lifetimes compare equal when their approximate lengths
//! coincide, a year counting 365.25 days and a month 30.44 — the comparison
//! is carried out exactly, in hundredths of a day.

use crate::date::{
    days_before_month, days_before_year, lemma_dn_order, spec_day_number, spec_days_in_month,
    spec_valid_md, Date, MIN_YEAR,
};
use crate::error::CostOfLifeError;
use crate::text::{
    chars_of, digits_val_checked, is_digit, is_unit, lemma_run_end, push_dec_chars, run_end,
    spec_dec_chars, spec_digits_val, spec_is_digit, spec_is_unit, spec_run_end,
};
use vstd::prelude::*;

verus! {

/// Largest value the amount or repetition of a parsed lifetime may take.
pub const MAX_LT_NUM: u64 = 1_000_000_000;

/// `2^64`, the limb base of the exact approximate-length comparison.
pub const LIMB: u128 = 0x1_0000_0000_0000_0000;

/// A recurrence pattern: `amount` units, repeated `times` times.
#[derive(Debug, Copy, Clone)]
pub enum Lifetime {
    SingleDay,
    Year { amount: i64, times: i64 },
    Month { amount: i64, times: i64 },
    Week { amount: i64, times: i64 },
    Day { amount: i64, times: i64 },
}

impl Lifetime {
    /// Both numbers are at least one and within the parsed range.
    pub open spec fn wf(self) -> bool {
        match self {
            Lifetime::SingleDay => true,
            Lifetime::Year { amount, times } => 1 <= amount <= MAX_LT_NUM && 1 <= times
                <= MAX_LT_NUM,
            Lifetime::Month { amount, times } => 1 <= amount <= MAX_LT_NUM && 1 <= times
                <= MAX_LT_NUM,
            Lifetime::Week { amount, times } => 1 <= amount <= MAX_LT_NUM && 1 <= times
                <= MAX_LT_NUM,
            Lifetime::Day { amount, times } => 1 <= amount <= MAX_LT_NUM && 1 <= times
                <= MAX_LT_NUM,
        }
    }

    /// The total span is small enough for exact day arithmetic: day and
    /// week counts stay within `10^15` days, month and year advancements
    /// within `2^31` periods.
    pub open spec fn days_ok(self) -> bool {
        self.wf() && match self {
            Lifetime::SingleDay => true,
            Lifetime::Year { amount, times } => amount * times <= 0x8000_0000,
            Lifetime::Month { amount, times } => amount * times <= 0x8000_0000,
            Lifetime::Week { amount, times } => amount * times <= 0x0004_0000_0000_0000,
            Lifetime::Day { amount, times } => amount * times <= 0x0004_0000_0000_0000,
        }
    }

    pub open spec fn spec_repeats(self) -> int {
        match self {
            Lifetime::SingleDay => 1,
            Lifetime::Year { times, .. } => times as int,
            Lifetime::Month { times, .. } => times as int,
            Lifetime::Week { times, .. } => times as int,
            Lifetime::Day { times, .. } => times as int,
        }
    }

    /// The number of repetitions (one for a single day).
    pub fn get_repeats(&self) -> (r: i64)
        ensures
            r == self.spec_repeats(),
    {
        match self {
            Lifetime::SingleDay => 1,
            Lifetime::Year { times, .. } => *times,
            Lifetime::Month { times, .. } => *times,
            Lifetime::Week { times, .. } => *times,
            Lifetime::Day { times, .. } => *times,
        }
    }

    /// Decides [`Lifetime::days_ok`].
    pub fn days_ok_check(&self) -> (r: bool)
        ensures
            r == self.days_ok(),
    {
        match self {
            Lifetime::SingleDay => true,
            Lifetime::Year { amount, times } => lt_nums_ok(*amount, *times, 0x8000_0000),
            Lifetime::Month { amount, times } => lt_nums_ok(*amount, *times, 0x8000_0000),
            Lifetime::Week { amount, times } => lt_nums_ok(
                *amount,
                *times,
                0x0004_0000_0000_0000,
            ),
            Lifetime::Day { amount, times } => lt_nums_ok(*amount, *times, 0x0004_0000_0000_0000),
        }
    }

    /// The approximate length in hundredths of a day: a year counts
    /// 365.25 days, a month 30.44, a week 7 and a day 1.
    pub open spec fn approx_centidays(self) -> int {
        match self {
            Lifetime::SingleDay => 100,
            Lifetime::Year { amount, times } => 36525 * (amount * times),
            Lifetime::Month { amount, times } => 3044 * (amount * times),
            Lifetime::Week { amount, times } => 700 * (amount * times),
            Lifetime::Day { amount, times } => 100 * (amount * times),
        }
    }
}

/// Both numbers in range and their product at most `bound`.
fn lt_nums_ok(a: i64, t: i64, bound: i64) -> (r: bool)
    ensures
        r == (1 <= a <= MAX_LT_NUM && 1 <= t <= MAX_LT_NUM && a * t <= bound),
{
    if 1 <= a && a <= MAX_LT_NUM as i64 && 1 <= t && t <= MAX_LT_NUM as i64 {
        proof {
            assert(a * t <= 1_000_000_000_000_000_000) by (nonlinear_arith)
                requires
                    1 <= a <= 1_000_000_000 && 1 <= t <= 1_000_000_000,
            ;
            assert(a * t >= 1) by (nonlinear_arith)
                requires
                    1 <= a && 1 <= t,
            ;
        }
        a * t <= bound
    } else {
        false
    }
}

// ---------------------------------------------------------------------------
// calendar advancement and day counts
// ---------------------------------------------------------------------------

/// The (year, month, day) triple `n` months after `d`: months carry into
/// years, the day is preserved and clamped to the target month's length.
pub open spec fn spec_month_advance(d: Date, n: int) -> (int, int, int) {
    let m0 = d.month - 1 + n;
    let y2 = d.year + m0 / 12;
    let m2 = m0 % 12 + 1;
    let d2: int = if d.day <= spec_days_in_month(y2, m2) {
        d.day as int
    } else {
        spec_days_in_month(y2, m2)
    };
    (y2, m2, d2)
}

/// The triple `n` years after `d`, month preserved, day clamped.
pub open spec fn spec_year_advance(d: Date, n: int) -> (int, int, int) {
    let y2 = d.year + n;
    let d2: int = if d.day <= spec_days_in_month(y2, d.month as int) {
        d.day as int
    } else {
        spec_days_in_month(y2, d.month as int)
    };
    (y2, d.month as int, d2)
}

/// The day count a lifetime spans from `d`: multiplication for days and
/// weeks, the day-number distance to the advanced date for months and
/// years, one for a single day.
pub open spec fn spec_days_since(lt: Lifetime, d: Date) -> int {
    match lt {
        Lifetime::SingleDay => 1,
        Lifetime::Day { amount, times } => amount * times,
        Lifetime::Week { amount, times } => 7 * (amount * times),
        Lifetime::Month { amount, times } => {
            let (y2, m2, d2) = spec_month_advance(d, amount * times);
            spec_day_number(y2, m2, d2) - d.dn()
        },
        Lifetime::Year { amount, times } => {
            let (y2, m2, d2) = spec_year_advance(d, amount * times);
            spec_day_number(y2, m2, d2) - d.dn()
        },
    }
}

impl Lifetime {
    /// The exact number of days this lifetime spans starting at `since`.
    pub fn get_days_since(&self, since: &Date) -> (r: i64)
        requires
            self.days_ok(),
            since.wf(),
        ensures
            r == spec_days_since(*self, *since),
            1 <= r <= 0x1000_0000_0000_0000,
    {
        match self {
            Lifetime::SingleDay => 1,
            Lifetime::Day { amount, times } => {
                proof {
                    lemma_product_pos(*amount as int, *times as int);
                }
                *amount * *times
            },
            Lifetime::Week { amount, times } => {
                proof {
                    lemma_product_pos(*amount as int, *times as int);
                }
                7 * (*amount * *times)
            },
            Lifetime::Month { amount, times } => {
                proof {
                    lemma_product_pos(*amount as int, *times as int);
                }
                let n: i64 = *amount * *times;
                let m0: i64 = since.month as i64 - 1 + n;
                let y2: i64 = since.year + m0 / 12;
                let m2: i64 = m0 % 12 + 1;
                let dim = crate::date::days_in_month(y2, m2 as u8);
                let d2: i64 = if since.day <= dim {
                    since.day as i64
                } else {
                    dim as i64
                };
                let dn2: i64 = days_before_year(y2) + days_before_month(y2, m2 as u8) as i64 + d2;
                let dn1: i64 = crate::date::day_number(since);
                proof {
                    lemma_month_advance_later(*since, n as int);
                }
                dn2 - dn1
            },
            Lifetime::Year { amount, times } => {
                proof {
                    lemma_product_pos(*amount as int, *times as int);
                }
                let n: i64 = *amount * *times;
                let y2: i64 = since.year + n;
                let dim = crate::date::days_in_month(y2, since.month);
                let d2: i64 = if since.day <= dim {
                    since.day as i64
                } else {
                    dim as i64
                };
                let dn2: i64 = days_before_year(y2) + days_before_month(y2, since.month) as i64
                    + d2;
                let dn1: i64 = crate::date::day_number(since);
                proof {
                    lemma_year_advance_later(*since, n as int);
                }
                dn2 - dn1
            },
        }
    }
}

/// A product of two 64-bit signed values stays well inside 128 bits.
proof fn lemma_i64_prod_bound(a: int, t: int)
    requires
        -0x8000_0000_0000_0000 <= a < 0x8000_0000_0000_0000,
        -0x8000_0000_0000_0000 <= t < 0x8000_0000_0000_0000,
    ensures
        -0x4000_0000_0000_0000_0000_0000_0000_0000 <= a * t
            <= 0x4000_0000_0000_0000_0000_0000_0000_0000,
{
    assert(-0x4000_0000_0000_0000_0000_0000_0000_0000 <= a * t
        <= 0x4000_0000_0000_0000_0000_0000_0000_0000) by (nonlinear_arith)
        requires
            -0x8000_0000_0000_0000 <= a < 0x8000_0000_0000_0000,
            -0x8000_0000_0000_0000 <= t < 0x8000_0000_0000_0000,
    ;
}

proof fn lemma_product_pos(a: int, t: int)
    requires
        a >= 1,
        t >= 1,
    ensures
        a * t >= 1,
{
    assert(a * t >= 1) by (nonlinear_arith)
        requires
            a >= 1 && t >= 1,
    ;
}

/// A lifetime that supports day arithmetic spans at least one day.
pub proof fn lemma_days_since_pos(lt: Lifetime, d: Date)
    requires
        lt.days_ok(),
        d.wf(),
    ensures
        spec_days_since(lt, d) >= 1,
{
    match lt {
        Lifetime::SingleDay => {},
        Lifetime::Day { amount, times } => {
            lemma_product_pos(amount as int, times as int);
        },
        Lifetime::Week { amount, times } => {
            lemma_product_pos(amount as int, times as int);
            assert(7 * (amount * times) >= 7) by (nonlinear_arith)
                requires
                    amount * times >= 1,
            ;
        },
        Lifetime::Month { amount, times } => {
            lemma_product_pos(amount as int, times as int);
            lemma_month_advance_later(d, amount * times);
        },
        Lifetime::Year { amount, times } => {
            lemma_product_pos(amount as int, times as int);
            lemma_year_advance_later(d, amount * times);
        },
    }
}

/// Advancing by `n >= 1` months lands on a valid month/day strictly after
/// the start in day numbers.
proof fn lemma_month_advance_later(d: Date, n: int)
    requires
        d.wf(),
        1 <= n <= 0x8000_0000,
    ensures
        ({
            let (y2, m2, d2) = spec_month_advance(d, n);
            &&& spec_valid_md(y2, m2, d2)
            &&& y2 >= d.year
            &&& d.dn() < spec_day_number(y2, m2, d2)
        }),
{
    let m0 = d.month - 1 + n;
    let y2 = d.year + m0 / 12;
    let m2 = m0 % 12 + 1;
    let (y2_, m2_, d2) = spec_month_advance(d, n);
    vstd::arithmetic::div_mod::lemma_fundamental_div_mod(m0, 12);
    assert(m0 / 12 >= 0) by {
        if m0 / 12 < 0 {
            assert(12 * (m0 / 12) + m0 % 12 < 0);
        }
    }
    assert(y2 * 12 + m2 == d.year * 12 + d.month + n) by {
        assert(y2 * 12 == d.year * 12 + (m0 / 12) * 12) by (nonlinear_arith)
            requires
                y2 == d.year + m0 / 12,
        ;
        assert(12 * (m0 / 12) == (m0 / 12) * 12) by (nonlinear_arith);
    }
    assert(spec_valid_md(y2_, m2_, d2));
    lemma_dn_order(
        d.year as int,
        d.month as int,
        d.day as int,
        y2_,
        m2_,
        d2,
    );
}

/// Advancing by `n >= 1` years lands strictly after the start.
proof fn lemma_year_advance_later(d: Date, n: int)
    requires
        d.wf(),
        1 <= n <= 0x8000_0000,
    ensures
        ({
            let (y2, m2, d2) = spec_year_advance(d, n);
            &&& spec_valid_md(y2, m2, d2)
            &&& y2 >= d.year
            &&& d.dn() < spec_day_number(y2, m2, d2)
        }),
{
    let (y2, m2, d2) = spec_year_advance(d, n);
    assert(spec_valid_md(y2, m2, d2));
    assert(d.year * 12 + d.month < y2 * 12 + m2) by (nonlinear_arith)
        requires
            y2 == d.year + n,
            n >= 1,
            m2 == d.month,
    ;
    lemma_dn_order(d.year as int, d.month as int, d.day as int, y2, m2, d2);
}

// ---------------------------------------------------------------------------
// approximate equality
// ---------------------------------------------------------------------------

pub open spec fn spec_abs(v: int) -> int {
    if v >= 0 {
        v
    } else {
        -v
    }
}

/// The approximate length of `lt`, split as sign and a two-limb magnitude
/// (the magnitude can exceed 128 bits for extreme field values).
fn approx_parts(lt: &Lifetime) -> (r: (bool, u128, u128))
    ensures
        ({
            let (s, h, l) = r;
            let v = lt.approx_centidays();
            &&& l < LIMB
            &&& h * LIMB + l == spec_abs(v)
            &&& s == (v < 0)
        }),
{
    let (u, a, t): (u128, i64, i64) = match lt {
        Lifetime::SingleDay => (100, 1, 1),
        Lifetime::Year { amount, times } => (36525, *amount, *times),
        Lifetime::Month { amount, times } => (3044, *amount, *times),
        Lifetime::Week { amount, times } => (700, *amount, *times),
        Lifetime::Day { amount, times } => (100, *amount, *times),
    };
    proof {
        lemma_i64_prod_bound(a as int, t as int);
    }
    let p: i128 = a as i128 * t as i128;
    let neg = p < 0;
    let m: u128 = if p < 0 {
        (-p) as u128
    } else {
        p as u128
    };
    let hi = m / LIMB;
    let lo = m % LIMB;
    let c = lo * u;
    proof {
        assert(lo * u < 0x1_0000_0000_0000_0000 * 36526) by (nonlinear_arith)
            requires
                lo < 0x1_0000_0000_0000_0000 && u <= 36525,
        ;
        assert(hi * u <= 0x4000_0000_0000_0000 * 36525) by (nonlinear_arith)
            requires
                hi <= 0x4000_0000_0000_0000 && u <= 36525,
        ;
    }
    let h = hi * u + c / LIMB;
    let l = c % LIMB;
    proof {
        vstd::arithmetic::div_mod::lemma_fundamental_div_mod(m as int, LIMB as int);
        vstd::arithmetic::div_mod::lemma_fundamental_div_mod(c as int, LIMB as int);
        let v = lt.approx_centidays();
        assert(m == spec_abs(p as int));
        assert(v == u * (p as int));
        assert(spec_abs(v) == u * m) by (nonlinear_arith)
            requires
                v == u * (p as int),
                m == spec_abs(p as int),
                u >= 1,
        ;
        assert((v < 0) == neg) by (nonlinear_arith)
            requires
                v == u * (p as int),
                u >= 1,
                neg == (p < 0),
        ;
        assert(u * m == h * LIMB + l) by (nonlinear_arith)
            requires
                m == LIMB * hi + lo,
                c == lo * u,
                c == LIMB * (c / LIMB) + l,
                h == hi * u + c / LIMB,
        ;
    }
    (neg, h, l)
}

/// Two-limb magnitudes are unique: equal values have equal limbs.
proof fn lemma_limbs_unique(h1: u128, l1: u128, h2: u128, l2: u128)
    requires
        l1 < LIMB,
        l2 < LIMB,
        h1 * LIMB + l1 == h2 * LIMB + l2,
    ensures
        h1 == h2,
        l1 == l2,
{
    let x = h1 * LIMB + l1;
    vstd::arithmetic::div_mod::lemma_fundamental_div_mod_converse(
        x as int,
        LIMB as int,
        h1 as int,
        l1 as int,
    );
    vstd::arithmetic::div_mod::lemma_fundamental_div_mod_converse(
        x as int,
        LIMB as int,
        h2 as int,
        l2 as int,
    );
}

impl PartialEq for Lifetime {
    /// Equality by approximate length — `365.25 * amount * times` days for
    /// years, `30.44` for months, `7` for weeks, `1` for days — compared
    /// exactly in hundredths of a day.
    fn eq(&self, other: &Self) -> (r: bool) {
        let (s1, h1, l1) = approx_parts(self);
        let (s2, h2, l2) = approx_parts(other);
        let r = h1 == h2 && l1 == l2 && (s1 == s2 || (h1 == 0 && l1 == 0));
        proof {
            let v1 = self.approx_centidays();
            let v2 = other.approx_centidays();
            if r {
                assert(spec_abs(v1) == spec_abs(v2));
                if h1 == 0 && l1 == 0 {
                    assert(v1 == 0 && v2 == 0);
                }
            } else {
                if h1 == h2 && l1 == l2 {
                    assert(spec_abs(v1) == spec_abs(v2));
                    assert(s1 != s2 && !(h1 == 0 && l1 == 0));
                    assert(v1 != v2);
                } else {
                    if spec_abs(v1) == spec_abs(v2) {
                        lemma_limbs_unique(h1, l1, h2, l2);
                    }
                    assert(v1 != v2);
                }
            }
        }
        r
    }
}

impl vstd::std_specs::cmp::PartialEqSpecImpl for Lifetime {
    open spec fn obeys_eq_spec() -> bool {
        true
    }

    open spec fn eq_spec(&self, other: &Lifetime) -> bool {
        self.approx_centidays() == other.approx_centidays()
    }
}

// ---------------------------------------------------------------------------
// parsing
// ---------------------------------------------------------------------------

/// The leftmost recurrence match: the first position of a digit run that
/// starts with a nonzero digit and runs into a unit letter; the result is
/// the run's span, the unit letter standing at its end.
pub open spec fn spec_lt_find(s: Seq<char>, i: int) -> Option<(int, int)>
    decreases s.len() - i,
    via spec_lt_find_decreases
{
    if i < 0 || i >= s.len() {
        None
    } else if spec_is_digit(s[i]) && s[i] != '0' {
        let e = spec_run_end(s, i);
        if e < s.len() && spec_is_unit(s[e]) {
            Some((i, e))
        } else {
            spec_lt_find(s, e)
        }
    } else {
        spec_lt_find(s, i + 1)
    }
}

#[via_fn]
proof fn spec_lt_find_decreases(s: Seq<char>, i: int) {
    if 0 <= i < s.len() && spec_is_digit(s[i]) && s[i] != '0' {
        lemma_run_end(s, i + 1);
        assert(spec_run_end(s, i) == spec_run_end(s, i + 1));
    }
}

/// The optional repetition part after the unit at `u`: a nonzero-led digit
/// run immediately after the unit, closed by an `'x'`.
pub open spec fn spec_lt_times(s: Seq<char>, u: int) -> Option<(int, int)> {
    let j = u + 1;
    if j < s.len() && spec_is_digit(s[j]) && s[j] != '0' {
        let f = spec_run_end(s, j);
        if f < s.len() && s[f] == 'x' {
            Some((j, f))
        } else {
            None
        }
    } else {
        None
    }
}

/// What scanning a token for a recurrence yields: a recognised match, a
/// number running into a letter that is no unit, or nothing at all.
pub ghost enum LtScan {
    Found(int, int),
    BadUnit,
    Missing,
}

/// Scans like [`spec_lt_find`], but a nonzero-led digit run whose end is a
/// letter outside `d`/`w`/`m`/`y` is an unrecognised unit, not a miss.
pub open spec fn spec_lt_scan(s: Seq<char>, i: int) -> LtScan
    decreases s.len() - i,
    via spec_lt_scan_decreases
{
    if i < 0 || i >= s.len() {
        LtScan::Missing
    } else if spec_is_digit(s[i]) && s[i] != '0' {
        let e = spec_run_end(s, i);
        if e < s.len() && spec_is_unit(s[e]) {
            LtScan::Found(i, e)
        } else if e < s.len() && crate::text::spec_is_alpha(s[e]) {
            LtScan::BadUnit
        } else {
            spec_lt_scan(s, e)
        }
    } else {
        spec_lt_scan(s, i + 1)
    }
}

#[via_fn]
proof fn spec_lt_scan_decreases(s: Seq<char>, i: int) {
    if 0 <= i < s.len() && spec_is_digit(s[i]) && s[i] != '0' {
        lemma_run_end(s, i + 1);
        assert(spec_run_end(s, i) == spec_run_end(s, i + 1));
    }
}

/// What parsing a lifetime yields: a recognised `<int><unit>[<int>x]`
/// match decides the variant, a number running into an unrecognised unit
/// letter is an error, a token with no lifetime markers at all is a
/// one-day-once lifetime, and the numbers must stay within
/// [`MAX_LT_NUM`].
pub open spec fn spec_lifetime_parse(s: Seq<char>) -> Option<Lifetime> {
    match spec_lt_scan(s, 0) {
        LtScan::BadUnit => None,
        LtScan::Missing => Some(Lifetime::Day { amount: 1, times: 1 }),
        LtScan::Found(a0, a1) => {
            let td = match spec_lt_times(s, a1) {
                None => seq!['1'],
                Some((t0, t1)) => s.subrange(t0, t1),
            };
            let av = spec_digits_val(s.subrange(a0, a1));
            let tv = spec_digits_val(td);
            if av > MAX_LT_NUM || tv > MAX_LT_NUM {
                None
            } else if s[a1] == 'w' {
                Some(Lifetime::Week { amount: av as i64, times: tv as i64 })
            } else if s[a1] == 'y' {
                Some(Lifetime::Year { amount: av as i64, times: tv as i64 })
            } else if s[a1] == 'm' {
                Some(Lifetime::Month { amount: av as i64, times: tv as i64 })
            } else {
                Some(Lifetime::Day { amount: av as i64, times: tv as i64 })
            }
        },
    }
}

/// What a found scan yields: a nonzero-led digit run whose end is a unit
/// letter.
proof fn lemma_lt_scan_props(s: Seq<char>, i: int)
    requires
        0 <= i <= s.len(),
    ensures
        match spec_lt_scan(s, i) {
            LtScan::Found(a, e) => i <= a < e && e == spec_run_end(s, a) && e < s.len()
                && spec_is_digit(s[a]) && s[a] != '0' && spec_is_unit(s[e]),
            LtScan::BadUnit => true,
            LtScan::Missing => true,
        },
    decreases s.len() - i,
{
    if i < s.len() {
        if spec_is_digit(s[i]) && s[i] != '0' {
            lemma_run_end(s, i);
            lemma_run_end(s, i + 1);
            assert(spec_run_end(s, i) == spec_run_end(s, i + 1));
            let e = spec_run_end(s, i);
            if e < s.len() && spec_is_unit(s[e]) {
            } else if e < s.len() && crate::text::spec_is_alpha(s[e]) {
            } else {
                lemma_lt_scan_props(s, e);
            }
        } else {
            lemma_lt_scan_props(s, i + 1);
        }
    }
}

/// The executable scan outcome.
enum LtScanHit {
    Found(usize, usize),
    BadUnit,
    Missing,
}

/// Executable counterpart of [`spec_lt_scan`] from position zero.
fn lt_scan(v: &Vec<char>) -> (r: LtScanHit)
    ensures
        match r {
            LtScanHit::Found(a0, a1) => spec_lt_scan(v@, 0) == LtScan::Found(
                a0 as int,
                a1 as int,
            ) && a0 < a1 && a1 < v@.len(),
            LtScanHit::BadUnit => spec_lt_scan(v@, 0) is BadUnit,
            LtScanHit::Missing => spec_lt_scan(v@, 0) is Missing,
        },
{
    let n = v.len();
    let mut i: usize = 0;
    loop
        invariant
            i <= n,
            n == v@.len(),
            spec_lt_scan(v@, 0) == spec_lt_scan(v@, i as int),
        decreases n - i,
    {
        if i == n {
            return LtScanHit::Missing;
        }
        let c = v[i];
        if is_digit(c) && c != '0' {
            let e = run_end(v, i);
            proof {
                lemma_run_end(v@, i as int);
                lemma_run_end(v@, i + 1);
                assert(spec_run_end(v@, i as int) == spec_run_end(v@, i + 1));
            }
            if e < n && is_unit(v[e]) {
                return LtScanHit::Found(i, e);
            }
            if e < n && crate::text::is_alpha(v[e]) {
                return LtScanHit::BadUnit;
            }
            i = e;
        } else {
            i = i + 1;
        }
    }
}

/// What a successful find yields: a nonzero-led digit run whose end is a
/// unit letter.
proof fn lemma_lt_find_props(s: Seq<char>, i: int)
    requires
        0 <= i <= s.len(),
    ensures
        match spec_lt_find(s, i) {
            Some((a, e)) => i <= a < e && e == spec_run_end(s, a) && e < s.len()
                && spec_is_digit(s[a]) && s[a] != '0' && spec_is_unit(s[e]),
            None => true,
        },
    decreases s.len() - i,
{
    if i < s.len() {
        if spec_is_digit(s[i]) && s[i] != '0' {
            lemma_run_end(s, i);
            lemma_run_end(s, i + 1);
            assert(spec_run_end(s, i) == spec_run_end(s, i + 1));
            let e = spec_run_end(s, i);
            if e < s.len() && spec_is_unit(s[e]) {
            } else {
                lemma_lt_find_props(s, e);
            }
        } else {
            lemma_lt_find_props(s, i + 1);
        }
    }
}

/// Executable counterpart of [`spec_lt_find`] from position zero.
fn lt_find(v: &Vec<char>) -> (r: Option<(usize, usize)>)
    ensures
        match r {
            Some((a0, a1)) => spec_lt_find(v@, 0) == Some((a0 as int, a1 as int)) && a0 < a1
                <= v@.len() && a1 < v@.len(),
            None => spec_lt_find(v@, 0) is None,
        },
{
    let n = v.len();
    let mut i: usize = 0;
    loop
        invariant
            i <= n,
            n == v@.len(),
            spec_lt_find(v@, 0) == spec_lt_find(v@, i as int),
        decreases n - i,
    {
        if i == n {
            return None;
        }
        let c = v[i];
        if is_digit(c) && c != '0' {
            let e = run_end(v, i);
            proof {
                lemma_run_end(v@, i as int);
                lemma_run_end(v@, i + 1);
                assert(spec_run_end(v@, i as int) == spec_run_end(v@, i + 1));
            }
            if e < n && is_unit(v[e]) {
                return Some((i, e));
            }
            i = e;
        } else {
            i = i + 1;
        }
    }
}

/// Whether the string holds a recurrence match at all.
pub fn has_lt_token(v: &Vec<char>) -> (r: bool)
    ensures
        r == (spec_lt_find(v@, 0) is Some),
{
    match lt_find(v) {
        Some(_) => true,
        None => false,
    }
}

impl Lifetime {
    /// Parses a recurrence token: `<digits><unit>` with an optional
    /// `<digits>x` repetition, searched anywhere in the string.  A number
    /// running into a letter that is no unit is rejected as an
    /// unrecognised unit; a string with no lifetime markers at all is a
    /// one-day-once lifetime; numbers beyond the supported range are
    /// rejected.
    pub fn parse(s: &str) -> (r: Result<Lifetime, CostOfLifeError>)
        ensures
            match r {
                Ok(lt) => spec_lifetime_parse(s@) == Some(lt) && lt.wf(),
                Err(e) => spec_lifetime_parse(s@) is None && e is InvalidLifetimeFormat,
            },
    {
        let v = chars_of(s);
        Self::parse_chars(&v)
    }

    /// [`Lifetime::parse`] on a character vector.
    pub fn parse_chars(v: &Vec<char>) -> (r: Result<Lifetime, CostOfLifeError>)
        ensures
            match r {
                Ok(lt) => spec_lifetime_parse(v@) == Some(lt) && lt.wf(),
                Err(e) => spec_lifetime_parse(v@) is None && e is InvalidLifetimeFormat,
            },
    {
        proof {
            lemma_one_digit();
            lemma_lt_scan_props(v@, 0);
        }
        match lt_scan(v) {
            LtScanHit::Missing => Ok(Lifetime::Day { amount: 1, times: 1 }),
            LtScanHit::BadUnit => Err(
                CostOfLifeError::InvalidLifetimeFormat("unrecognised lifetime unit".to_owned()),
            ),
            LtScanHit::Found(a0, a1) => {
                proof {
                    lemma_run_digits(v@, a0 as int, a1 as int);
                }
                let av = match digits_val_checked(v, a0, a1, MAX_LT_NUM as u128) {
                    Some(x) => x as u64,
                    None => {
                        return Err(
                            CostOfLifeError::InvalidLifetimeFormat(
                                "lifetime amount out of range".to_owned(),
                            ),
                        );
                    },
                };
                let u = v[a1];
                let n = v.len();
                let j = a1 + 1;
                let tv: u64 = if j < n && is_digit(v[j]) && v[j] != '0' {
                    let f = run_end(v, j);
                    proof {
                        lemma_run_end(v@, j as int);
                    }
                    if f < n && v[f] == 'x' {
                        proof {
                            lemma_run_digits(v@, j as int, f as int);
                        }
                        match digits_val_checked(v, j, f, MAX_LT_NUM as u128) {
                            Some(x) => x as u64,
                            None => {
                                return Err(
                                    CostOfLifeError::InvalidLifetimeFormat(
                                        "lifetime repetition out of range".to_owned(),
                                    ),
                                );
                            },
                        }
                    } else {
                        1
                    }
                } else {
                    1
                };
                proof {
                    lemma_nonzero_run(v@, a0 as int, a1 as int);
                    if spec_lt_times(v@, a1 as int) is Some {
                        let (t0, t1) = spec_lt_times(v@, a1 as int).unwrap();
                        lemma_nonzero_run(v@, t0, t1);
                    }
                }
                if u == 'w' {
                    Ok(Lifetime::Week { amount: av as i64, times: tv as i64 })
                } else if u == 'y' {
                    Ok(Lifetime::Year { amount: av as i64, times: tv as i64 })
                } else if u == 'm' {
                    Ok(Lifetime::Month { amount: av as i64, times: tv as i64 })
                } else {
                    Ok(Lifetime::Day { amount: av as i64, times: tv as i64 })
                }
            },
        }
    }
}

/// The digit string `"1"` has value one.
proof fn lemma_one_digit()
    ensures
        spec_digits_val(seq!['1']) == 1,
{
    let s: Seq<char> = seq!['1'];
    assert(s.drop_last() =~= Seq::<char>::empty());
    assert(spec_digits_val(s) == spec_digits_val(s.drop_last()) * 10 + crate::text::spec_digit_val(
        '1',
    ) as nat);
}

/// Characters of a digit run are digits.
proof fn lemma_run_digits(s: Seq<char>, i: int, e: int)
    requires
        0 <= i <= s.len(),
        e == spec_run_end(s, i),
    ensures
        crate::text::spec_all_digits(s.subrange(i, e)),
        i <= e <= s.len(),
{
    lemma_run_end(s, i);
    assert forall|k: int| 0 <= k < e - i implies spec_is_digit(#[trigger] s.subrange(i, e)[k]) by {
        assert(s.subrange(i, e)[k] == s[k + i]);
    }
}

/// A digit run that starts with a nonzero digit has a positive value.
proof fn lemma_nonzero_run(s: Seq<char>, i: int, e: int)
    requires
        0 <= i < e <= s.len(),
        spec_is_digit(s[i]),
        s[i] != '0',
        e == spec_run_end(s, i),
    ensures
        spec_digits_val(s.subrange(i, e)) >= 1,
{
    lemma_leading_digit_pos(s.subrange(i, e));
}

/// A digit string with a nonzero leading digit has a positive value.
proof fn lemma_leading_digit_pos(t: Seq<char>)
    requires
        t.len() >= 1,
        spec_is_digit(t[0]),
        t[0] != '0',
    ensures
        spec_digits_val(t) >= 1,
    decreases t.len(),
{
    if t.len() == 1 {
        assert(t.drop_last() =~= Seq::<char>::empty());
        assert(crate::text::spec_digit_val(t[0]) >= 1);
    } else {
        assert(t.drop_last()[0] == t[0]);
        lemma_leading_digit_pos(t.drop_last());
        assert(spec_digits_val(t) == spec_digits_val(t.drop_last()) * 10
            + crate::text::spec_digit_val(t.last()) as nat);
        assert(spec_digits_val(t.drop_last()) * 10 >= 10) by (nonlinear_arith)
            requires
                spec_digits_val(t.drop_last()) >= 1,
        ;
    }
}

impl core::str::FromStr for Lifetime {
    type Err = CostOfLifeError;

    fn from_str(s: &str) -> Result<Lifetime, CostOfLifeError> {
        Lifetime::parse(s)
    }
}

// ---------------------------------------------------------------------------
// display
// ---------------------------------------------------------------------------

/// The canonical text of a lifetime, `{amount}{unit}{times}x`; a single
/// day renders as `1d1x`.
pub open spec fn spec_lt_text(lt: Lifetime) -> Seq<char> {
    match lt {
        Lifetime::SingleDay => seq!['1', 'd', '1', 'x'],
        Lifetime::Year { amount, times } => spec_dec_chars(amount as nat) + seq!['y']
            + spec_dec_chars(times as nat) + seq!['x'],
        Lifetime::Month { amount, times } => spec_dec_chars(amount as nat) + seq!['m']
            + spec_dec_chars(times as nat) + seq!['x'],
        Lifetime::Week { amount, times } => spec_dec_chars(amount as nat) + seq!['w']
            + spec_dec_chars(times as nat) + seq!['x'],
        Lifetime::Day { amount, times } => spec_dec_chars(amount as nat) + seq!['d']
            + spec_dec_chars(times as nat) + seq!['x'],
    }
}

impl Lifetime {
    /// Appends the canonical text `{amount}{unit}{times}x`.
    pub fn push_text(&self, out: &mut Vec<char>)
        requires
            self.wf(),
        ensures
            final (out)@ == old(out)@ + spec_lt_text(*self),
    {
        match self {
            Lifetime::SingleDay => {
                out.push('1');
                out.push('d');
                out.push('1');
                out.push('x');
                proof {
                    assert(out@ =~= old(out)@ + spec_lt_text(*self));
                }
            },
            Lifetime::Year { amount, times } => {
                push_dec_chars(out, *amount as u128);
                out.push('y');
                push_dec_chars(out, *times as u128);
                out.push('x');
                proof {
                    assert(out@ =~= old(out)@ + spec_lt_text(*self));
                }
            },
            Lifetime::Month { amount, times } => {
                push_dec_chars(out, *amount as u128);
                out.push('m');
                push_dec_chars(out, *times as u128);
                out.push('x');
                proof {
                    assert(out@ =~= old(out)@ + spec_lt_text(*self));
                }
            },
            Lifetime::Week { amount, times } => {
                push_dec_chars(out, *amount as u128);
                out.push('w');
                push_dec_chars(out, *times as u128);
                out.push('x');
                proof {
                    assert(out@ =~= old(out)@ + spec_lt_text(*self));
                }
            },
            Lifetime::Day { amount, times } => {
                push_dec_chars(out, *amount as u128);
                out.push('d');
                push_dec_chars(out, *times as u128);
                out.push('x');
                proof {
                    assert(out@ =~= old(out)@ + spec_lt_text(*self));
                }
            },
        }
    }

    /// The canonical text as a `String`.
    pub fn to_text(&self) -> (r: String)
        requires
            self.wf(),
        ensures
            r@ == spec_lt_text(*self),
    {
        let mut v: Vec<char> = Vec::new();
        self.push_text(&mut v);
        crate::text::string_of(&v)
    }
}

} // verus!
