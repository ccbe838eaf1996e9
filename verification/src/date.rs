//! Proleptic Gregorian calendar arithmetic.
//!
//! Dates are plain `(year, month, day)` triples, valid within the same year
//! range the underlying calendar library supports.  All calendar math —
//! leap years, month lengths, day numbering, advancing by days, months or
//! years — is carried out here and proved against a day-number model:
//! `spec_day_number` maps every valid date to its ordinal day, and every
//! operation states exactly how it moves that number.

use crate::text::{
    digits_val_checked, is_ws, lemma_digits_val_upper, lemma_run_end, push_dec_chars,
    spec_all_digits, spec_dec_chars, spec_digits_val, spec_is_digit, spec_is_ws, spec_pow10,
    spec_run_end, spec_ws_prefix_len,
};
use chrono::Datelike;
use vstd::arithmetic::div_mod::{
    lemma_fundamental_div_mod, lemma_fundamental_div_mod_converse, lemma_mod_multiples_basic,
};
use vstd::prelude::*;

verus! {

/// Smallest representable year (the calendar library's own lower bound).
pub const MIN_YEAR: i64 = -262143;

/// Largest representable year (the calendar library's own upper bound).
pub const MAX_YEAR: i64 = 262142;

/// Offset added to years so that all spec arithmetic happens on positive
/// numbers; a multiple of 400, so leap-year structure is unchanged.
pub const YEAR_SHIFT: i64 = 1600000;

/// A calendar date.  Valid dates satisfy [`Date::wf`]; the constructors in
/// this crate only produce valid dates.
#[derive(Clone, Copy, Debug, PartialEq, Eq, Structural)]
pub struct Date {
    pub year: i64,
    pub month: u8,
    pub day: u8,
}

/// Gregorian leap-year rule, expressed on shifted years.
pub open spec fn spec_is_leap(y: int) -> bool {
    let ys = y + YEAR_SHIFT;
    (ys % 4 == 0 && ys % 100 != 0) || ys % 400 == 0
}

pub open spec fn spec_days_in_month(y: int, m: int) -> int {
    if m == 2 {
        if spec_is_leap(y) {
            29
        } else {
            28
        }
    } else if m == 4 || m == 6 || m == 9 || m == 11 {
        30
    } else {
        31
    }
}

/// Days of year `y` that precede the first day of month `m`; `m == 13`
/// yields the length of the year.
pub open spec fn spec_days_before_month(y: int, m: int) -> int {
    let base: int = if m == 1 {
        0
    } else if m == 2 {
        31
    } else if m == 3 {
        59
    } else if m == 4 {
        90
    } else if m == 5 {
        120
    } else if m == 6 {
        151
    } else if m == 7 {
        181
    } else if m == 8 {
        212
    } else if m == 9 {
        243
    } else if m == 10 {
        273
    } else if m == 11 {
        304
    } else if m == 12 {
        334
    } else {
        365
    };
    base + if spec_is_leap(y) && m > 2 {
        1int
    } else {
        0int
    }
}

pub open spec fn spec_year_len(y: int) -> int {
    if spec_is_leap(y) {
        366
    } else {
        365
    }
}

/// Leap years among shifted years `1 .. ys`.
pub open spec fn spec_leaps_before(ys: int) -> int {
    (ys - 1) / 4 - (ys - 1) / 100 + (ys - 1) / 400
}

/// Days in shifted years `1 .. y + YEAR_SHIFT`, i.e. days before January 1st
/// of year `y`.
pub open spec fn spec_days_before_year(y: int) -> int {
    let ys = y + YEAR_SHIFT;
    365 * (ys - 1) + spec_leaps_before(ys)
}

/// The ordinal day number of a date; January 1st of shifted year 1 is day 1.
pub open spec fn spec_day_number(y: int, m: int, d: int) -> int {
    spec_days_before_year(y) + spec_days_before_month(y, m) + d
}

/// Month and day name a real day of year `y` (no bound on the year).
pub open spec fn spec_valid_md(y: int, m: int, d: int) -> bool {
    1 <= m <= 12 && 1 <= d <= spec_days_in_month(y, m)
}

pub open spec fn spec_valid_ymd(y: int, m: int, d: int) -> bool {
    MIN_YEAR <= y <= MAX_YEAR && spec_valid_md(y, m, d)
}

impl Date {
    /// The date designates a real calendar day in the supported year range.
    pub open spec fn wf(self) -> bool {
        spec_valid_ymd(self.year as int, self.month as int, self.day as int)
    }

    pub open spec fn dn(self) -> int {
        spec_day_number(self.year as int, self.month as int, self.day as int)
    }
}

// ---------------------------------------------------------------------------
// arithmetic lemmas
// ---------------------------------------------------------------------------

/// Stepping the dividend down by one lowers the quotient exactly on
/// multiples of the divisor.
proof fn lemma_div_step(n: int, k: int)
    requires
        n >= 1,
        k >= 1,
    ensures
        n / k - (n - 1) / k == if n % k == 0 {
            1int
        } else {
            0int
        },
{
    lemma_fundamental_div_mod(n, k);
    let d = n / k;
    let r = n % k;
    if r == 0 {
        assert(n - 1 == (d - 1) * k + (k - 1)) by (nonlinear_arith)
            requires
                n == k * d,
                k >= 1,
        ;
        lemma_fundamental_div_mod_converse(n - 1, k, d - 1, k - 1);
    } else {
        assert(n - 1 == d * k + (r - 1)) by (nonlinear_arith)
            requires
                n == k * d + r,
        ;
        lemma_fundamental_div_mod_converse(n - 1, k, d, r - 1);
    }
}

/// A multiple of `a * b` is a multiple of `a`.
proof fn lemma_mod_chain(x: int, a: int, b: int)
    requires
        a >= 1,
        b >= 1,
        x % (a * b) == 0,
    ensures
        x % a == 0,
{
    assert(a * b >= 1) by (nonlinear_arith)
        requires
            a >= 1 && b >= 1,
    ;
    lemma_fundamental_div_mod(x, a * b);
    let q = x / (a * b);
    assert(x == (a * b) * q);
    assert((a * b) * q == (b * q) * a) by (nonlinear_arith);
    lemma_mod_multiples_basic(b * q, a);
}

/// Crossing from year `y` to `y + 1` adds exactly the length of year `y`.
pub proof fn lemma_dby_step(y: int)
    requires
        y + YEAR_SHIFT >= 1,
    ensures
        spec_days_before_year(y + 1) == spec_days_before_year(y) + spec_year_len(y),
{
    let ys = y + YEAR_SHIFT;
    lemma_div_step(ys, 4);
    lemma_div_step(ys, 100);
    lemma_div_step(ys, 400);
    if ys % 400 == 0 {
        lemma_mod_chain(ys, 100, 4);
        lemma_mod_chain(ys, 4, 25);
    } else if ys % 100 == 0 {
        lemma_mod_chain(ys, 4, 25);
    }
}

/// Day counts before years grow monotonically, by at least 365 per year.
pub proof fn lemma_dby_mono(y1: int, y2: int)
    requires
        y1 <= y2,
        y1 + YEAR_SHIFT >= 1,
    ensures
        spec_days_before_year(y2) >= spec_days_before_year(y1) + 365 * (y2 - y1),
    decreases y2 - y1,
{
    if y1 < y2 {
        lemma_dby_step(y2 - 1);
        lemma_dby_mono(y1, y2 - 1);
    }
}

/// Cumulative month table against month lengths.
pub proof fn lemma_dbm_dim(y: int, m: int)
    requires
        1 <= m <= 12,
    ensures
        spec_days_before_month(y, m + 1) == spec_days_before_month(y, m) + spec_days_in_month(
            y,
            m,
        ),
{
}

/// The month table is monotone.
pub proof fn lemma_dbm_mono(y: int, m1: int, m2: int)
    requires
        1 <= m1 <= m2 <= 13,
    ensures
        spec_days_before_month(y, m1) <= spec_days_before_month(y, m2),
{
}

/// A valid date's day number falls inside its year.
pub proof fn lemma_dn_bounds(y: int, m: int, d: int)
    requires
        spec_valid_md(y, m, d),
        y >= MIN_YEAR,
    ensures
        spec_days_before_year(y) + 1 <= spec_day_number(y, m, d),
        spec_day_number(y, m, d) <= spec_days_before_year(y + 1),
    decreases 0int,
{
    lemma_dbm_dim(y, m);
    lemma_dbm_mono(y, m + 1, 13);
    lemma_dby_step(y);
}

/// Day numbers respect year/month order: a valid date in a strictly later
/// (year, month) has a strictly larger day number.
pub proof fn lemma_dn_order(y1: int, m1: int, d1: int, y2: int, m2: int, d2: int)
    requires
        spec_valid_md(y1, m1, d1),
        spec_valid_md(y2, m2, d2),
        y1 >= MIN_YEAR,
        y2 >= MIN_YEAR,
        y1 * 12 + m1 < y2 * 12 + m2,
    ensures
        spec_day_number(y1, m1, d1) < spec_day_number(y2, m2, d2),
{
    if y1 == y2 {
        assert(m1 < m2);
        lemma_dbm_dim(y1, m1);
        lemma_dbm_mono(y1, m1 + 1, m2);
    } else {
        assert(y1 < y2) by {
            if y1 > y2 {
                assert(y1 * 12 >= y2 * 12 + 12) by (nonlinear_arith)
                    requires
                        y1 >= y2 + 1,
                ;
            }
        }
        lemma_dn_bounds(y1, m1, d1);
        lemma_dn_bounds(y2, m2, d2);
        lemma_dby_mono(y1 + 1, y2);
    }
}

// ---------------------------------------------------------------------------
// executable calendar queries
// ---------------------------------------------------------------------------

pub fn is_leap(y: i64) -> (r: bool)
    requires
        MIN_YEAR - 1 <= y <= 10_000_000_000,
    ensures
        r == spec_is_leap(y as int),
{
    let ys = y + YEAR_SHIFT;
    (ys % 4 == 0 && ys % 100 != 0) || ys % 400 == 0
}

pub fn days_in_month(y: i64, m: u8) -> (r: u8)
    requires
        MIN_YEAR - 1 <= y <= 10_000_000_000,
    ensures
        r == spec_days_in_month(y as int, m as int),
        28 <= r <= 31,
{
    if m == 2 {
        if is_leap(y) {
            29
        } else {
            28
        }
    } else if m == 4 || m == 6 || m == 9 || m == 11 {
        30
    } else {
        31
    }
}

pub(crate) fn days_before_month(y: i64, m: u8) -> (r: u16)
    requires
        MIN_YEAR - 1 <= y <= 10_000_000_000,
        1 <= m <= 13,
    ensures
        r == spec_days_before_month(y as int, m as int),
{
    let base: u16 = if m == 1 {
        0
    } else if m == 2 {
        31
    } else if m == 3 {
        59
    } else if m == 4 {
        90
    } else if m == 5 {
        120
    } else if m == 6 {
        151
    } else if m == 7 {
        181
    } else if m == 8 {
        212
    } else if m == 9 {
        243
    } else if m == 10 {
        273
    } else if m == 11 {
        304
    } else if m == 12 {
        334
    } else {
        365
    };
    if m > 2 && is_leap(y) {
        base + 1
    } else {
        base
    }
}

pub fn is_valid_ymd(y: i64, m: u8, d: u8) -> (r: bool)
    ensures
        r == spec_valid_ymd(y as int, m as int, d as int),
{
    MIN_YEAR <= y && y <= MAX_YEAR && 1 <= m && m <= 12 && 1 <= d && d <= days_in_month(y, m)
}

/// Builds a date from day, month and year; the triple must name a real
/// calendar day in the supported range.
pub fn date(d: u32, m: u32, y: i32) -> (r: Date)
    requires
        spec_valid_ymd(y as int, m as int, d as int),
    ensures
        r.wf(),
        r.year == y as int,
        r.month == m as int,
        r.day == d as int,
{
    Date { year: y as i64, month: m as u8, day: d as u8 }
}

pub fn days_before_year(y: i64) -> (r: i64)
    requires
        MIN_YEAR <= y <= 10_000_000_000,
    ensures
        r == spec_days_before_year(y as int),
        0 < r < 0x3_0000_0000_0000,
{
    let ys = y + YEAR_SHIFT;
    proof {
        assert(365 * (ys - 1) >= 0);
        assert((ys - 1) / 100 <= (ys - 1) / 4) by {
            vstd::arithmetic::div_mod::lemma_div_is_ordered_by_denominator(ys - 1 as int, 4, 100);
        }
    }
    365 * (ys - 1) + (ys - 1) / 4 - (ys - 1) / 100 + (ys - 1) / 400
}

/// The ordinal day number of a valid date.
pub fn day_number(d: &Date) -> (r: i64)
    requires
        d.wf(),
    ensures
        r == d.dn(),
        0 < r < 0x4000_0000_0000,
{
    days_before_year(d.year) + days_before_month(d.year, d.month) as i64 + d.day as i64
}

/// `a` is on or before `b`, by day number.
pub fn date_le(a: &Date, b: &Date) -> (r: bool)
    requires
        a.wf(),
        b.wf(),
    ensures
        r == (a.dn() <= b.dn()),
{
    day_number(a) <= day_number(b)
}

// ---------------------------------------------------------------------------
// date advancement
// ---------------------------------------------------------------------------

/// The date `n` days after `d` (`n >= 0`), or `None` when it would land
/// beyond [`MAX_YEAR`].
pub fn add_days(d: &Date, n: i64) -> (r: Option<Date>)
    requires
        d.wf(),
        0 <= n <= 0x1000_0000_0000_0000,
    ensures
        match r {
            Some(rr) => rr.wf() && rr.dn() == d.dn() + n,
            None => d.dn() + n > spec_days_before_year(MAX_YEAR + 1 as int),
        },
{
    proof {
        lemma_dn_bounds(d.year as int, d.month as int, d.day as int);
    }
    let target: i64 = day_number(d) + n;
    let mut y: i64 = d.year;
    proof {
        if d.year < MAX_YEAR {
            lemma_dby_mono(d.year + 1 as int, MAX_YEAR + 1 as int);
        }
    }
    loop
        invariant
            MIN_YEAR <= y <= MAX_YEAR,
            spec_days_before_year(y as int) < target,
            target == d.dn() + n,
            d.wf(),
            target <= 0x1100_0000_0000_0000,
        ensures
            MIN_YEAR <= y <= MAX_YEAR,
            spec_days_before_year(y as int) < target,
            target <= spec_days_before_year(y + 1 as int),
        decreases target - spec_days_before_year(y as int),
    {
        let nxt = days_before_year(y + 1);
        if nxt >= target {
            break ;
        }
        proof {
            lemma_dby_step(y as int);
        }
        if y == MAX_YEAR {
            proof {
                assert(target > spec_days_before_year(MAX_YEAR + 1 as int));
            }
            return None;
        }
        y = y + 1;
    }
    let rem: i64 = target - days_before_year(y);
    proof {
        lemma_dby_step(y as int);
        assert(1 <= rem && rem <= spec_year_len(y as int));
    }
    let mut m: u8 = 1;
    loop
        invariant
            MIN_YEAR <= y <= MAX_YEAR,
            1 <= m <= 12,
            1 <= rem <= spec_year_len(y as int),
            spec_days_before_month(y as int, m as int) < rem,
        ensures
            1 <= m <= 12,
            spec_days_before_month(y as int, m as int) < rem,
            rem <= spec_days_before_month(y as int, m + 1 as int),
        decreases 12 - m,
    {
        if m == 12 {
            proof {
                assert(spec_days_before_month(y as int, 13int) == spec_year_len(y as int));
            }
            break ;
        }
        let nxt = days_before_month(y, m + 1);
        if nxt >= rem as u16 {
            break ;
        }
        m = m + 1;
    }
    proof {
        lemma_dbm_dim(y as int, m as int);
    }
    let day: u16 = rem as u16 - days_before_month(y, m);
    let rr = Date { year: y, month: m, day: day as u8 };
    proof {
        assert(1 <= day && day <= spec_days_in_month(y as int, m as int));
        assert(rr.wf());
        assert(rr.dn() == target);
    }
    Some(rr)
}

// ---------------------------------------------------------------------------
// ISO rendering
// ---------------------------------------------------------------------------

/// `s` left-padded with `'0'` to at least `w` characters.
pub open spec fn spec_zero_pad(s: Seq<char>, w: int) -> Seq<char> {
    if s.len() >= w {
        s
    } else {
        Seq::new((w - s.len()) as nat, |i: int| '0') + s
    }
}

/// The year field of an ISO date: four zero-padded digits for `0..=9999`,
/// otherwise an explicit sign before the (at least four) digits.
pub open spec fn spec_year_chars(y: int) -> Seq<char> {
    if 0 <= y <= 9999 {
        spec_zero_pad(spec_dec_chars(y as nat), 4)
    } else if y > 9999 {
        seq!['+'] + spec_dec_chars(y as nat)
    } else {
        seq!['-'] + spec_zero_pad(spec_dec_chars((-y) as nat), 4)
    }
}

/// `YYYY-MM-DD`, as the calendar library displays a date.
pub open spec fn spec_date_iso(d: Date) -> Seq<char> {
    spec_year_chars(d.year as int) + seq!['-'] + spec_zero_pad(spec_dec_chars(d.month as nat), 2)
        + seq!['-'] + spec_zero_pad(spec_dec_chars(d.day as nat), 2)
}

/// Appends the decimal rendering of `n`, zero-padded to at least `w` digits.
pub fn push_padded_dec(out: &mut Vec<char>, n: u128, w: usize)
    requires
        w <= 8,
    ensures
        final (out)@ == old(out)@ + spec_zero_pad(spec_dec_chars(n as nat), w as int),
{
    let mut tmp: Vec<char> = Vec::new();
    push_dec_chars(&mut tmp, n);
    let mut k: usize = tmp.len();
    while k < w
        invariant
            tmp@.len() <= k,
            k <= w || k == tmp@.len(),
            w <= 8,
            out@ =~= old(out)@ + Seq::new((k - tmp@.len()) as nat, |i: int| '0'),
        decreases w - k,
    {
        out.push('0');
        proof {
            assert(out@ =~= old(out)@ + Seq::new((k + 1 - tmp@.len()) as nat, |i: int| '0'));
        }
        k = k + 1;
    }
    push_chars_vec(out, &tmp);
    proof {
        assert(out@ =~= old(out)@ + spec_zero_pad(tmp@, w as int));
    }
}

/// Appends the characters of `v` to `out`.
pub fn push_chars_vec(out: &mut Vec<char>, v: &Vec<char>)
    ensures
        final (out)@ == old(out)@ + v@,
{
    let n = v.len();
    for i in 0..n
        invariant
            n == v@.len(),
            out@ =~= old(out)@ + v@.subrange(0, i as int),
    {
        out.push(v[i]);
        assert(out@ =~= old(out)@ + v@.subrange(0, i + 1 as int));
    }
    assert(out@ =~= old(out)@ + v@);
}

/// Appends the ISO rendering `YYYY-MM-DD` of `d`.
pub fn push_date_iso(out: &mut Vec<char>, d: &Date)
    requires
        d.wf(),
    ensures
        final (out)@ == old(out)@ + spec_date_iso(*d),
{
    if 0 <= d.year && d.year <= 9999 {
        push_padded_dec(out, d.year as u128, 4);
    } else if d.year > 9999 {
        out.push('+');
        push_dec_chars(out, d.year as u128);
    } else {
        out.push('-');
        push_padded_dec(out, (-d.year) as u128, 4);
    }
    out.push('-');
    push_padded_dec(out, d.month as u128, 2);
    out.push('-');
    push_padded_dec(out, d.day as u128, 2);
    proof {
        assert(out@ =~= old(out)@ + spec_date_iso(*d));
    }
}

// ---------------------------------------------------------------------------
// date parsing
// ---------------------------------------------------------------------------

/// First non-whitespace position at or after `i` (numeric fields of the
/// date formats skip leading whitespace).
pub open spec fn spec_skip_ws(s: Seq<char>, i: int) -> int {
    i + spec_ws_prefix_len(s.skip(i))
}

/// End of a numeric field of at most `max` digits starting at `i`.
pub open spec fn spec_num_end(s: Seq<char>, i: int, max: int) -> int {
    let e = spec_run_end(s, i);
    if e > i + max {
        i + max
    } else {
        e
    }
}

pub fn skip_ws_from(v: &Vec<char>, i: usize) -> (r: usize)
    requires
        i <= v@.len(),
    ensures
        r == spec_skip_ws(v@, i as int),
        i <= r <= v@.len(),
        forall|j: int| i <= j < r ==> spec_is_ws(#[trigger] v@[j]),
        r < v@.len() ==> !spec_is_ws(v@[r as int]),
{
    let n = v.len();
    let mut j: usize = i;
    while j < n && is_ws(v[j])
        invariant
            i <= j <= n,
            n == v@.len(),
            forall|k: int| i <= k < j ==> spec_is_ws(#[trigger] v@[k]),
        decreases n - j,
    {
        j = j + 1;
    }
    proof {
        let t = v@.skip(i as int);
        assert forall|k: int| 0 <= k < j - i implies spec_is_ws(#[trigger] t[k]) by {
            assert(t[k] == v@[k + i]);
        }
        if j - i < t.len() {
            assert(t[j - i] == v@[j as int]);
        }
        crate::text::lemma_ws_prefix_len_concrete(t, (j - i) as nat);
    }
    j
}

pub fn num_end_from(v: &Vec<char>, i: usize, max: usize) -> (r: usize)
    requires
        i <= v@.len(),
        max <= 8,
    ensures
        r == spec_num_end(v@, i as int, max as int),
        i <= r <= v@.len(),
        r <= i + max,
        spec_all_digits(v@.subrange(i as int, r as int)),
{
    let e = crate::text::run_end(v, i);
    proof {
        lemma_run_end(v@, i as int);
    }
    let r = if e - i > max {
        i + max
    } else {
        e
    };
    proof {
        assert forall|k: int| 0 <= k < r - i implies spec_is_digit(
            #[trigger] v@.subrange(i as int, r as int)[k],
        ) by {
            assert(v@.subrange(i as int, r as int)[k] == v@[k + i]);
        }
    }
    r
}

/// Two-digit years pick their century as the calendar library does when only
/// a year modulo 100 is given.
pub open spec fn spec_century_fix(yv: int) -> int {
    if yv < 70 {
        2000 + yv
    } else {
        1900 + yv
    }
}

/// Parses `s` as `<day> <sep> <month> <sep> <year>`, the day and month of at
/// most two digits, the year of two digits (century-mapped) or, when `four`
/// is set, of up to four digits or signed with any number of digits.  `sep`
/// of `None` means the fields abut.  Numeric fields skip leading whitespace;
/// the whole of `s` must be consumed; the triple must name a valid date.
pub open spec fn spec_parse_dmy(s: Seq<char>, sep: Option<char>, four: bool) -> Option<Date> {
    let i0 = spec_skip_ws(s, 0);
    let de = spec_num_end(s, i0, 2);
    if de == i0 {
        None
    } else {
        let dv = spec_digits_val(s.subrange(i0, de)) as int;
        let i1 = match sep {
            Option::None => de,
            Option::Some(c) => if de < s.len() && s[de] == c {
                de + 1
            } else {
                -1
            },
        };
        if i1 < 0 {
            None
        } else {
            let im = spec_skip_ws(s, i1);
            let me = spec_num_end(s, im, 2);
            if me == im {
                None
            } else {
                let mv = spec_digits_val(s.subrange(im, me)) as int;
                let i2 = match sep {
                    Option::None => me,
                    Option::Some(c) => if me < s.len() && s[me] == c {
                        me + 1
                    } else {
                        -1
                    },
                };
                if i2 < 0 {
                    None
                } else {
                    let iy = spec_skip_ws(s, i2);
                    spec_parse_dmy_year(s, iy, four, dv, mv)
                }
            }
        }
    }
}

/// The year field and final validation of [`spec_parse_dmy`].
pub open spec fn spec_parse_dmy_year(s: Seq<char>, iy: int, four: bool, dv: int, mv: int) -> Option<
    Date,
> {
    if four && iy < s.len() && (s[iy] == '-' || s[iy] == '+') {
        let ye = spec_run_end(s, iy + 1);
        if ye == iy + 1 {
            None
        } else {
            let yv = spec_digits_val(s.subrange(iy + 1, ye)) as int;
            let y = if s[iy] == '-' {
                -yv
            } else {
                yv
            };
            spec_finish_dmy(s, ye, y, mv, dv)
        }
    } else {
        let ye = spec_num_end(s, iy, if four {
            4
        } else {
            2
        });
        if ye == iy {
            None
        } else {
            let yv = spec_digits_val(s.subrange(iy, ye)) as int;
            let y = if four {
                yv
            } else {
                spec_century_fix(yv)
            };
            spec_finish_dmy(s, ye, y, mv, dv)
        }
    }
}

/// Requires full consumption and a valid calendar date.
pub open spec fn spec_finish_dmy(s: Seq<char>, pos: int, y: int, m: int, d: int) -> Option<Date> {
    if pos == s.len() && spec_valid_ymd(y, m, d) {
        Some(Date { year: y as i64, month: m as u8, day: d as u8 })
    } else {
        None
    }
}

/// Executable counterpart of [`spec_parse_dmy`].
#[verifier::rlimit(100)]
#[verifier::spinoff_prover]
pub fn parse_dmy(v: &Vec<char>, sep: Option<char>, four: bool) -> (r: Option<Date>)
    ensures
        r == spec_parse_dmy(v@, sep, four),
{
    let i0 = skip_ws_from(v, 0);
    let de = num_end_from(v, i0, 2);
    if de == i0 {
        return None;
    }
    let dv = parse_small_num(v, i0, de);
    let i1 = match sep {
        Option::None => de,
        Option::Some(c) => {
            if de < v.len() && v[de] == c {
                de + 1
            } else {
                return None;
            }
        },
    };
    let im = skip_ws_from(v, i1);
    let me = num_end_from(v, im, 2);
    if me == im {
        return None;
    }
    let mv = parse_small_num(v, im, me);
    let i2 = match sep {
        Option::None => me,
        Option::Some(c) => {
            if me < v.len() && v[me] == c {
                me + 1
            } else {
                return None;
            }
        },
    };
    let iy = skip_ws_from(v, i2);
    if four && iy < v.len() && (v[iy] == '-' || v[iy] == '+') {
        let ye = crate::text::run_end(v, iy + 1);
        proof {
            lemma_run_end(v@, iy + 1);
            assert forall|k: int| 0 <= k < ye - (iy + 1) implies spec_is_digit(
                #[trigger] v@.subrange(iy + 1, ye as int)[k],
            ) by {
                assert(v@.subrange(iy + 1, ye as int)[k] == v@[k + iy + 1]);
            }
        }
        if ye == iy + 1 {
            return None;
        }
        let yv = match digits_val_checked(v, iy + 1, ye, 0x80000000) {
            Some(x) => x as i64,
            None => {
                proof {
                    let yval = spec_digits_val(v@.subrange(iy + 1, ye as int)) as int;
                    assert(yval > 0x80000000);
                    assert(spec_parse_dmy(v@, sep, four) is None);
                }
                return None;
            },
        };
        let y: i64 = if v[iy] == '-' {
            -yv
        } else {
            yv
        };
        return finish_dmy(v, ye, y, mv as i64, dv as i64);
    }
    let ye = num_end_from(v, iy, if four {
        4
    } else {
        2
    });
    if ye == iy {
        return None;
    }
    let yv = parse_small_num(v, iy, ye);
    let y: i64 = if four {
        yv as i64
    } else {
        if yv < 70 {
            2000 + yv as i64
        } else {
            1900 + yv as i64
        }
    };
    finish_dmy(v, ye, y, mv as i64, dv as i64)
}

/// Value of a digit field of at most four digits.
fn parse_small_num(v: &Vec<char>, from: usize, to: usize) -> (r: u32)
    requires
        from <= to <= v@.len(),
        to - from <= 4,
        spec_all_digits(v@.subrange(from as int, to as int)),
    ensures
        r == spec_digits_val(v@.subrange(from as int, to as int)),
        r <= 9999,
{
    proof {
        lemma_digits_val_upper(v@.subrange(from as int, to as int));
        lemma_pow10_le(v@.subrange(from as int, to as int).len(), 4);
        assert(spec_pow10(0) == 1);
        assert(spec_pow10(1) == 10);
        assert(spec_pow10(2) == 100);
        assert(spec_pow10(3) == 1000);
        assert(spec_pow10(4) == 10000);
    }
    let r = match digits_val_checked(v, from, to, 9999) {
        Some(x) => x as u32,
        None => {
            proof {
                assert(false);
            }
            0
        },
    };
    r
}

/// `10^n <= 10^m` for `n <= m`.
proof fn lemma_pow10_le(n: nat, m: nat)
    requires
        n <= m,
    ensures
        spec_pow10(n) <= spec_pow10(m),
    decreases m,
{
    if n < m {
        lemma_pow10_le(n, (m - 1) as nat);
        assert(spec_pow10(m) == 10 * spec_pow10((m - 1) as nat));
    }
}

fn finish_dmy(v: &Vec<char>, pos: usize, y: i64, m: i64, d: i64) -> (r: Option<Date>)
    requires
        pos <= v@.len(),
        -0x80000000 <= y <= 0x80000000,
        0 <= m <= 9999,
        0 <= d <= 9999,
    ensures
        r == spec_finish_dmy(v@, pos as int, y as int, m as int, d as int),
{
    if pos == v.len() && m <= 255 && d <= 255 && is_valid_ymd(y, m as u8, d as u8) {
        Some(Date { year: y, month: m as u8, day: d as u8 })
    } else {
        proof {
            if m > 255 || d > 255 {
                assert(!spec_valid_ymd(y as int, m as int, d as int));
            }
        }
        None
    }
}

/// The date formats the free helper accepts, tried in order:
/// `ddmmyy`, `dd.mm.yy`, `dd/mm/yy`, `dd/mm/YYYY`, `dd.mm.YYYY`.
pub open spec fn spec_date_from_str(s: Seq<char>) -> Option<Date> {
    if spec_parse_dmy(s, Option::None, false) is Some {
        spec_parse_dmy(s, Option::None, false)
    } else if spec_parse_dmy(s, Some('.'), false) is Some {
        spec_parse_dmy(s, Some('.'), false)
    } else if spec_parse_dmy(s, Some('/'), false) is Some {
        spec_parse_dmy(s, Some('/'), false)
    } else if spec_parse_dmy(s, Some('/'), true) is Some {
        spec_parse_dmy(s, Some('/'), true)
    } else {
        spec_parse_dmy(s, Some('.'), true)
    }
}

/// Parses a date written as `ddmmyy`, `dd.mm.yy`, `dd/mm/yy`, `dd/mm/yyyy`
/// or `dd.mm.yyyy`, trying the formats in that order.
pub fn date_from_str(s: &str) -> (r: Option<Date>)
    ensures
        r == spec_date_from_str(s@),
        r is Some ==> r.unwrap().wf(),
{
    let v = crate::text::chars_of(s);
    let r = date_from_chars(&v);
    r
}

/// [`date_from_str`] on a character vector.
pub fn date_from_chars(v: &Vec<char>) -> (r: Option<Date>)
    ensures
        r == spec_date_from_str(v@),
        r is Some ==> r.unwrap().wf(),
{
    let r1 = parse_dmy(v, None, false);
    if r1.is_some() {
        return r1;
    }
    let r2 = parse_dmy(v, Some('.'), false);
    if r2.is_some() {
        return r2;
    }
    let r3 = parse_dmy(v, Some('/'), false);
    if r3.is_some() {
        return r3;
    }
    let r4 = parse_dmy(v, Some('/'), true);
    if r4.is_some() {
        return r4;
    }
    let r5 = parse_dmy(v, Some('.'), true);
    r5
}

/// Parses `YYYY-MM-DD` — year first, fields separated by `'-'`, the year
/// up to four digits or signed with any number of digits — exactly as the
/// calendar library reads a date back from its display form.
pub open spec fn spec_parse_iso(s: Seq<char>) -> Option<Date> {
    let iy = spec_skip_ws(s, 0);
    if iy < s.len() && (s[iy] == '-' || s[iy] == '+') {
        let ye = spec_run_end(s, iy + 1);
        if ye == iy + 1 {
            None
        } else {
            let yv = spec_digits_val(s.subrange(iy + 1, ye)) as int;
            let y = if s[iy] == '-' {
                -yv
            } else {
                yv
            };
            spec_parse_iso_md(s, ye, y)
        }
    } else {
        let ye = spec_num_end(s, iy, 4);
        if ye == iy {
            None
        } else {
            spec_parse_iso_md(s, ye, spec_digits_val(s.subrange(iy, ye)) as int)
        }
    }
}

/// The month and day fields of [`spec_parse_iso`].
pub open spec fn spec_parse_iso_md(s: Seq<char>, pos: int, y: int) -> Option<Date> {
    if pos < s.len() && s[pos] == '-' {
        let im = spec_skip_ws(s, pos + 1);
        let me = spec_num_end(s, im, 2);
        if me == im {
            None
        } else {
            let mv = spec_digits_val(s.subrange(im, me)) as int;
            if me < s.len() && s[me] == '-' {
                let id = spec_skip_ws(s, me + 1);
                let de = spec_num_end(s, id, 2);
                if de == id {
                    None
                } else {
                    spec_finish_dmy(s, de, y, mv, spec_digits_val(s.subrange(id, de)) as int)
                }
            } else {
                None
            }
        }
    } else {
        None
    }
}

/// Executable counterpart of [`spec_parse_iso`].
pub fn parse_iso_chars(v: &Vec<char>) -> (r: Option<Date>)
    ensures
        r == spec_parse_iso(v@),
        r is Some ==> r.unwrap().wf(),
{
    let iy = skip_ws_from(v, 0);
    if iy < v.len() && (v[iy] == '-' || v[iy] == '+') {
        let ye = crate::text::run_end(v, iy + 1);
        proof {
            lemma_run_end(v@, iy + 1);
            assert forall|k: int| 0 <= k < ye - (iy + 1) implies spec_is_digit(
                #[trigger] v@.subrange(iy + 1, ye as int)[k],
            ) by {
                assert(v@.subrange(iy + 1, ye as int)[k] == v@[k + iy + 1]);
            }
        }
        if ye == iy + 1 {
            return None;
        }
        let yv = match digits_val_checked(v, iy + 1, ye, 0x80000000) {
            Some(x) => x as i64,
            None => {
                proof {
                    assert(spec_digits_val(v@.subrange(iy + 1, ye as int)) > 0x80000000);
                    assert(spec_parse_iso(v@) is None);
                }
                return None;
            },
        };
        let y: i64 = if v[iy] == '-' {
            -yv
        } else {
            yv
        };
        parse_iso_md(v, ye, y)
    } else {
        let ye = num_end_from(v, iy, 4);
        if ye == iy {
            return None;
        }
        let yv = parse_small_num(v, iy, ye);
        parse_iso_md(v, ye, yv as i64)
    }
}

fn parse_iso_md(v: &Vec<char>, pos: usize, y: i64) -> (r: Option<Date>)
    requires
        pos <= v@.len(),
        -0x80000000 <= y <= 0x80000000,
    ensures
        r == spec_parse_iso_md(v@, pos as int, y as int),
        r is Some ==> r.unwrap().wf(),
{
    if pos < v.len() && v[pos] == '-' {
        let im = skip_ws_from(v, pos + 1);
        let me = num_end_from(v, im, 2);
        if me == im {
            return None;
        }
        let mv = parse_small_num(v, im, me);
        if me < v.len() && v[me] == '-' {
            let id = skip_ws_from(v, me + 1);
            let de = num_end_from(v, id, 2);
            if de == id {
                return None;
            }
            let dv = parse_small_num(v, id, de);
            finish_dmy(v, de, y, mv as i64, dv as i64)
        } else {
            None
        }
    } else {
        None
    }
}

// ---------------------------------------------------------------------------
// the clock
// ---------------------------------------------------------------------------

/// Relies on chrono's `Utc::now` and the `Datelike` accessors: the current
/// UTC calendar date, which chrono always reports within its supported year
/// range.  The value depends on the clock; only validity is promised.
#[verifier::external_body]
pub fn today() -> (r: Date)
    ensures
        r.wf(),
{
    let now = chrono::Utc::now().date_naive();
    Date { year: now.year() as i64, month: now.month() as u8, day: now.day() as u8 }
}


// ---------------------------------------------------------------------------
// the display form reads back
// ---------------------------------------------------------------------------

/// A digit is not whitespace, not a sign and not a separator.
proof fn lemma_digit_char_class(c: char)
    requires
        spec_is_digit(c),
    ensures
        !spec_is_ws(c),
        c != '-',
        c != '+',
        c != ':',
{
}

/// Padding with zeros: length, digits and the exact characters.
proof fn lemma_zero_pad_props(t: Seq<char>, w: int)
    requires
        t.len() >= 1,
        crate::text::spec_all_digits(t),
    ensures
        spec_zero_pad(t, w).len() == if t.len() >= w {
            t.len() as int
        } else {
            w
        },
        crate::text::spec_all_digits(spec_zero_pad(t, w)),
        t.len() <= w ==> spec_zero_pad(t, w) == Seq::new((w - t.len()) as nat, |i: int| '0') + t,
{
    if t.len() >= w {
    } else {
        let zs = Seq::new((w - t.len()) as nat, |i: int| '0');
        assert forall|j: int| 0 <= j < w implies spec_is_digit(#[trigger] (zs + t)[j]) by {
            if j < zs.len() {
                assert((zs + t)[j] == '0');
            } else {
                assert((zs + t)[j] == t[j - zs.len()]);
            }
        }
    }
}

/// The month and day fields of the ISO text read back to the date.
proof fn lemma_parse_iso_md_of(s: Seq<char>, p: int, d: Date)
    requires
        d.wf(),
        s.len() == p + 6,
        p >= 1,
        s[p] == '-',
        spec_is_digit(s[p + 1]) && spec_is_digit(s[p + 2]),
        s[p + 3] == '-',
        spec_is_digit(s[p + 4]) && spec_is_digit(s[p + 5]),
        spec_digits_val(s.subrange(p + 1, p + 3)) == d.month as nat,
        spec_digits_val(s.subrange(p + 4, p + 6)) == d.day as nat,
    ensures
        spec_parse_iso_md(s, p, d.year as int) == Some(d),
{
    // the month field
    assert(s.skip(p + 1)[0] == s[p + 1]);
    lemma_digit_char_class(s[p + 1]);
    crate::text::lemma_ws_prefix_len_concrete(s.skip(p + 1), 0);
    assert(spec_skip_ws(s, p + 1) == p + 1);
    lemma_digit_char_class(s[p + 2]);
    crate::text::lemma_run_end_concrete(s, p + 1, p + 3);
    assert(spec_num_end(s, p + 1, 2) == p + 3);
    // the day field
    assert(s.skip(p + 4)[0] == s[p + 4]);
    lemma_digit_char_class(s[p + 4]);
    crate::text::lemma_ws_prefix_len_concrete(s.skip(p + 4), 0);
    assert(spec_skip_ws(s, p + 4) == p + 4);
    crate::text::lemma_run_end_concrete(s, p + 4, p + 6);
    assert(spec_num_end(s, p + 4, 2) == p + 6);
    // assemble
    assert(spec_finish_dmy(s, p + 6, d.year as int, d.month as int, d.day as int) == Some(d));
}

/// The ISO rendering of any valid date parses back to the same date.
#[verifier::rlimit(100)]
#[verifier::spinoff_prover]
pub proof fn lemma_parse_iso_of_iso(d: Date)
    requires
        d.wf(),
    ensures
        spec_parse_iso(spec_date_iso(d)) == Some(d),
{
    crate::decimal::lemma_pow10_values();
    let y = d.year as int;
    let mc = spec_zero_pad(spec_dec_chars(d.month as nat), 2);
    let dc = spec_zero_pad(spec_dec_chars(d.day as nat), 2);
    crate::text::lemma_dec_chars_props(d.month as nat);
    crate::text::lemma_dec_chars_props(d.day as nat);
    crate::text::lemma_dec_chars_len(d.month as nat, 2);
    crate::text::lemma_dec_chars_len(d.day as nat, 2);
    lemma_zero_pad_props(spec_dec_chars(d.month as nat), 2);
    lemma_zero_pad_props(spec_dec_chars(d.day as nat), 2);
    crate::text::lemma_digits_val_zero_prefix(
        2 - spec_dec_chars(d.month as nat).len(),
        spec_dec_chars(d.month as nat),
    );
    crate::text::lemma_digits_val_zero_prefix(
        2 - spec_dec_chars(d.day as nat).len(),
        spec_dec_chars(d.day as nat),
    );
    let yc = spec_year_chars(y);
    let s = spec_date_iso(d);
    assert(s == yc + seq!['-'] + mc + seq!['-'] + dc);
    if 0 <= y <= 9999 {
        crate::text::lemma_dec_chars_props(y as nat);
        crate::text::lemma_dec_chars_len(y as nat, 4);
        lemma_zero_pad_props(spec_dec_chars(y as nat), 4);
        crate::text::lemma_digits_val_zero_prefix(
            4 - spec_dec_chars(y as nat).len(),
            spec_dec_chars(y as nat),
        );
        assert(yc.len() == 4);
        assert forall|j: int| 0 <= j < 4 implies spec_is_digit(#[trigger] s[j]) by {
            assert(s[j] == yc[j]);
        }
        assert(s[4] == '-');
        lemma_digit_char_class(s[0]);
        assert(s.skip(0) =~= s);
        crate::text::lemma_ws_prefix_len_concrete(s, 0);
        assert(spec_skip_ws(s, 0) == 0);
        crate::text::lemma_run_end_concrete(s, 0, 4);
        assert(spec_num_end(s, 0, 4) == 4);
        assert(s.subrange(0, 4) =~= yc);
        assert(spec_digits_val(yc) == y as nat);
        assert(s[5] == mc[0] && s[6] == mc[1]);
        assert(s[7] == '-');
        assert(s[8] == dc[0] && s[9] == dc[1]);
        assert(s.subrange(5, 7) =~= mc);
        assert(s.subrange(8, 10) =~= dc);
        lemma_parse_iso_md_of(s, 4, d);
        assert(spec_parse_iso(s) == spec_parse_iso_md(s, 4, y));
    } else if y > 9999 {
        crate::text::lemma_dec_chars_props(y as nat);
        crate::text::lemma_dec_chars_len(y as nat, 6);
        let yd = spec_dec_chars(y as nat);
        let ylen = yd.len() as int;
        assert(yc == seq!['+'] + yd);
        assert(s[0] == '+');
        assert forall|j: int| 1 <= j < 1 + ylen implies spec_is_digit(#[trigger] s[j]) by {
            assert(s[j] == yd[j - 1]);
        }
        assert(s[1 + ylen] == '-');
        assert(!spec_is_ws('+'));
        assert(s.skip(0) =~= s);
        crate::text::lemma_ws_prefix_len_concrete(s, 0);
        assert(spec_skip_ws(s, 0) == 0);
        crate::text::lemma_run_end_concrete(s, 1, 1 + ylen);
        assert(s.subrange(1, 1 + ylen) =~= yd);
        assert(spec_digits_val(yd) == y as nat);
        assert(s[1 + ylen + 1] == mc[0] && s[1 + ylen + 2] == mc[1]);
        assert(s[1 + ylen + 3] == '-');
        assert(s[1 + ylen + 4] == dc[0] && s[1 + ylen + 5] == dc[1]);
        assert(s.subrange(1 + ylen + 1, 1 + ylen + 3) =~= mc);
        assert(s.subrange(1 + ylen + 4, 1 + ylen + 6) =~= dc);
        lemma_parse_iso_md_of(s, 1 + ylen, d);
        assert(spec_parse_iso(s) == spec_parse_iso_md(s, 1 + ylen, y));
    } else {
        crate::text::lemma_dec_chars_props((-y) as nat);
        crate::text::lemma_dec_chars_len((-y) as nat, 6);
        let yp = spec_zero_pad(spec_dec_chars((-y) as nat), 4);
        lemma_zero_pad_props(spec_dec_chars((-y) as nat), 4);
        if spec_dec_chars((-y) as nat).len() <= 4 {
            crate::text::lemma_digits_val_zero_prefix(
                4 - spec_dec_chars((-y) as nat).len(),
                spec_dec_chars((-y) as nat),
            );
        } else {
            assert(yp == spec_dec_chars((-y) as nat));
        }
        assert(spec_digits_val(yp) == (-y) as nat);
        let plen = yp.len() as int;
        assert(yc == seq!['-'] + yp);
        assert(s[0] == '-');
        assert forall|j: int| 1 <= j < 1 + plen implies spec_is_digit(#[trigger] s[j]) by {
            assert(s[j] == yp[j - 1]);
        }
        assert(s[1 + plen] == '-');
        assert(!spec_is_ws('-'));
        assert(s.skip(0) =~= s);
        crate::text::lemma_ws_prefix_len_concrete(s, 0);
        assert(spec_skip_ws(s, 0) == 0);
        crate::text::lemma_run_end_concrete(s, 1, 1 + plen);
        assert(s.subrange(1, 1 + plen) =~= yp);
        assert(spec_digits_val(yp) == (-y) as nat);
        assert(s[1 + plen + 1] == mc[0] && s[1 + plen + 2] == mc[1]);
        assert(s[1 + plen + 3] == '-');
        assert(s[1 + plen + 4] == dc[0] && s[1 + plen + 5] == dc[1]);
        assert(s.subrange(1 + plen + 1, 1 + plen + 3) =~= mc);
        assert(s.subrange(1 + plen + 4, 1 + plen + 6) =~= dc);
        lemma_parse_iso_md_of(s, 1 + plen, d);
        assert(spec_parse_iso(s) == spec_parse_iso_md(s, 1 + plen, y));
    }
}

/// The shape of the ISO text: at least ten characters, every one a digit,
/// a dash or the sign of an out-of-range year, and a digit at the end.
#[verifier::rlimit(100)]
#[verifier::spinoff_prover]
pub proof fn lemma_date_iso_shape(d: Date)
    requires
        d.wf(),
    ensures
        spec_date_iso(d).len() >= 10,
        forall|j: int|
            0 <= j < spec_date_iso(d).len() ==> spec_is_digit(#[trigger] spec_date_iso(d)[j])
                || spec_date_iso(d)[j] == '-' || spec_date_iso(d)[j] == '+',
        spec_is_digit(spec_date_iso(d).last()),
{
    crate::decimal::lemma_pow10_values();
    let y = d.year as int;
    let mc = spec_zero_pad(spec_dec_chars(d.month as nat), 2);
    let dc = spec_zero_pad(spec_dec_chars(d.day as nat), 2);
    crate::text::lemma_dec_chars_props(d.month as nat);
    crate::text::lemma_dec_chars_props(d.day as nat);
    crate::text::lemma_dec_chars_len(d.month as nat, 2);
    crate::text::lemma_dec_chars_len(d.day as nat, 2);
    lemma_zero_pad_props(spec_dec_chars(d.month as nat), 2);
    lemma_zero_pad_props(spec_dec_chars(d.day as nat), 2);
    let yc = spec_year_chars(y);
    let s = spec_date_iso(d);
    assert(s == yc + seq!['-'] + mc + seq!['-'] + dc);
    assert(s.last() == dc[1]);
    if 0 <= y <= 9999 {
        crate::text::lemma_dec_chars_props(y as nat);
        crate::text::lemma_dec_chars_len(y as nat, 4);
        lemma_zero_pad_props(spec_dec_chars(y as nat), 4);
    } else if y > 9999 {
        crate::text::lemma_dec_chars_props(y as nat);
        crate::text::lemma_dec_chars_len_lower(y as nat, 4);
    } else {
        crate::text::lemma_dec_chars_props((-y) as nat);
        lemma_zero_pad_props(spec_dec_chars((-y) as nat), 4);
    }
    let ylen = yc.len() as int;
    assert forall|j: int|
        0 <= j < s.len() implies spec_is_digit(#[trigger] s[j]) || s[j] == '-' || s[j]
        == '+' by {
        if j < ylen {
            assert(s[j] == yc[j]);
            if 0 <= y <= 9999 {
            } else if y > 9999 {
                if j >= 1 {
                    assert(yc[j] == spec_dec_chars(y as nat)[j - 1]);
                }
            } else {
                if j >= 1 {
                    assert(yc[j] == spec_zero_pad(spec_dec_chars((-y) as nat), 4)[j - 1]);
                }
            }
        } else if j == ylen {
        } else if j < ylen + 3 {
            assert(s[j] == mc[j - ylen - 1]);
        } else if j == ylen + 3 {
        } else {
            assert(s[j] == dc[j - ylen - 4]);
        }
    }
}

} // verus!
