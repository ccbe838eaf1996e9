//! Character classes and string utilities for the token grammar.
//!
//! Tokens are classified over `Seq<char>` views; the functions here provide
//! the character predicates, whitespace splitting, digit parsing and decimal
//! rendering that the expense grammar and the serialisation format share.

use vstd::prelude::*;

verus! {

// ---------------------------------------------------------------------------
// character classes
// ---------------------------------------------------------------------------

pub open spec fn spec_is_digit(c: char) -> bool {
    '0' <= c && c <= '9'
}

pub fn is_digit(c: char) -> (r: bool)
    ensures
        r == spec_is_digit(c),
{
    '0' <= c && c <= '9'
}

pub open spec fn spec_digit_val(c: char) -> int {
    c as int - '0' as int
}

pub fn digit_val(c: char) -> (r: u32)
    requires
        spec_is_digit(c),
    ensures
        r == spec_digit_val(c),
        r <= 9,
{
    c as u32 - '0' as u32
}

pub open spec fn spec_is_alpha(c: char) -> bool {
    ('a' <= c && c <= 'z') || ('A' <= c && c <= 'Z')
}

pub fn is_alpha(c: char) -> (r: bool)
    ensures
        r == spec_is_alpha(c),
{
    ('a' <= c && c <= 'z') || ('A' <= c && c <= 'Z')
}

/// Characters allowed after the leading letter of a tag: `[0-9a-zA-Z_-]`.
pub open spec fn spec_is_tag_char(c: char) -> bool {
    spec_is_digit(c) || spec_is_alpha(c) || c == '_' || c == '-'
}

pub fn is_tag_char(c: char) -> (r: bool)
    ensures
        r == spec_is_tag_char(c),
{
    is_digit(c) || is_alpha(c) || c == '_' || c == '-'
}

/// The four recurrence unit letters: day, week, month, year.
pub open spec fn spec_is_unit(c: char) -> bool {
    c == 'd' || c == 'w' || c == 'm' || c == 'y'
}

pub fn is_unit(c: char) -> (r: bool)
    ensures
        r == spec_is_unit(c),
{
    c == 'd' || c == 'w' || c == 'm' || c == 'y'
}

/// The Unicode `White_Space` property, as `str::split_whitespace` and
/// `str::trim` use it.
pub open spec fn spec_is_ws(c: char) -> bool {
    let u = c as u32;
    (0x9 <= u && u <= 0xd) || u == 0x20 || u == 0x85 || u == 0xa0 || u == 0x1680 || (0x2000 <= u
        && u <= 0x200a) || u == 0x2028 || u == 0x2029 || u == 0x202f || u == 0x205f || u == 0x3000
}

pub fn is_ws(c: char) -> (r: bool)
    ensures
        r == spec_is_ws(c),
{
    let u = c as u32;
    (0x9 <= u && u <= 0xd) || u == 0x20 || u == 0x85 || u == 0xa0 || u == 0x1680 || (0x2000 <= u
        && u <= 0x200a) || u == 0x2028 || u == 0x2029 || u == 0x202f || u == 0x205f || u == 0x3000
}

/// The Unicode `Currency_Symbol` category (the set the amount token ends in).
pub open spec fn spec_is_currency(c: char) -> bool {
    let u = c as u32;
    u == 0x24 || (0xa2 <= u && u <= 0xa5) || u == 0x58f || u == 0x60b || (0x7fe <= u && u <= 0x7ff)
        || (0x9f2 <= u && u <= 0x9f3) || u == 0x9fb || u == 0xaf1 || u == 0xbf9 || u == 0xe3f
        || u == 0x17db || (0x20a0 <= u && u <= 0x20c0) || u == 0xa838 || u == 0xfdfc || u == 0xfe69
        || u == 0xff04 || (0xffe0 <= u && u <= 0xffe1) || (0xffe5 <= u && u <= 0xffe6) || (0x11fdd
        <= u && u <= 0x11fe0) || u == 0x1e2ff || u == 0x1ecb0
}

pub fn is_currency(c: char) -> (r: bool)
    ensures
        r == spec_is_currency(c),
{
    let u = c as u32;
    u == 0x24 || (0xa2 <= u && u <= 0xa5) || u == 0x58f || u == 0x60b || (0x7fe <= u && u <= 0x7ff)
        || (0x9f2 <= u && u <= 0x9f3) || u == 0x9fb || u == 0xaf1 || u == 0xbf9 || u == 0xe3f
        || u == 0x17db || (0x20a0 <= u && u <= 0x20c0) || u == 0xa838 || u == 0xfdfc || u == 0xfe69
        || u == 0xff04 || (0xffe0 <= u && u <= 0xffe1) || (0xffe5 <= u && u <= 0xffe6) || (0x11fdd
        <= u && u <= 0x11fe0) || u == 0x1e2ff || u == 0x1ecb0
}

// ---------------------------------------------------------------------------
// &str <-> Vec<char>
// ---------------------------------------------------------------------------

/// The characters of `s`, as a vector.
pub fn chars_of(s: &str) -> (r: Vec<char>)
    ensures
        r@ == s@,
{
    let n = s.unicode_len();
    let mut r: Vec<char> = Vec::new();
    for i in 0..n
        invariant
            n == s@.len(),
            r@ =~= s@.subrange(0, i as int),
    {
        r.push(s.get_char(i));
        assert(r@ =~= s@.subrange(0, i + 1 as int));
    }
    assert(r@ =~= s@);
    r
}

/// Relies on `String::push` of std: appends the given character to the end
/// of the string.
pub assume_specification[ String::push ](s: &mut String, c: char)
    ensures
        final (s)@ == old(s)@.push(c),
;

/// A `String` holding exactly the characters of `v`.
pub fn string_of(v: &Vec<char>) -> (r: String)
    ensures
        r@ == v@,
{
    let mut r = String::new();
    let n = v.len();
    for i in 0..n
        invariant
            n == v@.len(),
            r@ =~= v@.subrange(0, i as int),
    {
        r.push(v[i]);
        assert(r@ =~= v@.subrange(0, i + 1 as int));
    }
    assert(r@ =~= v@);
    r
}

/// Appends the characters of `v` to `s`.
pub fn push_chars(s: &mut String, v: &Vec<char>)
    ensures
        final (s)@ == old(s)@ + v@,
{
    let n = v.len();
    for i in 0..n
        invariant
            n == v@.len(),
            s@ =~= old(s)@ + v@.subrange(0, i as int),
    {
        s.push(v[i]);
        assert(s@ =~= old(s)@ + v@.subrange(0, i + 1 as int));
    }
    assert(s@ =~= old(s)@ + v@);
}

// ---------------------------------------------------------------------------
// decimal digits
// ---------------------------------------------------------------------------

pub open spec fn spec_digit_char(d: int) -> char {
    if d == 0 {
        '0'
    } else if d == 1 {
        '1'
    } else if d == 2 {
        '2'
    } else if d == 3 {
        '3'
    } else if d == 4 {
        '4'
    } else if d == 5 {
        '5'
    } else if d == 6 {
        '6'
    } else if d == 7 {
        '7'
    } else if d == 8 {
        '8'
    } else {
        '9'
    }
}

pub fn digit_char(d: u32) -> (r: char)
    requires
        d <= 9,
    ensures
        r == spec_digit_char(d as int),
        spec_is_digit(r),
        spec_digit_val(r) == d,
{
    if d == 0 {
        '0'
    } else if d == 1 {
        '1'
    } else if d == 2 {
        '2'
    } else if d == 3 {
        '3'
    } else if d == 4 {
        '4'
    } else if d == 5 {
        '5'
    } else if d == 6 {
        '6'
    } else if d == 7 {
        '7'
    } else if d == 8 {
        '8'
    } else {
        '9'
    }
}

/// The decimal rendering of `n`, most significant digit first, no leading
/// zeros (a single `'0'` for zero).
pub open spec fn spec_dec_chars(n: nat) -> Seq<char>
    decreases n,
{
    if n < 10 {
        seq![spec_digit_char(n as int)]
    } else {
        spec_dec_chars(n / 10) + seq![spec_digit_char((n % 10) as int)]
    }
}

/// Appends the decimal rendering of `n` to `out`.
pub fn push_dec_chars(out: &mut Vec<char>, n: u128)
    ensures
        final (out)@ == old(out)@ + spec_dec_chars(n as nat),
    decreases n,
{
    if n < 10 {
        out.push(digit_char(n as u32));
        assert(out@ =~= old(out)@ + spec_dec_chars(n as nat));
    } else {
        push_dec_chars(out, n / 10);
        out.push(digit_char((n % 10) as u32));
        assert(out@ =~= old(out)@ + spec_dec_chars(n as nat));
    }
}

pub open spec fn spec_pow10(n: nat) -> nat
    decreases n,
{
    if n == 0 {
        1
    } else {
        10 * spec_pow10((n - 1) as nat)
    }
}

/// The numeric value of a digit string (most significant first).
pub open spec fn spec_digits_val(s: Seq<char>) -> nat
    decreases s.len(),
{
    if s.len() == 0 {
        0
    } else {
        spec_digits_val(s.drop_last()) * 10 + spec_digit_val(s.last()) as nat
    }
}

/// All characters of `s` are decimal digits.
pub open spec fn spec_all_digits(s: Seq<char>) -> bool {
    forall|i: int| 0 <= i < s.len() ==> spec_is_digit(#[trigger] s[i])
}

/// A digit string of length `n` has value below `10^n`.
pub proof fn lemma_digits_val_upper(s: Seq<char>)
    requires
        spec_all_digits(s),
    ensures
        spec_digits_val(s) < spec_pow10(s.len()),
    decreases s.len(),
{
    if s.len() > 0 {
        assert forall|i: int| 0 <= i < s.drop_last().len() implies spec_is_digit(
            #[trigger] s.drop_last()[i],
        ) by {
            assert(s.drop_last()[i] == s[i]);
        }
        lemma_digits_val_upper(s.drop_last());
        assert(spec_digit_val(s.last()) <= 9);
        assert(spec_digits_val(s.drop_last()) * 10 + 9 < spec_pow10(s.len())) by {
            let v = spec_digits_val(s.drop_last());
            let p = spec_pow10(s.drop_last().len());
            assert(v + 1 <= p);
            assert((v + 1) * 10 <= p * 10) by (nonlinear_arith)
                requires
                    v + 1 <= p,
            ;
            assert(spec_pow10(s.len()) == 10 * p);
        }
    }
}

proof fn lemma_digits_val_monotonic(s: Seq<char>, i: int)
    requires
        0 <= i <= s.len(),
    ensures
        spec_digits_val(s.subrange(0, i)) <= spec_digits_val(s),
    decreases s.len() - i,
{
    if i < s.len() {
        lemma_digits_val_monotonic(s, i + 1);
        assert(s.subrange(0, i + 1).drop_last() =~= s.subrange(0, i));
        assert(spec_digits_val(s.subrange(0, i + 1)) == spec_digits_val(s.subrange(0, i)) * 10
            + spec_digit_val(s.subrange(0, i + 1).last()) as nat);
    } else {
        assert(s.subrange(0, i) =~= s);
    }
}

/// The value of the digit substring `v[from..to]`, if it is at most `cap`;
/// `None` exactly when the value exceeds `cap`.
pub fn digits_val_checked(v: &Vec<char>, from: usize, to: usize, cap: u128) -> (r: Option<u128>)
    requires
        from <= to <= v@.len(),
        spec_all_digits(v@.subrange(from as int, to as int)),
    ensures
        match r {
            Some(x) => x == spec_digits_val(v@.subrange(from as int, to as int)) && x <= cap,
            None => spec_digits_val(v@.subrange(from as int, to as int)) > cap,
        },
{
    let ghost s = v@.subrange(from as int, to as int);
    let mut acc: u128 = 0;
    let mut i: usize = from;
    while i < to
        invariant
            from <= i <= to <= v@.len(),
            s == v@.subrange(from as int, to as int),
            spec_all_digits(s),
            acc == spec_digits_val(s.subrange(0, i - from)),
            acc <= cap,
        decreases to - i,
    {
        proof {
            assert(s[i - from] == v@[i as int]);
            assert(spec_is_digit(v@[i as int]));
        }
        let d = digit_val(v[i]) as u128;
        if acc > cap / 10 || (acc == cap / 10 && d > cap % 10) {
            proof {
                let pre = s.subrange(0, i - from);
                let pre1 = s.subrange(0, i + 1 - from);
                assert(pre1.drop_last() =~= pre);
                assert(spec_digits_val(pre1) == acc * 10 + d);
                assert(acc * 10 + d > cap) by {
                    if acc > cap / 10 {
                        assert(acc >= cap / 10 + 1);
                        assert(acc * 10 >= (cap / 10 + 1) * 10) by (nonlinear_arith)
                            requires
                                acc >= cap / 10 + 1,
                        ;
                        assert(cap / 10 * 10 + 10 > cap);
                    }
                }
                lemma_digits_val_monotonic(s, i + 1 - from);
            }
            return None;
        }
        proof {
            let pre = s.subrange(0, i - from);
            let pre1 = s.subrange(0, i + 1 - from);
            assert(pre1.drop_last() =~= pre);
            assert(acc * 10 + d <= cap) by {
                assert(acc <= cap / 10);
                assert(acc * 10 <= cap / 10 * 10) by (nonlinear_arith)
                    requires
                        acc <= cap / 10,
                ;
            }
        }
        acc = acc * 10 + d;
        i = i + 1;
    }
    proof {
        assert(s.subrange(0, to - from) =~= s);
    }
    Some(acc)
}

// ---------------------------------------------------------------------------
// digit runs
// ---------------------------------------------------------------------------

/// The end of the maximal digit run of `t` starting at `i`.
pub open spec fn spec_run_end(t: Seq<char>, i: int) -> int
    decreases t.len() - i,
{
    if i < 0 {
        i
    } else if i < t.len() && spec_is_digit(t[i]) {
        spec_run_end(t, i + 1)
    } else {
        i
    }
}

pub proof fn lemma_run_end(t: Seq<char>, i: int)
    requires
        0 <= i <= t.len(),
    ensures
        i <= spec_run_end(t, i) <= t.len(),
        forall|j: int| i <= j < spec_run_end(t, i) ==> spec_is_digit(#[trigger] t[j]),
        spec_run_end(t, i) < t.len() ==> !spec_is_digit(t[spec_run_end(t, i)]),
    decreases t.len() - i,
{
    if i < t.len() && spec_is_digit(t[i]) {
        lemma_run_end(t, i + 1);
    }
}

/// Computes `spec_run_end(t@, i)`.
pub fn run_end(t: &Vec<char>, i: usize) -> (r: usize)
    requires
        i <= t@.len(),
    ensures
        r == spec_run_end(t@, i as int),
        i <= r <= t@.len(),
    decreases t@.len() - i,
{
    if i < t.len() && is_digit(t[i]) {
        run_end(t, i + 1)
    } else {
        i
    }
}

// ---------------------------------------------------------------------------
// whitespace splitting
// ---------------------------------------------------------------------------

/// Length of the maximal non-whitespace prefix of `s`.
pub open spec fn spec_head_token_len(s: Seq<char>) -> nat
    decreases s.len(),
{
    if s.len() == 0 || spec_is_ws(s[0]) {
        0
    } else {
        1 + spec_head_token_len(s.skip(1))
    }
}

proof fn lemma_head_token_len(s: Seq<char>)
    ensures
        spec_head_token_len(s) <= s.len(),
        forall|j: int|
            0 <= j < spec_head_token_len(s) ==> !spec_is_ws(#[trigger] s[j]),
        spec_head_token_len(s) < s.len() ==> spec_is_ws(s[spec_head_token_len(s) as int]),
    decreases s.len(),
{
    if s.len() > 0 && !spec_is_ws(s[0]) {
        lemma_head_token_len(s.skip(1));
        assert forall|j: int| 0 <= j < spec_head_token_len(s) implies !spec_is_ws(
            #[trigger] s[j],
        ) by {
            if j > 0 {
                assert(s.skip(1)[j - 1] == s[j]);
            }
        }
        if spec_head_token_len(s) < s.len() {
            assert(s.skip(1)[spec_head_token_len(s) - 1] == s[spec_head_token_len(s) as int]);
        }
    }
}

/// The whitespace-separated tokens of `s`, in order, without empties —
/// the splitting `str::split_whitespace` performs.
pub open spec fn spec_tokens(s: Seq<char>) -> Seq<Seq<char>>
    decreases s.len(),
    via spec_tokens_decreases_proof
{
    if s.len() == 0 {
        seq![]
    } else if spec_is_ws(s[0]) {
        spec_tokens(s.skip(1))
    } else {
        let k = spec_head_token_len(s) as int;
        seq![s.subrange(0, k)] + spec_tokens(s.skip(k))
    }
}

#[via_fn]
proof fn spec_tokens_decreases_proof(s: Seq<char>) {
    if s.len() > 0 && !spec_is_ws(s[0]) {
        lemma_head_token_len(s);
        assert(spec_head_token_len(s) >= 1);
    }
}

/// Every token is non-empty and free of whitespace.
pub proof fn lemma_tokens_wf(s: Seq<char>)
    ensures
        forall|i: int|
            0 <= i < spec_tokens(s).len() ==> (#[trigger] spec_tokens(s)[i]).len() > 0,
        forall|i: int, j: int|
            0 <= i < spec_tokens(s).len() && 0 <= j < spec_tokens(s)[i].len() ==> !spec_is_ws(
                #[trigger] spec_tokens(s)[i][j],
            ),
    decreases s.len(),
{
    if s.len() == 0 {
    } else if spec_is_ws(s[0]) {
        lemma_tokens_wf(s.skip(1));
        assert(spec_tokens(s) == spec_tokens(s.skip(1)));
    } else {
        let k = spec_head_token_len(s) as int;
        lemma_head_token_len(s);
        assert(k >= 1);
        lemma_tokens_wf(s.skip(k));
        assert(spec_tokens(s) == seq![s.subrange(0, k)] + spec_tokens(s.skip(k)));
        assert forall|i: int|
            0 <= i < spec_tokens(s).len() implies (#[trigger] spec_tokens(s)[i]).len() > 0 by {
            if i == 0 {
                assert(spec_tokens(s)[0] == s.subrange(0, k));
            } else {
                assert(spec_tokens(s)[i] == spec_tokens(s.skip(k))[i - 1]);
            }
        }
        assert forall|i: int, j: int|
            0 <= i < spec_tokens(s).len() && 0 <= j < spec_tokens(s)[i].len() implies !spec_is_ws(
            spec_tokens(s)[i][j],
        ) by {
            if i == 0 {
                assert(spec_tokens(s)[0] == s.subrange(0, k));
                assert(s.subrange(0, k)[j] == s[j]);
            } else {
                assert(spec_tokens(s)[i] == spec_tokens(s.skip(k))[i - 1]);
            }
        }
    }
}

pub open spec fn views_of(s: Seq<Vec<char>>) -> Seq<Seq<char>> {
    s.map_values(|v: Vec<char>| v@)
}

/// Splits `v` into its whitespace-separated tokens.
pub fn split_ws(v: &Vec<char>) -> (r: Vec<Vec<char>>)
    ensures
        views_of(r@) == spec_tokens(v@),
{
    let n = v.len();
    let mut out: Vec<Vec<char>> = Vec::new();
    let mut i: usize = 0;
    proof {
        assert(v@.skip(0) =~= v@);
        assert(views_of(out@) =~= Seq::<Seq<char>>::empty());
    }
    while i < n
        invariant
            i <= n,
            n == v@.len(),
            spec_tokens(v@) =~= views_of(out@) + spec_tokens(v@.skip(i as int)),
        decreases n - i,
    {
        if is_ws(v[i]) {
            proof {
                assert(v@.skip(i as int)[0] == v@[i as int]);
                assert(v@.skip(i as int).skip(1) =~= v@.skip(i + 1));
            }
            i = i + 1;
        } else {
            let mut j: usize = i + 1;
            while j < n && !is_ws(v[j])
                invariant
                    i < j <= n,
                    n == v@.len(),
                    forall|k: int| i <= k < j ==> !spec_is_ws(#[trigger] v@[k]),
                decreases n - j,
            {
                j = j + 1;
            }
            let mut tok: Vec<char> = Vec::new();
            let mut k: usize = i;
            while k < j
                invariant
                    i <= k <= j <= n,
                    n == v@.len(),
                    tok@ =~= v@.subrange(i as int, k as int),
                decreases j - k,
            {
                tok.push(v[k]);
                assert(tok@ =~= v@.subrange(i as int, k + 1 as int));
                k = k + 1;
            }
            proof {
                let t = v@.skip(i as int);
                lemma_head_token_len_concrete(t, (j - i) as nat);
                assert(t.subrange(0, j - i) =~= v@.subrange(i as int, j as int));
                assert(t.skip(j - i) =~= v@.skip(j as int));
                lemma_views_push(out@, tok);
            }
            out.push(tok);
            i = j;
        }
    }
    proof {
        assert(v@.skip(n as int) =~= Seq::<char>::empty());
        assert(views_of(out@) =~= spec_tokens(v@));
    }
    out
}

proof fn lemma_views_push(s: Seq<Vec<char>>, v: Vec<char>)
    ensures
        views_of(s.push(v)) =~= views_of(s).push(v@),
{
}

/// If the first `k` characters are non-whitespace and position `k` is the end
/// or whitespace, the head token has length `k`.
proof fn lemma_head_token_len_concrete(t: Seq<char>, k: nat)
    requires
        k <= t.len(),
        forall|j: int| 0 <= j < k ==> !spec_is_ws(#[trigger] t[j]),
        k < t.len() ==> spec_is_ws(t[k as int]),
    ensures
        spec_head_token_len(t) == k,
    decreases k,
{
    if k == 0 {
    } else {
        assert(!spec_is_ws(t[0]));
        assert forall|j: int| 0 <= j < k - 1 implies !spec_is_ws(#[trigger] t.skip(1)[j]) by {
            assert(t.skip(1)[j] == t[j + 1]);
        }
        if (k - 1) < t.skip(1).len() {
            assert(t.skip(1)[k - 1] == t[k as int]);
        }
        lemma_head_token_len_concrete(t.skip(1), (k - 1) as nat);
    }
}

// ---------------------------------------------------------------------------
// trimming
// ---------------------------------------------------------------------------

/// Length of the maximal whitespace prefix of `s`.
pub open spec fn spec_ws_prefix_len(s: Seq<char>) -> nat
    decreases s.len(),
{
    if s.len() == 0 || !spec_is_ws(s[0]) {
        0
    } else {
        1 + spec_ws_prefix_len(s.skip(1))
    }
}

/// Length of the maximal whitespace suffix of `s`.
pub open spec fn spec_ws_suffix_len(s: Seq<char>) -> nat
    decreases s.len(),
{
    if s.len() == 0 || !spec_is_ws(s.last()) {
        0
    } else {
        1 + spec_ws_suffix_len(s.drop_last())
    }
}

/// `s` with leading and trailing whitespace removed, as `str::trim` does.
pub open spec fn spec_trim(s: Seq<char>) -> Seq<char> {
    let a = spec_ws_prefix_len(s) as int;
    if a == s.len() {
        Seq::empty()
    } else {
        let b = s.len() - spec_ws_suffix_len(s);
        s.subrange(a, b as int)
    }
}

pub proof fn lemma_ws_prefix_len(s: Seq<char>)
    ensures
        spec_ws_prefix_len(s) <= s.len(),
        forall|j: int| 0 <= j < spec_ws_prefix_len(s) ==> spec_is_ws(#[trigger] s[j]),
        spec_ws_prefix_len(s) < s.len() ==> !spec_is_ws(s[spec_ws_prefix_len(s) as int]),
    decreases s.len(),
{
    if s.len() > 0 && spec_is_ws(s[0]) {
        lemma_ws_prefix_len(s.skip(1));
        assert forall|j: int| 0 <= j < spec_ws_prefix_len(s) implies spec_is_ws(
            #[trigger] s[j],
        ) by {
            if j > 0 {
                assert(s.skip(1)[j - 1] == s[j]);
            }
        }
        if spec_ws_prefix_len(s) < s.len() {
            assert(s.skip(1)[spec_ws_prefix_len(s) - 1] == s[spec_ws_prefix_len(s) as int]);
        }
    }
}

pub proof fn lemma_ws_prefix_len_concrete(s: Seq<char>, k: nat)
    requires
        k <= s.len(),
        forall|j: int| 0 <= j < k ==> spec_is_ws(#[trigger] s[j]),
        k < s.len() ==> !spec_is_ws(s[k as int]),
    ensures
        spec_ws_prefix_len(s) == k,
    decreases k,
{
    if k == 0 {
    } else {
        assert(spec_is_ws(s[0]));
        assert forall|j: int| 0 <= j < k - 1 implies spec_is_ws(#[trigger] s.skip(1)[j]) by {
            assert(s.skip(1)[j] == s[j + 1]);
        }
        if (k - 1) < s.skip(1).len() {
            assert(s.skip(1)[k - 1] == s[k as int]);
        }
        lemma_ws_prefix_len_concrete(s.skip(1), (k - 1) as nat);
    }
}

proof fn lemma_ws_suffix_len_concrete(s: Seq<char>, k: nat)
    requires
        k <= s.len(),
        forall|j: int| s.len() - k <= j < s.len() ==> spec_is_ws(#[trigger] s[j]),
        k < s.len() ==> !spec_is_ws(s[s.len() - k - 1]),
    ensures
        spec_ws_suffix_len(s) == k,
    decreases k,
{
    if k == 0 {
    } else {
        assert(spec_is_ws(s.last()));
        assert forall|j: int|
            s.drop_last().len() - (k - 1) <= j < s.drop_last().len() implies spec_is_ws(
            #[trigger] s.drop_last()[j],
        ) by {
            assert(s.drop_last()[j] == s[j]);
        }
        if (k - 1) < s.drop_last().len() {
            assert(s.drop_last()[s.drop_last().len() - (k - 1) - 1] == s[s.len() - k - 1]);
        }
        lemma_ws_suffix_len_concrete(s.drop_last(), (k - 1) as nat);
    }
}

/// Removes leading and trailing whitespace.
pub fn trim_chars(v: &Vec<char>) -> (r: Vec<char>)
    ensures
        r@ == spec_trim(v@),
{
    let n = v.len();
    let mut a: usize = 0;
    while a < n && is_ws(v[a])
        invariant
            a <= n,
            n == v@.len(),
            forall|j: int| 0 <= j < a ==> spec_is_ws(#[trigger] v@[j]),
        decreases n - a,
    {
        a = a + 1;
    }
    proof {
        lemma_ws_prefix_len_concrete(v@, a as nat);
    }
    if a == n {
        let r: Vec<char> = Vec::new();
        assert(r@ =~= spec_trim(v@));
        return r;
    }
    let mut b: usize = n;
    while b > a && is_ws(v[b - 1])
        invariant
            a <= b <= n,
            n == v@.len(),
            forall|j: int| b <= j < n ==> spec_is_ws(#[trigger] v@[j]),
            a < n && !spec_is_ws(v@[a as int]),
        decreases b,
    {
        b = b - 1;
    }
    proof {
        if b == a {
            assert(!spec_is_ws(v@[a as int]));
            assert(false);
        }
        lemma_ws_suffix_len_concrete(v@, (n - b) as nat);
    }
    let mut r: Vec<char> = Vec::new();
    let mut k: usize = a;
    while k < b
        invariant
            a <= k <= b <= n,
            n == v@.len(),
            r@ =~= v@.subrange(a as int, k as int),
        decreases b - k,
    {
        r.push(v[k]);
        assert(r@ =~= v@.subrange(a as int, k + 1 as int));
        k = k + 1;
    }
    proof {
        assert(r@ =~= spec_trim(v@));
    }
    r
}

// ---------------------------------------------------------------------------
// lexicographic order on char sequences
// ---------------------------------------------------------------------------

/// Code-point lexicographic "less than or equal" — the order `BTreeSet<String>`
/// iterates in (byte order on UTF-8 coincides with code-point order).
/// Characters compare by code point.
pub open spec fn spec_lex_le(a: Seq<char>, b: Seq<char>) -> bool
    decreases a.len(),
{
    if a.len() == 0 {
        true
    } else if b.len() == 0 {
        false
    } else if a[0] < b[0] {
        true
    } else if a[0] > b[0] {
        false
    } else {
        spec_lex_le(a.skip(1), b.skip(1))
    }
}

/// Lexicographic order is transitive.
pub proof fn lemma_lex_le_trans(a: Seq<char>, b: Seq<char>, c: Seq<char>)
    requires
        spec_lex_le(a, b),
        spec_lex_le(b, c),
    ensures
        spec_lex_le(a, c),
    decreases a.len(),
{
    if a.len() > 0 && b.len() > 0 && c.len() > 0 {
        if a[0] == b[0] && b[0] == c[0] {
            lemma_lex_le_trans(a.skip(1), b.skip(1), c.skip(1));
        }
    }
}

/// Decides `spec_lex_le(a@, b@)`.
pub fn lex_le(a: &Vec<char>, b: &Vec<char>) -> (r: bool)
    ensures
        r == spec_lex_le(a@, b@),
{
    let mut i: usize = 0;
    proof {
        assert(a@.skip(0) =~= a@);
        assert(b@.skip(0) =~= b@);
    }
    loop
        invariant
            i <= a@.len(),
            i <= b@.len(),
            spec_lex_le(a@, b@) == spec_lex_le(a@.skip(i as int), b@.skip(i as int)),
            forall|j: int| 0 <= j < i ==> a@[j] == b@[j],
        decreases a@.len() - i,
    {
        if i == a.len() {
            return true;
        }
        if i == b.len() {
            return false;
        }
        let ca = a[i];
        let cb = b[i];
        proof {
            assert(a@.skip(i as int)[0] == a@[i as int]);
            assert(b@.skip(i as int)[0] == b@[i as int]);
            assert(a@.skip(i as int).skip(1) =~= a@.skip(i + 1));
            assert(b@.skip(i as int).skip(1) =~= b@.skip(i + 1));
        }
        if ca < cb {
            return true;
        }
        if ca > cb {
            return false;
        }
        i = i + 1;
    }
}

// ---------------------------------------------------------------------------
// locating "::" separators
// ---------------------------------------------------------------------------

/// The first index `i` with `s[i] == ':' && s[i + 1] == ':'`, or `None`.
pub open spec fn spec_find_dcolon(s: Seq<char>) -> Option<int>
    decreases s.len(),
{
    if s.len() < 2 {
        None
    } else if s[0] == ':' && s[1] == ':' {
        Some(0)
    } else {
        match spec_find_dcolon(s.skip(1)) {
            Some(i) => Some(i + 1),
            None => None,
        }
    }
}

pub proof fn lemma_find_dcolon(s: Seq<char>)
    ensures
        match spec_find_dcolon(s) {
            Some(i) => 0 <= i && i + 2 <= s.len() && s[i] == ':' && s[i + 1] == ':' && forall|
                j: int,
            | 0 <= j < i ==> !((#[trigger] s[j]) == ':' && s[j + 1] == ':'),
            None => forall|j: int|
                0 <= j && j + 2 <= s.len() ==> !((#[trigger] s[j]) == ':' && s[j + 1] == ':'),
        },
    decreases s.len(),
{
    if s.len() < 2 {
    } else if s[0] == ':' && s[1] == ':' {
    } else {
        lemma_find_dcolon(s.skip(1));
        match spec_find_dcolon(s.skip(1)) {
            Some(i) => {
                assert(s.skip(1)[i] == s[i + 1]);
                assert(s.skip(1)[i + 1] == s[i + 2]);
                assert forall|j: int| 0 <= j < i + 1 implies !((#[trigger] s[j]) == ':' && s[j
                    + 1] == ':') by {
                    if j > 0 {
                        assert(s.skip(1)[j - 1] == s[j]);
                        assert(s.skip(1)[j] == s[j + 1]);
                    }
                }
            },
            None => {
                assert forall|j: int| 0 <= j && j + 2 <= s.len() implies !((#[trigger] s[j])
                    == ':' && s[j + 1] == ':') by {
                    if j > 0 {
                        assert(s.skip(1)[j - 1] == s[j]);
                        assert(s.skip(1)[j] == s[j + 1]);
                    }
                }
            },
        }
    }
}

/// Finds the first `"::"` at or after `from`, i.e. `spec_find_dcolon` of the
/// suffix, reported as an absolute index.
pub fn find_dcolon(v: &Vec<char>, from: usize) -> (r: Option<usize>)
    requires
        from <= v@.len(),
    ensures
        match r {
            Some(i) => from <= i && spec_find_dcolon(v@.skip(from as int)) == Some(
                i - from as int,
            ),
            None => spec_find_dcolon(v@.skip(from as int)) is None,
        },
{
    let n = v.len();
    let mut i: usize = from;
    loop
        invariant
            from <= i <= n,
            n == v@.len(),
            spec_find_dcolon(v@.skip(from as int)) == match spec_find_dcolon(v@.skip(i as int)) {
                Some(k) => Some(k + (i - from) as int),
                None => None::<int>,
            },
        decreases n - i,
    {
        if n - i < 2 {
            proof {
                assert(v@.skip(i as int).len() < 2);
            }
            return None;
        }
        let c0 = v[i];
        let c1 = v[i + 1];
        proof {
            assert(v@.skip(i as int)[0] == v@[i as int]);
            assert(v@.skip(i as int)[1] == v@[i + 1]);
            assert(v@.skip(i as int).skip(1) =~= v@.skip(i + 1));
        }
        if c0 == ':' && c1 == ':' {
            return Some(i);
        }
        i = i + 1;
    }
}

/// Whether `s` contains `"::"` anywhere.
pub open spec fn spec_has_dcolon(s: Seq<char>) -> bool {
    spec_find_dcolon(s) is Some
}


/// Dropping one trailing whitespace character leaves the token list
/// unchanged.
pub proof fn lemma_tokens_drop_trailing_ws(s: Seq<char>)
    requires
        s.len() >= 1,
        spec_is_ws(s.last()),
    ensures
        spec_tokens(s.drop_last()) == spec_tokens(s),
    decreases s.len(),
{
    let t = s.drop_last();
    if s.len() == 1 {
        assert(spec_tokens(s) == spec_tokens(s.skip(1)));
        assert(s.skip(1) =~= Seq::<char>::empty());
        assert(t =~= Seq::<char>::empty());
    } else if spec_is_ws(s[0]) {
        assert(s.skip(1).last() == s.last());
        lemma_tokens_drop_trailing_ws(s.skip(1));
        assert(s.skip(1).drop_last() =~= t.skip(1));
        assert(spec_tokens(t) == spec_tokens(t.skip(1)));
    } else {
        let k = spec_head_token_len(s) as int;
        lemma_head_token_len(s);
        assert(k < s.len()) by {
            if k == s.len() {
                assert(!spec_is_ws(s[s.len() - 1]));
            }
        }
        assert(k >= 1);
        // the head token is the same in both strings
        lemma_head_token_len(t);
        assert forall|j: int| 0 <= j < k implies !spec_is_ws(#[trigger] t[j]) by {
            assert(t[j] == s[j]);
        }
        if k < t.len() {
            assert(t[k] == s[k]);
        }
        lemma_head_token_len_concrete(t, k as nat);
        assert(t.subrange(0, k) =~= s.subrange(0, k));
        if k == s.len() - 1 {
            // only the trailing whitespace remains after the token
            assert(s.skip(k).len() == 1);
            assert(s.skip(k)[0] == s.last());
            assert(spec_tokens(s.skip(k)) == spec_tokens(s.skip(k).skip(1)));
            assert(s.skip(k).skip(1) =~= Seq::<char>::empty());
            assert(t.skip(k) =~= Seq::<char>::empty());
            assert(spec_tokens(s) =~= spec_tokens(t));
        } else {
            assert(s.skip(k).last() == s.last());
            lemma_tokens_drop_trailing_ws(s.skip(k));
            assert(s.skip(k).drop_last() =~= t.skip(k));
            assert(spec_tokens(s) =~= spec_tokens(t));
        }
    }
}

/// Dropping any run of trailing whitespace leaves the token list
/// unchanged.
pub proof fn lemma_tokens_drop_ws_suffix(s: Seq<char>, k: int)
    requires
        0 <= k <= s.len(),
        forall|j: int| s.len() - k <= j < s.len() ==> spec_is_ws(#[trigger] s[j]),
    ensures
        spec_tokens(s.subrange(0, s.len() - k)) == spec_tokens(s),
    decreases k,
{
    if k == 0 {
        assert(s.subrange(0, s.len() as int) =~= s);
    } else {
        lemma_tokens_drop_trailing_ws(s);
        let t = s.drop_last();
        assert(t =~= s.subrange(0, s.len() - 1));
        assert forall|j: int| t.len() - (k - 1) <= j < t.len() implies spec_is_ws(
            #[trigger] t[j],
        ) by {
            assert(t[j] == s[j]);
        }
        lemma_tokens_drop_ws_suffix(t, k - 1);
        assert(t.subrange(0, t.len() - (k - 1)) =~= s.subrange(0, s.len() - k));
    }
}

/// The whitespace suffix cannot reach past a non-whitespace character.
pub proof fn lemma_ws_suffix_bound(s: Seq<char>, j: int)
    requires
        0 <= j < s.len(),
        !spec_is_ws(s[j]),
    ensures
        spec_ws_suffix_len(s) <= s.len() - 1 - j,
    decreases s.len(),
{
    if s.len() > 0 && spec_is_ws(s.last()) {
        assert(j < s.len() - 1);
        assert(s.drop_last()[j] == s[j]);
        lemma_ws_suffix_bound(s.drop_last(), j);
    }
}

/// In `a ++ b` where `a` holds no `"::"`, does not end in `':'`, and `b`
/// starts with `"::"`, the first `"::"` sits exactly at the end of `a`.
pub proof fn lemma_find_dcolon_concat(s: Seq<char>, alen: int)
    requires
        0 <= alen,
        alen + 2 <= s.len(),
        s[alen] == ':',
        s[alen + 1] == ':',
        alen >= 1 ==> s[alen - 1] != ':',
        !spec_has_dcolon(s.subrange(0, alen)),
    ensures
        spec_find_dcolon(s) == Some(alen),
    decreases alen,
{
    if alen == 0 {
    } else {
        assert(s[0] != ':' || s[1] != ':') by {
            lemma_find_dcolon(s.subrange(0, alen));
            if alen >= 2 {
                assert(s.subrange(0, alen)[0] == s[0]);
                assert(s.subrange(0, alen)[1] == s[1]);
            } else {
                // alen == 1: s[0] == s[alen - 1] != ':'
            }
        }
        let t = s.skip(1);
        assert(t[alen - 1] == s[alen]);
        assert(t[alen] == s[alen + 1]);
        if alen - 1 >= 1 {
            assert(t[alen - 2] == s[alen - 1]);
        }
        assert(!spec_has_dcolon(t.subrange(0, alen - 1))) by {
            lemma_find_dcolon(t.subrange(0, alen - 1));
            match spec_find_dcolon(t.subrange(0, alen - 1)) {
                None => {},
                Some(w) => {
                    lemma_find_dcolon(s.subrange(0, alen));
                    assert(t.subrange(0, alen - 1)[w] == s[w + 1]);
                    assert(t.subrange(0, alen - 1)[w + 1] == s[w + 2]);
                    assert(s.subrange(0, alen)[w + 1] == s[w + 1]);
                    assert(s.subrange(0, alen)[w + 2] == s[w + 2]);
                    assert(spec_find_dcolon(s.subrange(0, alen)) is None);
                },
            }
        }
        lemma_find_dcolon_concat(t, alen - 1);
    }
}


/// A digit character carries its value.
proof fn lemma_digit_char_val(d: int)
    requires
        0 <= d <= 9,
    ensures
        spec_digit_val(spec_digit_char(d)) == d,
        spec_is_digit(spec_digit_char(d)),
{
    if d == 0 {
        assert(spec_digit_val('0') == 0);
    } else if d == 1 {
        assert(spec_digit_val('1') == 1);
    } else if d == 2 {
        assert(spec_digit_val('2') == 2);
    } else if d == 3 {
        assert(spec_digit_val('3') == 3);
    } else if d == 4 {
        assert(spec_digit_val('4') == 4);
    } else if d == 5 {
        assert(spec_digit_val('5') == 5);
    } else if d == 6 {
        assert(spec_digit_val('6') == 6);
    } else if d == 7 {
        assert(spec_digit_val('7') == 7);
    } else if d == 8 {
        assert(spec_digit_val('8') == 8);
    } else {
        assert(spec_digit_val('9') == 9);
    }
}

/// A decimal rendering is one or more digits carrying back the value.
pub proof fn lemma_dec_chars_props(n: nat)
    ensures
        spec_dec_chars(n).len() >= 1,
        spec_all_digits(spec_dec_chars(n)),
        spec_digits_val(spec_dec_chars(n)) == n,
    decreases n,
{
    if n < 10 {
        let s = spec_dec_chars(n);
        assert(s == seq![spec_digit_char(n as int)]);
        lemma_digit_char_val(n as int);
        assert(s.len() == 1);
        assert(s.last() == spec_digit_char(n as int));
        assert(s.drop_last() =~= Seq::<char>::empty());
        assert(spec_digits_val(s.drop_last()) == 0);
        assert(spec_digits_val(s) == spec_digits_val(s.drop_last()) * 10 + spec_digit_val(
            s.last(),
        ) as nat);
        assert(spec_digits_val(s) == n);
    } else {
        lemma_digit_char_val((n % 10) as int);
        lemma_dec_chars_props(n / 10);
        let p = spec_dec_chars(n / 10);
        let s = spec_dec_chars(n);
        assert(s =~= p + seq![spec_digit_char((n % 10) as int)]);
        assert(s.drop_last() =~= p);
        assert(s.last() == spec_digit_char((n % 10) as int));
        assert forall|i: int| 0 <= i < s.len() implies spec_is_digit(#[trigger] s[i]) by {
            if i < p.len() {
                assert(s[i] == p[i]);
            }
        }
        assert(spec_digits_val(s) == spec_digits_val(p) * 10 + (n % 10));
        vstd::arithmetic::div_mod::lemma_fundamental_div_mod(n as int, 10);
        assert((n / 10) * 10 + n % 10 == n) by (nonlinear_arith)
            requires
                n == 10 * (n / 10) + n % 10,
        ;
    }
}

/// A value below `10^k` renders in at most `k` digits.
pub proof fn lemma_dec_chars_len(n: nat, k: nat)
    requires
        k >= 1,
        n < spec_pow10(k),
    ensures
        spec_dec_chars(n).len() <= k,
    decreases k,
{
    if n < 10 {
    } else {
        assert(k >= 2) by {
            if k == 1 {
                assert(spec_pow10(1) == 10 * spec_pow10(0));
            }
        }
        assert(spec_pow10(k) == 10 * spec_pow10((k - 1) as nat));
        assert(n / 10 < spec_pow10((k - 1) as nat)) by (nonlinear_arith)
            requires
                n < 10 * spec_pow10((k - 1) as nat),
                n == 10 * (n / 10) + n % 10,
                0 <= n % 10 < 10,
        ;
        vstd::arithmetic::div_mod::lemma_fundamental_div_mod(n as int, 10);
        assert(n / 10 < spec_pow10((k - 1) as nat)) by {
            assert(10 * (n / 10) <= n) by (nonlinear_arith)
                requires
                    n == 10 * (n / 10) + n % 10,
                    n % 10 >= 0,
            ;
            assert(10 * (n / 10) < 10 * spec_pow10((k - 1) as nat));
            assert(n / 10 < spec_pow10((k - 1) as nat)) by (nonlinear_arith)
                requires
                    10 * (n / 10) < 10 * spec_pow10((k - 1) as nat),
            ;
        }
        lemma_dec_chars_len(n / 10, (k - 1) as nat);
    }
}

/// A value at least `10^k` needs more than `k` digits.
pub proof fn lemma_dec_chars_len_lower(n: nat, k: nat)
    requires
        n >= spec_pow10(k),
    ensures
        spec_dec_chars(n).len() >= k + 1,
    decreases k,
{
    if k > 0 {
        assert(spec_pow10(k) == 10 * spec_pow10((k - 1) as nat));
        vstd::arithmetic::div_mod::lemma_fundamental_div_mod(n as int, 10);
        assert(n / 10 >= spec_pow10((k - 1) as nat)) by (nonlinear_arith)
            requires
                n >= 10 * spec_pow10((k - 1) as nat),
                n == 10 * (n / 10) + n % 10,
                0 <= n % 10 < 10,
        ;
        lemma_dec_chars_len_lower(n / 10, (k - 1) as nat);
        assert(n >= 10);
    }
}

/// Leading zeros do not change a digit string's value.
pub proof fn lemma_digits_val_zero_prefix(z: int, s: Seq<char>)
    requires
        z >= 0,
    ensures
        spec_digits_val(Seq::new(z as nat, |i: int| '0') + s) == spec_digits_val(s),
    decreases s.len(),
{
    let zs = Seq::new(z as nat, |i: int| '0');
    if s.len() == 0 {
        assert(zs + s =~= zs);
        lemma_digits_val_zeros(z);
    } else {
        assert((zs + s).drop_last() =~= zs + s.drop_last());
        assert((zs + s).last() == s.last());
        lemma_digits_val_zero_prefix(z, s.drop_last());
    }
}

/// A string of zeros has value zero.
proof fn lemma_digits_val_zeros(z: int)
    requires
        z >= 0,
    ensures
        spec_digits_val(Seq::new(z as nat, |i: int| '0')) == 0,
    decreases z,
{
    let zs = Seq::new(z as nat, |i: int| '0');
    if z > 0 {
        assert(zs.drop_last() =~= Seq::new((z - 1) as nat, |i: int| '0'));
        assert(zs.last() == '0');
        lemma_digits_val_zeros(z - 1);
    }
}

/// A digit run ends exactly where the digits stop.
pub proof fn lemma_run_end_concrete(t: Seq<char>, i: int, e: int)
    requires
        0 <= i <= e <= t.len(),
        forall|j: int| i <= j < e ==> spec_is_digit(#[trigger] t[j]),
        e < t.len() ==> !spec_is_digit(t[e]),
    ensures
        spec_run_end(t, i) == e,
    decreases e - i,
{
    if i < e {
        lemma_run_end_concrete(t, i + 1, e);
    }
}


/// The characters the whitespace suffix covers are whitespace.
pub proof fn lemma_ws_suffix_props(s: Seq<char>)
    ensures
        spec_ws_suffix_len(s) <= s.len(),
        forall|j: int|
            s.len() - spec_ws_suffix_len(s) <= j < s.len() ==> spec_is_ws(#[trigger] s[j]),
    decreases s.len(),
{
    if s.len() > 0 && spec_is_ws(s.last()) {
        lemma_ws_suffix_props(s.drop_last());
        assert forall|j: int|
            s.len() - spec_ws_suffix_len(s) <= j < s.len() implies spec_is_ws(
            #[trigger] s[j],
        ) by {
            if j < s.len() - 1 {
                assert(s.drop_last()[j] == s[j]);
            }
        }
    }
}

} // verus!
