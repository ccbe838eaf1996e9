//! Expense records.
//!
//! A record couples a free-text name, a set of tags (slug key to display
//! label), a positive decimal amount, a start date and a recurrence
//! lifetime, together with the timestamp at which it was recorded and,
//! when it came from parsing, the original source text.  From these it
//! derives the spanned days, the end date, the amortised daily cost and a
//! progress ratio, and serialises itself to the line format of the ledger.

use crate::date::{
    add_days, date_le, day_number, spec_date_iso, spec_days_before_year, Date, MAX_YEAR,
};
use crate::decimal::{
    mul_u64, norm, pow10_small, spec_trunc2, with_scale_2, Decimal, MAX_MANT,
};
use crate::error::CostOfLifeError;
use crate::lifetime::{spec_days_since, Lifetime};
use crate::text::{
    chars_of, spec_has_dcolon, spec_lex_le, spec_trim, string_of, trim_chars,
};
use vstd::prelude::*;

verus! {

/// Bound on `amount-value * repeats`, scaled by `10^12`: `10^38`.
pub const MAX_TOTAL12: u128 = 100_000_000_000_000_000_000_000_000_000_000_000_000;

// ---------------------------------------------------------------------------
// outside helpers
// ---------------------------------------------------------------------------

/// What the slug crate computes for a string: a pure function of the
/// characters alone.
pub uninterp spec fn slug_of(s: Seq<char>) -> Seq<char>;

/// Relies on `slug::slugify`: the normalised lowercase-and-hyphens key of
/// a tag label, a function of the label's characters alone.
#[verifier::external_body]
fn slugify_str(s: &str) -> (r: String)
    ensures
        r@ == slug_of(s@),
{
    slug::slugify(s)
}

/// Whether a string is a timestamp chrono's RFC 3339 parser accepts: a
/// pure function of the characters alone.
pub uninterp spec fn spec_rfc3339_ok(s: Seq<char>) -> bool;

/// Relies on `chrono::DateTime::parse_from_rfc3339`: decides whether the
/// string is a valid RFC 3339 timestamp.
#[verifier::external_body]
fn rfc3339_check(s: &str) -> (r: bool)
    ensures
        r == spec_rfc3339_ok(s@),
{
    match chrono::DateTime::parse_from_rfc3339(s) {
        Ok(_) => true,
        Err(_) => false,
    }
}

/// Relies on chrono's `Local::now` and `to_rfc3339`: the current local
/// time rendered as RFC 3339 text.  The value depends on the clock;
/// nothing is promised of it.
#[verifier::external_body]
pub fn now_local() -> (r: String) {
    chrono::DateTime::<chrono::FixedOffset>::from(chrono::Local::now()).to_rfc3339()
}

// ---------------------------------------------------------------------------
// tags
// ---------------------------------------------------------------------------

/// The views of a sequence of string slices.
pub open spec fn views_of_strs(ts: Seq<&str>) -> Seq<Seq<char>> {
    ts.map_values(|t: &str| t@)
}

/// The views of stored tag pairs.
pub open spec fn tag_views(ts: Seq<(String, String)>) -> Seq<(Seq<char>, Seq<char>)> {
    ts.map_values(|p: (String, String)| (p.0@, p.1@))
}

/// Inserting one slug/label pair: an existing key keeps its position and
/// takes the new label, a new key is appended.
pub open spec fn spec_tag_insert(
    acc: Seq<(Seq<char>, Seq<char>)>,
    slug: Seq<char>,
    label: Seq<char>,
) -> Seq<(Seq<char>, Seq<char>)>
    decreases acc.len(),
{
    if acc.len() == 0 {
        seq![(slug, label)]
    } else if acc[0].0 == slug {
        seq![(slug, label)] + acc.skip(1)
    } else {
        seq![acc[0]] + spec_tag_insert(acc.skip(1), slug, label)
    }
}

/// The tag map a label sequence builds: each label is keyed by its slug,
/// later duplicates overwriting earlier labels.
pub open spec fn spec_build_tags(labels: Seq<Seq<char>>) -> Seq<(Seq<char>, Seq<char>)>
    decreases labels.len(),
{
    if labels.len() == 0 {
        seq![]
    } else {
        spec_tag_insert(
            spec_build_tags(labels.drop_last()),
            slug_of(labels.last()),
            labels.last(),
        )
    }
}

/// All keys of a tag sequence are distinct.
pub open spec fn spec_tags_distinct(ts: Seq<(Seq<char>, Seq<char>)>) -> bool {
    forall|i: int, j: int| 0 <= i < j < ts.len() ==> (#[trigger] ts[i]).0 != (#[trigger] ts[j]).0
}

proof fn lemma_tag_insert_props(acc: Seq<(Seq<char>, Seq<char>)>, slug: Seq<char>, label: Seq<char>)
    requires
        spec_tags_distinct(acc),
    ensures
        spec_tags_distinct(spec_tag_insert(acc, slug, label)),
        forall|k: int|
            0 <= k < spec_tag_insert(acc, slug, label).len() ==> (#[trigger] spec_tag_insert(
                acc,
                slug,
                label,
            )[k]).0 == slug || exists|i: int|
                0 <= i < acc.len() && (#[trigger] acc[i]).0 == spec_tag_insert(acc, slug, label)[k].0,
    decreases acc.len(),
{
    let out = spec_tag_insert(acc, slug, label);
    if acc.len() == 0 {
    } else if acc[0].0 == slug {
        assert forall|i: int, j: int| 0 <= i < j < out.len() implies (#[trigger] out[i]).0 != (
        #[trigger] out[j]).0 by {
            assert(out[j] == acc[j]);
            if i > 0 {
                assert(out[i] == acc[i]);
            }
        }
        assert forall|k: int| 0 <= k < out.len() implies (#[trigger] out[k]).0 == slug || exists|
            i: int,
        | 0 <= i < acc.len() && (#[trigger] acc[i]).0 == out[k].0 by {
            if k > 0 {
                assert(out[k] == acc[k]);
                assert(acc[k].0 == out[k].0);
            }
        }
    } else {
        let tail = acc.skip(1);
        assert forall|i: int, j: int| 0 <= i < j < tail.len() implies (#[trigger] tail[i]).0 != (
        #[trigger] tail[j]).0 by {
            assert(tail[i] == acc[i + 1]);
            assert(tail[j] == acc[j + 1]);
        }
        lemma_tag_insert_props(tail, slug, label);
        let sub = spec_tag_insert(tail, slug, label);
        assert forall|k: int| 0 <= k < out.len() implies (#[trigger] out[k]).0 == slug || exists|
            i: int,
        | 0 <= i < acc.len() && (#[trigger] acc[i]).0 == out[k].0 by {
            if k == 0 {
                assert(acc[0].0 == out[0].0);
            } else {
                assert(out[k] == sub[k - 1]);
                if sub[k - 1].0 != slug {
                    let i = choose|i: int| 0 <= i < tail.len() && (#[trigger] tail[i]).0 == sub[
                        k - 1
                    ].0;
                    assert(acc[i + 1].0 == out[k].0);
                }
            }
        }
        assert forall|i: int, j: int| 0 <= i < j < out.len() implies (#[trigger] out[i]).0 != (
        #[trigger] out[j]).0 by {
            if i == 0 {
                // out[0] == acc[0]; out[j] is slug (≠ acc[0].0) or an old tail key
                assert(out[j] == sub[j - 1]);
                if sub[j - 1].0 != slug {
                    let k = choose|k: int| 0 <= k < tail.len() && (#[trigger] tail[k]).0 == sub[
                        j - 1
                    ].0;
                    assert(acc[k + 1].0 == sub[j - 1].0);
                }
            } else {
                assert(out[i] == sub[i - 1]);
                assert(out[j] == sub[j - 1]);
            }
        }
    }
}

/// Distinct keys throughout a built tag map.
pub proof fn lemma_build_tags_distinct(labels: Seq<Seq<char>>)
    ensures
        spec_tags_distinct(spec_build_tags(labels)),
    decreases labels.len(),
{
    if labels.len() > 0 {
        lemma_build_tags_distinct(labels.drop_last());
        lemma_tag_insert_props(
            spec_build_tags(labels.drop_last()),
            slug_of(labels.last()),
            labels.last(),
        );
    }
}

/// Inserts one slug/label pair into the vector, as the spec does.
fn tag_insert(acc: &mut Vec<(String, String)>, slug: String, label: String)
    ensures
        tag_views(final (acc)@) == spec_tag_insert(tag_views(old(acc)@), slug@, label@),
{
    let n = acc.len();
    let mut i: usize = 0;
    while i < n
        invariant
            i <= n,
            n == acc@.len(),
            acc@ == old(acc)@,
            forall|k: int| 0 <= k < i ==> (#[trigger] tag_views(acc@)[k]).0 != slug@,
        decreases n - i,
    {
        if acc[i].0.eq(&slug) {
            proof {
                assert(tag_views(acc@)[i as int].0 == slug@);
            }
            acc.set(i, (slug, label));
            proof {
                lemma_tag_insert_at(tag_views(old(acc)@), slug@, label@, i as int);
                assert(tag_views(acc@) =~= tag_views(old(acc)@).update(
                    i as int,
                    (slug@, label@),
                ));
            }
            return ;
        }
        proof {
            assert(tag_views(acc@)[i as int].0 == acc@[i as int].0@);
        }
        i = i + 1;
    }
    acc.push((slug, label));
    proof {
        lemma_tag_insert_append(tag_views(old(acc)@), slug@, label@);
        assert(tag_views(acc@) =~= tag_views(old(acc)@).push((slug@, label@)));
    }
}

/// When the key sits at position `i`, insertion is an update there.
proof fn lemma_tag_insert_at(
    acc: Seq<(Seq<char>, Seq<char>)>,
    slug: Seq<char>,
    label: Seq<char>,
    i: int,
)
    requires
        0 <= i < acc.len(),
        acc[i].0 == slug,
        forall|k: int| 0 <= k < i ==> (#[trigger] acc[k]).0 != slug,
    ensures
        spec_tag_insert(acc, slug, label) =~= acc.update(i, (slug, label)),
    decreases i,
{
    if i == 0 {
        assert(spec_tag_insert(acc, slug, label) == seq![(slug, label)] + acc.skip(1));
    } else {
        let tail = acc.skip(1);
        assert(tail[i - 1].0 == slug);
        assert forall|k: int| 0 <= k < i - 1 implies (#[trigger] tail[k]).0 != slug by {
            assert(tail[k] == acc[k + 1]);
        }
        lemma_tag_insert_at(tail, slug, label, i - 1);
        assert(spec_tag_insert(acc, slug, label) == seq![acc[0]] + spec_tag_insert(
            tail,
            slug,
            label,
        ));
        assert(spec_tag_insert(acc, slug, label) =~= acc.update(i, (slug, label)));
    }
}

/// When the key is absent, insertion is an append.
proof fn lemma_tag_insert_append(acc: Seq<(Seq<char>, Seq<char>)>, slug: Seq<char>, label: Seq<char>)
    requires
        forall|k: int| 0 <= k < acc.len() ==> (#[trigger] acc[k]).0 != slug,
    ensures
        spec_tag_insert(acc, slug, label) =~= acc.push((slug, label)),
    decreases acc.len(),
{
    if acc.len() > 0 {
        let tail = acc.skip(1);
        assert forall|k: int| 0 <= k < tail.len() implies (#[trigger] tail[k]).0 != slug by {
            assert(tail[k] == acc[k + 1]);
        }
        lemma_tag_insert_append(tail, slug, label);
    }
}

/// Builds the slug-keyed tag map of a label list.
fn build_tags(labels: &Vec<&str>) -> (r: Vec<(String, String)>)
    ensures
        tag_views(r@) == spec_build_tags(views_of_strs(labels@)),
        spec_tags_distinct(tag_views(r@)),
{
    let n = labels.len();
    let mut acc: Vec<(String, String)> = Vec::new();
    proof {
        assert(views_of_strs(labels@.subrange(0, 0)) =~= Seq::<Seq<char>>::empty());
        assert(tag_views(acc@) =~= spec_build_tags(views_of_strs(labels@.subrange(0, 0))));
    }
    let mut i: usize = 0;
    while i < n
        invariant
            i <= n,
            n == labels@.len(),
            tag_views(acc@) == spec_build_tags(views_of_strs(labels@.subrange(0, i as int))),
        decreases n - i,
    {
        let label = labels[i];
        let slug = slugify_str(label);
        let owned = label.to_owned();
        tag_insert(&mut acc, slug, owned);
        proof {
            let pre = views_of_strs(labels@.subrange(0, i as int));
            let cur = views_of_strs(labels@.subrange(0, i + 1));
            assert(cur.drop_last() =~= pre);
            assert(cur.last() == labels@[i as int]@);
            assert(spec_build_tags(cur) == spec_tag_insert(
                spec_build_tags(pre),
                slug_of(labels@[i as int]@),
                labels@[i as int]@,
            ));
        }
        i = i + 1;
    }
    proof {
        assert(labels@.subrange(0, n as int) =~= labels@);
        lemma_build_tags_distinct(views_of_strs(labels@));
    }
    acc
}

// ---------------------------------------------------------------------------
// the record
// ---------------------------------------------------------------------------

/// One expense: immutable once built.  The fields are exposed for
/// specification; records are built through [`TxRecord::from`],
/// [`TxRecord::new`] or parsing, which establish [`TxRecord::wf`].
#[derive(Debug)]
pub struct TxRecord {
    pub name: String,
    pub tags: Vec<(String, String)>,
    pub amount: Decimal,
    pub starts_on: Date,
    pub lifetime: Lifetime,
    pub recorded_at: String,
    pub src: Option<String>,
}

impl TxRecord {
    /// The structural invariant every constructed record satisfies: a
    /// positive amount whose total stays in range, a valid start date, a
    /// lifetime whose span supports exact day arithmetic and keeps the end
    /// date on the calendar, a well-formed timestamp, and distinct tag keys.
    pub open spec fn wf(self) -> bool {
        &&& self.amount.wf()
        &&& self.amount.mant <= MAX_MANT
        &&& !self.amount.neg
        &&& spec_trunc2(self.amount.val12()) > 0
        &&& self.amount.val12() * self.lifetime.spec_repeats() <= MAX_TOTAL12
        &&& self.starts_on.wf()
        &&& self.lifetime.days_ok()
        &&& self.starts_on.dn() + spec_days_since(self.lifetime, self.starts_on) - 1
            <= spec_days_before_year(MAX_YEAR + 1 as int)
        &&& spec_rfc3339_ok(self.recorded_at@)
        &&& !spec_has_dcolon(self.recorded_at@)
        &&& spec_tags_distinct(tag_views(self.tags@))
    }

    pub open spec fn spec_name(self) -> Seq<char> {
        self.name@
    }

    pub open spec fn spec_tags(self) -> Seq<(Seq<char>, Seq<char>)> {
        tag_views(self.tags@)
    }

    pub open spec fn spec_amount(self) -> Decimal {
        self.amount
    }

    pub open spec fn spec_starts_on(self) -> Date {
        self.starts_on
    }

    pub open spec fn spec_lifetime(self) -> Lifetime {
        self.lifetime
    }

    pub open spec fn spec_recorded_at(self) -> Seq<char> {
        self.recorded_at@
    }

    pub open spec fn spec_src(self) -> Option<Seq<char>> {
        match self.src {
            Some(s) => Some(s@),
            None => None,
        }
    }

    /// The duration in days the record spans.
    pub open spec fn spec_duration(self) -> int {
        spec_days_since(self.lifetime, self.starts_on)
    }

    /// The `10^12`-scaled total cost: base amount times repetitions.
    pub open spec fn spec_total12(self) -> int {
        self.amount.val12() * self.lifetime.spec_repeats()
    }

    /// The abstract content of the record: every field at the view level.
    pub open spec fn rec(self) -> RecView {
        RecView {
            name: self.name@,
            tags: tag_views(self.tags@),
            amount: self.amount,
            starts_on: self.starts_on,
            lifetime: self.lifetime,
            recorded_at: self.recorded_at@,
            src: self.spec_src(),
        }
    }
}

/// The abstract content of a record.
pub ghost struct RecView {
    pub name: Seq<char>,
    pub tags: Seq<(Seq<char>, Seq<char>)>,
    pub amount: Decimal,
    pub starts_on: Date,
    pub lifetime: Lifetime,
    pub recorded_at: Seq<char>,
    pub src: Option<Seq<char>>,
}

// ---------------------------------------------------------------------------
// construction
// ---------------------------------------------------------------------------

/// Which check of record construction fails first, if any: the amount must
/// parse and truncate positive, the start date and timestamp must be valid,
/// the lifetime must support exact day arithmetic, the total must stay in
/// range and the end date on the calendar.
pub ghost enum BuildErr {
    BadAmount,
    BadDate,
    BadLifetime,
}

pub open spec fn spec_from_err(
    amount: Seq<char>,
    starts_on: Date,
    lt: Lifetime,
    rec: Seq<char>,
) -> Option<BuildErr> {
    match crate::decimal::spec_parse_amount(amount) {
        None => Some(BuildErr::BadAmount),
        Some(a) => {
            if spec_trunc2(a.val12()) <= 0 {
                Some(BuildErr::BadAmount)
            } else if !starts_on.wf() {
                Some(BuildErr::BadDate)
            } else if !spec_rfc3339_ok(rec) || spec_has_dcolon(rec) {
                Some(BuildErr::BadDate)
            } else if !lt.days_ok() {
                Some(BuildErr::BadLifetime)
            } else if a.val12() * lt.spec_repeats() > MAX_TOTAL12 {
                Some(BuildErr::BadAmount)
            } else if starts_on.dn() + spec_days_since(lt, starts_on) - 1 > spec_days_before_year(
                MAX_YEAR + 1 as int,
            ) {
                Some(BuildErr::BadDate)
            } else {
                None
            }
        },
    }
}

/// The record `r` carries exactly these building blocks.
pub open spec fn spec_record_matches(
    tx: TxRecord,
    name: Seq<char>,
    labels: Seq<Seq<char>>,
    amount: Seq<char>,
    starts_on: Date,
    lt: Lifetime,
    rec: Seq<char>,
    src: Option<Seq<char>>,
) -> bool {
    &&& tx.name@ == spec_trim(name)
    &&& tag_views(tx.tags@) == spec_build_tags(labels)
    &&& Some(tx.amount) == crate::decimal::spec_parse_amount(amount)
    &&& tx.starts_on == starts_on
    &&& tx.lifetime == lt
    &&& tx.recorded_at@ == rec
    &&& tx.spec_src() == src
}

impl TxRecord {
    /// Builds a record from explicit parts: a name (trimmed), tag labels
    /// (keyed by their slugs, later duplicates overwriting), a decimal
    /// amount string that must truncate positive at two decimals, a start
    /// date, a lifetime, an RFC 3339 timestamp and an optional source
    /// string.  Every reason for rejection is named by [`spec_from_err`].
    #[verifier::rlimit(100)]
    #[verifier::spinoff_prover]
    pub fn from(
        name: &str,
        tags: Vec<&str>,
        amount: &str,
        starts_on: Date,
        lifetime: Lifetime,
        recorded_at: &str,
        src: Option<&str>,
    ) -> (r: Result<TxRecord, CostOfLifeError>)
        ensures
            match r {
                Ok(tx) => spec_from_err(amount@, starts_on, lifetime, recorded_at@) is None
                    && tx.wf() && spec_record_matches(
                    tx,
                    name@,
                    views_of_strs(tags@),
                    amount@,
                    starts_on,
                    lifetime,
                    recorded_at@,
                    match src {
                        Some(s) => Some(s@),
                        None => None,
                    },
                ),
                Err(e) => match spec_from_err(amount@, starts_on, lifetime, recorded_at@) {
                    Some(BuildErr::BadAmount) => e is InvalidAmount,
                    Some(BuildErr::BadDate) => e is InvalidDateFormat,
                    Some(BuildErr::BadLifetime) => e is InvalidLifetimeFormat,
                    None => false,
                },
            },
    {
        let a = match crate::decimal::parse_amount(amount) {
            Some(a) => a,
            None => {
                return Err(CostOfLifeError::InvalidAmount("invalid amount".to_owned()));
            },
        };
        let a2 = with_scale_2(&a);
        proof {
            crate::decimal::lemma_trunc2_sign(a.val12());
            if a.neg {
                crate::decimal::lemma_val12_neg(a);
            } else if a2.mant == 0 {
                assert(a2.val12() == 0) by {
                    assert(a2.val12() == 0 * crate::text::spec_pow10((12 - a2.scale) as nat));
                }
            } else {
                assert(!a2.neg);
                crate::decimal::lemma_val12_pos(a2);
            }
        }
        if a.neg || a2.mant == 0 {
            return Err(
                CostOfLifeError::InvalidAmount("amount should be a positive number".to_owned()),
            );
        }
        if !crate::date::is_valid_ymd(starts_on.year, starts_on.month, starts_on.day) {
            return Err(CostOfLifeError::InvalidDateFormat("invalid start date".to_owned()));
        }
        let rv = chars_of(recorded_at);
        let has_sep = match crate::text::find_dcolon(&rv, 0) {
            Some(_) => true,
            None => false,
        };
        proof {
            assert(rv@.skip(0) =~= rv@);
        }
        if !rfc3339_check(recorded_at) || has_sep {
            return Err(CostOfLifeError::InvalidDateFormat("invalid timestamp".to_owned()));
        }
        if !lifetime.days_ok_check() {
            return Err(
                CostOfLifeError::InvalidLifetimeFormat("lifetime out of range".to_owned()),
            );
        }
        let reps = lifetime.get_repeats();
        let t12 = match total12_checked(&a, reps as u64) {
            Some(t) => t,
            None => {
                return Err(CostOfLifeError::InvalidAmount("amount out of range".to_owned()));
            },
        };
        if t12 > MAX_TOTAL12 {
            return Err(CostOfLifeError::InvalidAmount("amount out of range".to_owned()));
        }
        let duration = lifetime.get_days_since(&starts_on);
        match add_days(&starts_on, duration - 1) {
            Some(_) => {},
            None => {
                return Err(
                    CostOfLifeError::InvalidDateFormat("end date out of range".to_owned()),
                );
            },
        }
        let nv = chars_of(name);
        let nt = trim_chars(&nv);
        let name_t = string_of(&nt);
        let tgs = build_tags(&tags);
        let rec = recorded_at.to_owned();
        let sv: Option<String> = match src {
            Some(s) => Some(s.to_owned()),
            None => None,
        };
        Ok(
            TxRecord {
                name: name_t,
                tags: tgs,
                amount: a,
                starts_on,
                lifetime,
                recorded_at: rec,
                src: sv,
            },
        )
    }

    /// A record for today, recorded now, with no tags and a single-day
    /// lifetime.  Succeeds exactly when the amount parses and truncates
    /// positive (and the clock yields a readable timestamp).
    pub fn new(name: &str, amount: &str) -> (r: Result<TxRecord, CostOfLifeError>)
        ensures
            match r {
                Ok(tx) => tx.wf() && tx.name@ == spec_trim(name@) && Some(tx.amount)
                    == crate::decimal::spec_parse_amount(amount@) && tx.lifetime is SingleDay
                    && tag_views(tx.tags@) =~= Seq::<(Seq<char>, Seq<char>)>::empty()
                    && tx.src is None,
                Err(e) => e is InvalidAmount || e is InvalidDateFormat,
            },
            (match crate::decimal::spec_parse_amount(amount@) {
                None => true,
                Some(a) => spec_trunc2(a.val12()) <= 0,
            }) ==> (r is Err && r->Err_0 is InvalidAmount),
    {
        let today_d = crate::date::today();
        let now_s = now_local();
        let r = TxRecord::from(name, Vec::new(), amount, today_d, Lifetime::SingleDay, now_s.as_str(), None);
        proof {
            let labels = views_of_strs(Seq::<&str>::empty());
            assert(labels =~= Seq::<Seq<char>>::empty());
        }
        r
    }
}

/// `amount.val12() * reps` as a machine integer; `None` when it cannot be
/// represented (in which case it certainly exceeds [`MAX_TOTAL12`]).
fn total12_checked(a: &Decimal, reps: u64) -> (r: Option<u128>)
    requires
        a.wf(),
        !a.neg,
        reps >= 1,
    ensures
        match r {
            Some(t) => t == a.val12() * reps,
            None => a.val12() * reps > MAX_TOTAL12,
        },
{
    proof {
        crate::decimal::lemma_pow10_pos((12 - a.scale) as nat);
    }
    proof {
        crate::decimal::lemma_val12_times(*a, reps as int);
    }
    let mt = match a.mant.checked_mul(reps as u128) {
        Some(m) => m,
        None => {
            proof {
                let p = crate::text::spec_pow10((12 - a.scale) as nat);
                assert((a.mant * reps) * p > MAX_TOTAL12) by (nonlinear_arith)
                    requires
                        a.mant * reps > u128::MAX,
                        p >= 1,
                        u128::MAX >= MAX_TOTAL12,
                ;
            }
            return None;
        },
    };
    let f = pow10_small(12 - a.scale);
    match mt.checked_mul(f) {
        Some(t) => Some(t),
        None => None,
    }
}

// ---------------------------------------------------------------------------
// getters and derived values
// ---------------------------------------------------------------------------

impl TxRecord {
    /// The (trimmed) name.
    pub fn get_name(&self) -> (r: &str)
        ensures
            r@ == self.name@,
    {
        self.name.as_str()
    }

    /// The record's display text: its name.
    pub fn to_text(&self) -> (r: String)
        ensures
            r@ == self.name@,
    {
        self.name.clone()
    }

    /// The base amount, truncated to the two-decimal display scale.
    pub fn get_amount(&self) -> (r: Decimal)
        requires
            self.amount.wf(),
        ensures
            r.wf(),
            r.scale <= 2,
            r.val12() == spec_trunc2(self.amount.val12()),
            r.mant <= self.amount.mant,
            r.neg ==> self.amount.neg,
    {
        with_scale_2(&self.amount)
    }

    /// The recurrence pattern.
    pub fn get_lifetime(&self) -> (r: &Lifetime)
        ensures
            r == self.lifetime,
    {
        &self.lifetime
    }

    /// The first active day.
    pub fn get_starts_on(&self) -> (r: Date)
        ensures
            r == self.starts_on,
    {
        self.starts_on
    }

    /// The timestamp at which the record was created.
    pub fn get_recorded_at(&self) -> (r: &String)
        ensures
            r@ == self.recorded_at@,
    {
        &self.recorded_at
    }

    /// The creation timestamp as RFC 3339 text.
    pub fn get_recorded_at_rfc3339(&self) -> (r: String)
        ensures
            r@ == self.recorded_at@,
    {
        self.recorded_at.clone()
    }

    /// True when the lifetime repeats, so the base amount is per period
    /// rather than the total.
    pub fn amount_is_total(&self) -> (r: bool)
        ensures
            r == (self.lifetime.spec_repeats() > 1),
    {
        self.lifetime.get_repeats() > 1
    }

    /// Whether a tag with the slug of `tag` is present.
    pub fn has_tag(&self, tag: &str) -> (r: bool)
        ensures
            r == exists|i: int|
                0 <= i < self.spec_tags().len() && (#[trigger] self.spec_tags()[i]).0 == slug_of(
                    tag@,
                ),
    {
        let sl = slugify_str(tag);
        let n = self.tags.len();
        let mut i: usize = 0;
        while i < n
            invariant
                i <= n,
                n == self.tags@.len(),
                sl@ == slug_of(tag@),
                forall|k: int| 0 <= k < i ==> (#[trigger] self.spec_tags()[k]).0 != slug_of(tag@),
            decreases n - i,
        {
            if self.tags[i].0.eq(&sl) {
                proof {
                    assert(self.spec_tags()[i as int].0 == slug_of(tag@));
                }
                return true;
            }
            proof {
                assert(self.spec_tags()[i as int].0 == self.tags@[i as int].0@);
            }
            i = i + 1;
        }
        false
    }

    /// The total cost: base amount times repetitions.
    pub fn get_amount_total(&self) -> (r: Decimal)
        requires
            self.wf(),
        ensures
            r.wf(),
            !r.neg,
            r.val12() == self.spec_total12(),
    {
        let reps = self.lifetime.get_repeats();
        let r = match mul_u64(&self.amount, reps as u64) {
            Some(t) => t,
            None => {
                proof {
                    crate::decimal::lemma_val12_times(self.amount, reps as int);
                    assert(false);
                }
                crate::decimal::Decimal::zero()
            },
        };
        proof {
            crate::decimal::lemma_val12_times(self.amount, self.lifetime.spec_repeats());
            if r.neg && r.mant > 0 {
                crate::decimal::lemma_val12_neg(r);
                assert(false);
            }
        }
        r
    }

    /// The number of days the record spans.
    pub fn get_duration_days(&self) -> (r: i64)
        requires
            self.wf(),
        ensures
            r == self.spec_duration(),
            1 <= r,
    {
        self.lifetime.get_days_since(&self.starts_on)
    }

    /// The `10^12`-scaled total, as a machine word.
    pub fn total12(&self) -> (r: u128)
        requires
            self.wf(),
        ensures
            r == self.spec_total12(),
            r <= MAX_TOTAL12,
    {
        let reps = self.lifetime.get_repeats();
        match total12_checked(&self.amount, reps as u64) {
            Some(t) => t,
            None => {
                proof {
                    assert(false);
                }
                0
            },
        }
    }

    /// The amortised daily cost before display rounding: the total divided
    /// by the duration, kept to twelve fractional digits.
    pub fn per_diem_raw(&self) -> (r: Decimal)
        requires
            self.wf(),
        ensures
            r.wf(),
            !r.neg,
            r.val12() == self.spec_total12() / self.spec_duration(),
    {
        let t12 = self.total12();
        let dur = self.get_duration_days();
        let q = t12 / (dur as u128);
        let r = norm(false, q, 12);
        proof {
            assert(crate::text::spec_pow10(0) == 1);
            assert(r.val12() == q * 1);
        }
        r
    }

    /// The amortised daily cost, truncated to two decimals.
    pub fn per_diem(&self) -> (r: Decimal)
        requires
            self.wf(),
        ensures
            r.wf(),
            !r.neg,
            r.scale <= 2,
            r.val12() == spec_trunc2(self.spec_total12() / self.spec_duration()),
    {
        let raw = self.per_diem_raw();
        let r = with_scale_2(&raw);
        proof {
            if r.neg {
                assert(false);
            }
        }
        r
    }

    /// The last active day: the start plus the duration, the end day
    /// included.
    pub fn get_ends_on(&self) -> (r: Date)
        requires
            self.wf(),
        ensures
            r.wf(),
            r.dn() == self.starts_on.dn() + self.spec_duration() - 1,
    {
        let dur = self.get_duration_days();
        match add_days(&self.starts_on, dur - 1) {
            Some(d) => d,
            None => {
                proof {
                    assert(false);
                }
                self.starts_on
            },
        }
    }

    /// Whether `target` falls between the start and end days, inclusive.
    pub fn is_active_on(&self, target: &Date) -> (r: bool)
        requires
            self.wf(),
            target.wf(),
    ensures
            r == (self.starts_on.dn() <= target.dn() <= self.starts_on.dn()
                + self.spec_duration() - 1),
    {
        let e = self.get_ends_on();
        date_le(&self.starts_on, target) && date_le(target, &e)
    }

    /// Elapsed and total days of the record's life at `d`, clamped: zero
    /// before the start, all of it at or after the end.  The ratio of the
    /// two is the progress.
    pub fn get_progress_on(&self, d: &Date) -> (r: (u64, u64))
        requires
            self.wf(),
            d.wf(),
        ensures
            ({
                let (num, den) = r;
                let start = self.starts_on.dn();
                let end = start + self.spec_duration() - 1;
                &&& 1 <= den
                &&& num <= den
                &&& num == spec_progress_pair(*self, *d).0
                &&& den == spec_progress_pair(*self, *d).1
                &&& (d.dn() <= start ==> num == 0 && den == 1)
                &&& (d.dn() > start && d.dn() >= end ==> num == 1 && den == 1)
                &&& (start < d.dn() < end ==> num == d.dn() - start && den == end - start)
            }),
    {
        let sdn = day_number(&self.starts_on);
        let dur = self.get_duration_days();
        let edn = sdn + dur - 1;
        let ddn = day_number(d);
        if ddn <= sdn {
            (0, 1)
        } else if ddn >= edn {
            (1, 1)
        } else {
            ((ddn - sdn) as u64, (edn - sdn) as u64)
        }
    }

    /// [`TxRecord::get_progress_on`], defaulting to today.
    pub fn get_progress(&self, d: Option<Date>) -> (r: (u64, u64))
        requires
            self.wf(),
            match d {
                Some(dd) => dd.wf(),
                None => true,
            },
        ensures
            ({
                let (num, den) = r;
                &&& 1 <= den
                &&& num <= den
            }),
            match d {
                Some(dd) => ({
                    let (num, den) = r;
                    let start = self.starts_on.dn();
                    let end = start + self.spec_duration() - 1;
                    &&& (dd.dn() <= start ==> num == 0 && den == 1)
                    &&& (dd.dn() > start && dd.dn() >= end ==> num == 1 && den == 1)
                    &&& (start < dd.dn() < end ==> num == dd.dn() - start && den == end - start)
                }),
                None => true,
            },
    {
        match d {
            Some(dd) => self.get_progress_on(&dd),
            None => {
                let t = crate::date::today();
                self.get_progress_on(&t)
            },
        }
    }
}


// ---------------------------------------------------------------------------
// token classifiers
// ---------------------------------------------------------------------------

/// The leftmost amount match in a token: a digit run, optionally followed
/// by a dot and exactly two digits, immediately followed by a currency
/// symbol.  The span excludes the symbol.
pub open spec fn spec_amount_capture(t: Seq<char>, i: int) -> Option<(int, int)>
    decreases t.len() - i,
    via spec_amount_capture_decreases
{
    if i < 0 || i >= t.len() {
        None
    } else if crate::text::spec_is_digit(t[i]) {
        let e = crate::text::spec_run_end(t, i);
        if e + 3 < t.len() && t[e] == '.' && crate::text::spec_is_digit(t[e + 1])
            && crate::text::spec_is_digit(t[e + 2]) && crate::text::spec_is_currency(t[e + 3]) {
            Some((i, e + 3))
        } else if e < t.len() && crate::text::spec_is_currency(t[e]) {
            Some((i, e))
        } else {
            spec_amount_capture(t, e)
        }
    } else {
        spec_amount_capture(t, i + 1)
    }
}

#[via_fn]
proof fn spec_amount_capture_decreases(t: Seq<char>, i: int) {
    if 0 <= i < t.len() && crate::text::spec_is_digit(t[i]) {
        crate::text::lemma_run_end(t, i + 1);
        assert(crate::text::spec_run_end(t, i) == crate::text::spec_run_end(t, i + 1));
    }
}

/// Executable counterpart of [`spec_amount_capture`] from position zero.
fn amount_capture(t: &Vec<char>) -> (r: Option<(usize, usize)>)
    ensures
        match r {
            Some((a, b)) => spec_amount_capture(t@, 0) == Some((a as int, b as int)) && a < b
                <= t@.len(),
            None => spec_amount_capture(t@, 0) is None,
        },
{
    let n = t.len();
    let mut i: usize = 0;
    loop
        invariant
            i <= n,
            n == t@.len(),
            spec_amount_capture(t@, 0) == spec_amount_capture(t@, i as int),
        decreases n - i,
    {
        if i == n {
            return None;
        }
        if crate::text::is_digit(t[i]) {
            let e = crate::text::run_end(t, i);
            proof {
                crate::text::lemma_run_end(t@, i as int);
                crate::text::lemma_run_end(t@, i + 1);
                assert(crate::text::spec_run_end(t@, i as int) == crate::text::spec_run_end(
                    t@,
                    i + 1,
                ));
            }
            if n - e > 3 && t[e] == '.' && crate::text::is_digit(t[e + 1]) && crate::text::is_digit(
                t[e + 2],
            ) && crate::text::is_currency(t[e + 3]) {
                return Some((i, e + 3));
            }
            if e < n && crate::text::is_currency(t[e]) {
                return Some((i, e));
            }
            i = e;
        } else {
            i = i + 1;
        }
    }
}

/// A tag token: `#` or `.`, a letter, then letters, digits, `_` or `-` to
/// the end; the captured text excludes the lead character.
pub open spec fn spec_hashtag_capture(t: Seq<char>) -> Option<Seq<char>> {
    if t.len() >= 2 && (t[0] == '#' || t[0] == '.') && crate::text::spec_is_alpha(t[1]) && (forall|
        j: int,
    | 2 <= j < t.len() ==> crate::text::spec_is_tag_char(#[trigger] t[j])) {
        Some(t.subrange(1, t.len() as int))
    } else {
        None
    }
}

fn hashtag_capture(t: &Vec<char>) -> (r: Option<Vec<char>>)
    ensures
        match r {
            Some(c) => spec_hashtag_capture(t@) == Some(c@),
            None => spec_hashtag_capture(t@) is None,
        },
{
    let n = t.len();
    if n < 2 || !(t[0] == '#' || t[0] == '.') || !crate::text::is_alpha(t[1]) {
        return None;
    }
    let mut j: usize = 2;
    while j < n
        invariant
            2 <= j <= n,
            n == t@.len(),
            forall|k: int| 2 <= k < j ==> crate::text::spec_is_tag_char(#[trigger] t@[k]),
        decreases n - j,
    {
        if !crate::text::is_tag_char(t[j]) {
            return None;
        }
        j = j + 1;
    }
    Some(crate::decimal::sub_chars(t, 1, n))
}

/// The leftmost six-character window shaped like a `ddmmyy` date: day tens
/// `0..=3`, month tens `0..=1`, year lead `1..=9`.
pub open spec fn spec_date_window(t: Seq<char>, i: int) -> Option<int>
    decreases t.len() - i,
{
    if i < 0 || i + 6 > t.len() {
        None
    } else if '0' <= t[i] && t[i] <= '3' && crate::text::spec_is_digit(t[i + 1]) && '0' <= t[i + 2]
        && t[i + 2] <= '1' && crate::text::spec_is_digit(t[i + 3]) && '1' <= t[i + 4] && t[i + 4]
        <= '9' && crate::text::spec_is_digit(t[i + 5]) {
        Some(i)
    } else {
        spec_date_window(t, i + 1)
    }
}

fn date_window(t: &Vec<char>) -> (r: Option<usize>)
    ensures
        match r {
            Some(i) => spec_date_window(t@, 0) == Some(i as int) && i + 6 <= t@.len(),
            None => spec_date_window(t@, 0) is None,
        },
{
    let n = t.len();
    let mut i: usize = 0;
    loop
        invariant
            i <= n,
            n == t@.len(),
            spec_date_window(t@, 0) == spec_date_window(t@, i as int),
        decreases n - i,
    {
        if n - i < 6 {
            return None;
        }
        if '0' <= t[i] && t[i] <= '3' && crate::text::is_digit(t[i + 1]) && '0' <= t[i + 2] && t[i
            + 2] <= '1' && crate::text::is_digit(t[i + 3]) && '1' <= t[i + 4] && t[i + 4] <= '9'
            && crate::text::is_digit(t[i + 5]) {
            return Some(i);
        }
        i = i + 1;
    }
}

// ---------------------------------------------------------------------------
// the token scan
// ---------------------------------------------------------------------------

/// The fields a token scan accumulates.
pub ghost struct Fields {
    pub amount: Seq<char>,
    pub tags: Seq<Seq<char>>,
    pub lifetime: Lifetime,
    pub date: Option<Date>,
    pub name_parts: Seq<Seq<char>>,
}

/// Why a token scan fails: an out-of-range recurrence, or a date token
/// that names no real day.
pub ghost enum ScanErr {
    BadLifetime,
    BadDate,
}

pub ghost enum ScanRes {
    Good(Fields),
    Bad(ScanErr),
}

/// The scan starts from an amount of `"0"`, no tags, a single-day
/// lifetime, no date and an empty name.
pub open spec fn spec_scan_init() -> Fields {
    Fields {
        amount: seq!['0'],
        tags: seq![],
        lifetime: Lifetime::SingleDay,
        date: None,
        name_parts: seq![],
    }
}

/// Classifies one token, first match deciding: amount, tag, recurrence,
/// date, else part of the name.  A later amount, recurrence or date
/// replaces an earlier one; tags accumulate.
#[verifier::opaque]
pub open spec fn spec_scan_step(f: Fields, t: Seq<char>) -> ScanRes {
    if spec_amount_capture(t, 0) is Some {
        let (a, b) = spec_amount_capture(t, 0).unwrap();
        ScanRes::Good(Fields { amount: t.subrange(a, b), ..f })
    } else if spec_hashtag_capture(t) is Some {
        ScanRes::Good(Fields { tags: f.tags.push(spec_hashtag_capture(t).unwrap()), ..f })
    } else if crate::lifetime::spec_lt_find(t, 0) is Some {
        match crate::lifetime::spec_lifetime_parse(t) {
            Some(lt) => ScanRes::Good(Fields { lifetime: lt, ..f }),
            None => ScanRes::Bad(ScanErr::BadLifetime),
        }
    } else if spec_date_window(t, 0) is Some {
        let i = spec_date_window(t, 0).unwrap();
        match crate::date::spec_date_from_str(t.subrange(i, i + 6)) {
            Some(d) => ScanRes::Good(Fields { date: Some(d), ..f }),
            None => ScanRes::Bad(ScanErr::BadDate),
        }
    } else {
        ScanRes::Good(Fields { name_parts: f.name_parts.push(t), ..f })
    }
}

/// Scans the tokens left to right; the first failure wins.
#[verifier::opaque]
pub open spec fn spec_scan(ts: Seq<Seq<char>>) -> ScanRes
    decreases ts.len(),
{
    if ts.len() == 0 {
        ScanRes::Good(spec_scan_init())
    } else {
        match spec_scan(ts.drop_last()) {
            ScanRes::Bad(e) => ScanRes::Bad(e),
            ScanRes::Good(f) => spec_scan_step(f, ts.last()),
        }
    }
}

/// Name tokens joined by single spaces.
pub open spec fn spec_join_sp(ps: Seq<Seq<char>>) -> Seq<char>
    decreases ps.len(),
{
    if ps.len() == 0 {
        Seq::empty()
    } else if ps.len() == 1 {
        ps[0]
    } else {
        spec_join_sp(ps.drop_last()) + seq![' '] + ps.last()
    }
}

/// The executable scan state.
struct Scanned {
    amount: Vec<char>,
    tags: Vec<String>,
    lifetime: Lifetime,
    date: Option<Date>,
    name: Vec<char>,
    nparts: usize,
    gparts: Ghost<Seq<Seq<char>>>,
}

/// The views of owned label strings.
pub open spec fn views_of_strings(ts: Seq<String>) -> Seq<Seq<char>> {
    ts.map_values(|t: String| t@)
}

impl Scanned {
    spec fn inv(self) -> bool {
        &&& self.name@ == spec_join_sp(self.gparts@)
        &&& self.nparts == self.gparts@.len()
        &&& self.lifetime.wf()
        &&& (self.date is Some ==> self.date.unwrap().wf())
    }

    spec fn as_fields(self) -> Fields {
        Fields {
            amount: self.amount@,
            tags: views_of_strings(self.tags@),
            lifetime: self.lifetime,
            date: self.date,
            name_parts: self.gparts@,
        }
    }
}

/// Applies one token to the scan state.
#[verifier::rlimit(100)]
#[verifier::spinoff_prover]
fn scan_step_exec(st: &mut Scanned, t: &Vec<char>) -> (r: Option<CostOfLifeError>)
    requires
        old(st).inv(),
        old(st).gparts@.len() < usize::MAX,
    ensures
        match r {
            None => final (st).inv() && spec_scan_step(old(st).as_fields(), t@) == ScanRes::Good(
                final (st).as_fields(),
            ) && final (st).gparts@.len() <= old(st).gparts@.len() + 1,
            Some(e) => match spec_scan_step(old(st).as_fields(), t@) {
                ScanRes::Bad(ScanErr::BadLifetime) => e is InvalidLifetimeFormat,
                ScanRes::Bad(ScanErr::BadDate) => e is InvalidDateFormat,
                ScanRes::Good(_) => false,
            },
        },
{
    proof {
        reveal(spec_scan_step);
    }
    let ghost fpre = old(st).as_fields();
    match amount_capture(t) {
        Some((a, b)) => {
            st.amount = crate::decimal::sub_chars(t, a, b);
            proof {
                assert(st.as_fields() =~~= (Fields {
                    amount: t@.subrange(a as int, b as int),
                    ..fpre
                }));
            }
            return None;
        },
        None => {},
    }
    match hashtag_capture(t) {
        Some(c) => {
            let cs = string_of(&c);
            st.tags.push(cs);
            proof {
                assert(views_of_strings(st.tags@) =~= fpre.tags.push(c@));
                assert(st.as_fields() =~~= (Fields { tags: fpre.tags.push(c@), ..fpre }));
            }
            return None;
        },
        None => {},
    }
    if crate::lifetime::has_lt_token(t) {
        match Lifetime::parse_chars(t) {
            Ok(lt) => {
                st.lifetime = lt;
                proof {
                    assert(st.as_fields() =~~= (Fields { lifetime: lt, ..fpre }));
                }
                return None;
            },
            Err(e) => {
                return Some(e);
            },
        }
    }
    let tlen = t.len();
    match date_window(t) {
        Some(w) => {
            let d6 = crate::decimal::sub_chars(t, w, w + 6);
            match crate::date::date_from_chars(&d6) {
                Some(d) => {
                    st.date = Some(d);
                    proof {
                        assert(st.as_fields() =~~= (Fields { date: Some(d), ..fpre }));
                    }
                    return None;
                },
                None => {
                    return Some(
                        CostOfLifeError::InvalidDateFormat("invalid date token".to_owned()),
                    );
                },
            }
        },
        None => {},
    }
    if st.nparts == 0 {
        crate::date::push_chars_vec(&mut st.name, t);
    } else {
        st.name.push(' ');
        crate::date::push_chars_vec(&mut st.name, t);
    }
    st.nparts = st.nparts + 1;
    proof {
        let gp = st.gparts@.push(t@);
        st.gparts@ = gp;
        assert(gp.drop_last() =~= fpre.name_parts);
        assert(gp.last() == t@);
        assert(st.name@ =~= spec_join_sp(gp));
        assert(st.as_fields() =~~= (Fields { name_parts: gp, ..fpre }));
    }
    None
}

/// Scans all tokens of `v` and joins the name parts.
#[verifier::rlimit(100)]
#[verifier::spinoff_prover]
fn scan_tokens(v: &Vec<char>) -> (r: Result<Scanned, CostOfLifeError>)
    ensures
        match r {
            Ok(sc) => ({
                &&& spec_scan(crate::text::spec_tokens(v@)) is Good
                &&& ({
                    let f = spec_scan(crate::text::spec_tokens(v@))->Good_0;
                    &&& sc.amount@ == f.amount
                    &&& views_of_strings(sc.tags@) == f.tags
                    &&& sc.lifetime == f.lifetime
                    &&& sc.date == f.date
                    &&& sc.name@ == spec_join_sp(f.name_parts)
                    &&& sc.lifetime.wf()
                    &&& (sc.date is Some ==> sc.date.unwrap().wf())
                })
            }),
            Err(e) => match spec_scan(crate::text::spec_tokens(v@)) {
                ScanRes::Bad(ScanErr::BadLifetime) => e is InvalidLifetimeFormat,
                ScanRes::Bad(ScanErr::BadDate) => e is InvalidDateFormat,
                ScanRes::Good(_) => false,
            },
        },
{
    let toks = crate::text::split_ws(v);
    let n = toks.len();
    let ghost gtoks = crate::text::spec_tokens(v@);
    let mut st = Scanned {
        amount: Vec::new(),
        tags: Vec::new(),
        lifetime: Lifetime::SingleDay,
        date: None,
        name: Vec::new(),
        nparts: 0,
        gparts: Ghost(Seq::empty()),
    };
    st.amount.push('0');
    proof {
        reveal(spec_scan);
        assert(st.amount@ =~= seq!['0']);
        assert(views_of_strings(st.tags@) =~= Seq::<Seq<char>>::empty());
        assert(gtoks.subrange(0, 0) =~= Seq::<Seq<char>>::empty());
        assert(st.as_fields() =~~= spec_scan_init());
    }
    let mut i: usize = 0;
    while i < n
        invariant
            i <= n,
            n == toks@.len(),
            n <= usize::MAX,
            crate::text::views_of(toks@) == gtoks,
            gtoks == crate::text::spec_tokens(v@),
            st.inv(),
            st.gparts@.len() <= i,
            spec_scan(gtoks.subrange(0, i as int)) == ScanRes::Good(st.as_fields()),
        decreases n - i,
    {
        let t = &toks[i];
        let ghost fpre = st.as_fields();
        proof {
            assert(gtoks.len() == toks@.len());
            assert(crate::text::views_of(toks@)[i as int] == toks@[i as int]@);
            assert(t@ == gtoks[i as int]);
            lemma_scan_extend(gtoks, i as int, fpre);
        }
        match scan_step_exec(&mut st, t) {
            None => {},
            Some(e) => {
                proof {
                    assert(spec_scan(gtoks.subrange(0, i + 1)) == spec_scan_step(fpre, t@));
                    assert(spec_scan_step(fpre, t@) is Bad);
                    lemma_scan_bad_sticks(gtoks, i as int);
                    assert(spec_scan(gtoks) == spec_scan_step(fpre, t@));
                    assert(gtoks == crate::text::spec_tokens(v@));
                    assert(match spec_scan(crate::text::spec_tokens(v@)) {
                        ScanRes::Bad(ScanErr::BadLifetime) => e is InvalidLifetimeFormat,
                        ScanRes::Bad(ScanErr::BadDate) => e is InvalidDateFormat,
                        ScanRes::Good(_) => false,
                    });
                }
                return Err(e);
            },
        }
        i = i + 1;
    }
    proof {
        assert(gtoks.subrange(0, n as int) =~= gtoks);
    }
    Ok(st)
}

/// Extending a good scan by one token applies one step.
proof fn lemma_scan_extend(ts: Seq<Seq<char>>, i: int, fpre: Fields)
    requires
        0 <= i < ts.len(),
        spec_scan(ts.subrange(0, i)) == ScanRes::Good(fpre),
    ensures
        spec_scan(ts.subrange(0, i + 1)) == spec_scan_step(fpre, ts[i]),
{
    reveal(spec_scan);
    assert(ts.subrange(0, i + 1).drop_last() =~= ts.subrange(0, i));
    assert(ts.subrange(0, i + 1).last() == ts[i]);
}

/// Once a prefix of the scan fails, the whole scan fails the same way.
proof fn lemma_scan_bad_sticks(ts: Seq<Seq<char>>, i: int)
    requires
        0 <= i < ts.len(),
        spec_scan(ts.subrange(0, i + 1)) is Bad,
    ensures
        spec_scan(ts) == spec_scan(ts.subrange(0, i + 1)),
    decreases ts.len() - i,
{
    reveal(spec_scan);
    if i + 1 == ts.len() {
        assert(ts.subrange(0, i + 1) =~= ts);
    } else {
        assert(ts.subrange(0, ts.len() - 1).subrange(0, i + 1) =~= ts.subrange(0, i + 1));
        lemma_scan_bad_sticks(ts.subrange(0, ts.len() - 1), i);
        assert(ts.drop_last() =~= ts.subrange(0, ts.len() - 1));
    }
}

// ---------------------------------------------------------------------------
// parsing
// ---------------------------------------------------------------------------

/// The record a successful parse of `s` yields, relative to the scanned
/// fields: the name is the joined name tokens, tags and amount and
/// lifetime come from the scan, the start date is the scanned date token
/// when present, and the source text is kept verbatim.
pub open spec fn spec_parsed_ok(s: Seq<char>, tx: TxRecord) -> bool {
    match spec_scan(crate::text::spec_tokens(s)) {
        ScanRes::Good(f) => {
            &&& tx.name@ == spec_join_sp(f.name_parts)
            &&& tag_views(tx.tags@) == spec_build_tags(f.tags)
            &&& Some(tx.amount) == crate::decimal::spec_parse_amount(f.amount)
            &&& tx.lifetime == f.lifetime
            &&& (f.date is Some ==> tx.starts_on == f.date.unwrap())
            &&& tx.spec_src() == Some(s)
        },
        ScanRes::Bad(_) => false,
    }
}

impl TxRecord {
    /// Parses a free-text expense line against an explicit clock: `today`
    /// supplies the start date where no date token occurs, `now` the
    /// recording timestamp.
    pub fn parse_with_clock(s: &str, today_d: &Date, now: &str) -> (r: Result<
        TxRecord,
        CostOfLifeError,
    >)
        requires
            today_d.wf(),
        ensures
            match spec_scan(crate::text::spec_tokens(s@)) {
                ScanRes::Bad(ScanErr::BadLifetime) => r is Err && r->Err_0
                    is InvalidLifetimeFormat,
                ScanRes::Bad(ScanErr::BadDate) => r is Err && r->Err_0 is InvalidDateFormat,
                ScanRes::Good(f) => ({
                    let starts = if f.date is Some {
                        f.date.unwrap()
                    } else {
                        *today_d
                    };
                    match r {
                        Ok(tx) => spec_from_err(f.amount, starts, f.lifetime, now@) is None
                            && tx.wf() && spec_record_matches(
                            tx,
                            spec_join_sp(f.name_parts),
                            f.tags,
                            f.amount,
                            starts,
                            f.lifetime,
                            now@,
                            Some(s@),
                        ),
                        Err(e) => match spec_from_err(f.amount, starts, f.lifetime, now@) {
                            Some(BuildErr::BadAmount) => e is InvalidAmount,
                            Some(BuildErr::BadDate) => e is InvalidDateFormat,
                            Some(BuildErr::BadLifetime) => e is InvalidLifetimeFormat,
                            None => false,
                        },
                    }
                }),
            },
    {
        let v = chars_of(s);
        let sc = match scan_tokens(&v) {
            Ok(sc) => sc,
            Err(e) => {
                return Err(e);
            },
        };
        let starts = match sc.date {
            Some(d) => d,
            None => *today_d,
        };
        let name_s = string_of(&sc.name);
        let mut labels: Vec<&str> = Vec::new();
        let tn = sc.tags.len();
        let mut k: usize = 0;
        while k < tn
            invariant
                k <= tn,
                tn == sc.tags@.len(),
                labels@.len() == k,
                forall|j: int| 0 <= j < k ==> (#[trigger] labels@[j])@ == sc.tags@[j]@,
            decreases tn - k,
        {
            labels.push(sc.tags[k].as_str());
            k = k + 1;
        }
        proof {
            assert(views_of_strs(labels@) =~= views_of_strings(sc.tags@));
        }
        let amount_s = string_of(&sc.amount);
        let r = TxRecord::from(
            name_s.as_str(),
            labels,
            amount_s.as_str(),
            starts,
            sc.lifetime,
            now,
            Some(s),
        );
        proof {
            lemma_scan_join_trim(s@);
        }
        r
    }

    /// Parses a free-text expense line: whitespace-separated tokens, each
    /// classified as amount (`1729€`), tag (`#rent`), recurrence
    /// (`1m12x`), date (`010118`) or part of the name, with today and now
    /// filling the missing date and the timestamp.
    pub fn parse(s: &str) -> (r: Result<TxRecord, CostOfLifeError>)
        ensures
            r is Ok ==> r.unwrap().wf() && spec_parsed_ok(s@, r.unwrap()),
            (spec_scan(crate::text::spec_tokens(s@)) matches ScanRes::Bad(ScanErr::BadLifetime))
                ==> r is Err && r->Err_0 is InvalidLifetimeFormat,
            (spec_scan(crate::text::spec_tokens(s@)) matches ScanRes::Bad(ScanErr::BadDate)) ==> r
                is Err && r->Err_0 is InvalidDateFormat,
            (match spec_scan(crate::text::spec_tokens(s@)) {
                ScanRes::Good(f) => match crate::decimal::spec_parse_amount(f.amount) {
                    None => true,
                    Some(a) => spec_trunc2(a.val12()) <= 0,
                },
                ScanRes::Bad(_) => false,
            }) ==> r is Err && r->Err_0 is InvalidAmount,
    {
        let today_d = crate::date::today();
        let now_s = now_local();
        let r = TxRecord::parse_with_clock(s, &today_d, now_s.as_str());
        proof {
            lemma_scan_join_trim(s@);
        }
        r
    }
}

/// The name parts a scan accumulates are tokens: non-empty and free of
/// whitespace when the token list is.
proof fn lemma_scan_parts_wf(ts: Seq<Seq<char>>)
    requires
        forall|i: int| 0 <= i < ts.len() ==> (#[trigger] ts[i]).len() > 0,
        forall|i: int, j: int|
            0 <= i < ts.len() && 0 <= j < ts[i].len() ==> !crate::text::spec_is_ws(
                #[trigger] ts[i][j],
            ),
    ensures
        match spec_scan(ts) {
            ScanRes::Good(f) => (forall|i: int|
                0 <= i < f.name_parts.len() ==> (#[trigger] f.name_parts[i]).len() > 0) && (forall|
                i: int,
                j: int,
            |
                0 <= i < f.name_parts.len() && 0 <= j < f.name_parts[i].len()
                    ==> !crate::text::spec_is_ws(#[trigger] f.name_parts[i][j])),
            ScanRes::Bad(_) => true,
        },
    decreases ts.len(),
{
    reveal(spec_scan);
    reveal(spec_scan_step);
    if ts.len() > 0 {
        let pre = ts.drop_last();
        assert forall|i: int| 0 <= i < pre.len() implies (#[trigger] pre[i]).len() > 0 by {
            assert(pre[i] == ts[i]);
        }
        assert forall|i: int, j: int|
            0 <= i < pre.len() && 0 <= j < pre[i].len() implies !crate::text::spec_is_ws(
            #[trigger] pre[i][j],
        ) by {
            assert(pre[i] == ts[i]);
        }
        lemma_scan_parts_wf(pre);
        match spec_scan(pre) {
            ScanRes::Bad(_) => {},
            ScanRes::Good(f0) => {
                match spec_scan(ts) {
                    ScanRes::Bad(_) => {},
                    ScanRes::Good(f) => {
                        assert(ts.last().len() > 0);
                        assert forall|j: int| 0 <= j < ts.last().len() implies !crate::text::spec_is_ws(
                            #[trigger] ts.last()[j],
                        ) by {
                            assert(ts.last() == ts[ts.len() - 1]);
                        }
                        if f.name_parts != f0.name_parts {
                            assert(f.name_parts == f0.name_parts.push(ts.last()));
                        }
                        assert forall|i: int|
                            0 <= i < f.name_parts.len() implies (#[trigger] f.name_parts[i]).len()
                            > 0 by {
                            if i < f0.name_parts.len() {
                                assert(f.name_parts[i] == f0.name_parts[i]);
                            }
                        }
                        assert forall|i: int, j: int|
                            0 <= i < f.name_parts.len() && 0 <= j < f.name_parts[i].len()
                            implies !crate::text::spec_is_ws(#[trigger] f.name_parts[i][j]) by {
                            if i < f0.name_parts.len() {
                                assert(f.name_parts[i] == f0.name_parts[i]);
                            }
                        }
                    },
                }
            },
        }
    }
}

/// For a good scan, the joined name needs no trimming.
pub proof fn lemma_scan_join_trim(s: Seq<char>)
    ensures
        match spec_scan(crate::text::spec_tokens(s)) {
            ScanRes::Good(f) => spec_trim(spec_join_sp(f.name_parts)) == spec_join_sp(
                f.name_parts,
            ),
            ScanRes::Bad(_) => true,
        },
{
    crate::text::lemma_tokens_wf(s);
    lemma_scan_parts_wf(crate::text::spec_tokens(s));
    match spec_scan(crate::text::spec_tokens(s)) {
        ScanRes::Good(f) => {
            lemma_join_ends_not_ws(f.name_parts);
            lemma_trim_id(spec_join_sp(f.name_parts));
        },
        ScanRes::Bad(_) => {},
    }
}

/// Joining non-empty whitespace-free parts never puts whitespace at the
/// ends.
proof fn lemma_join_ends_not_ws(ps: Seq<Seq<char>>)
    requires
        forall|i: int| 0 <= i < ps.len() ==> (#[trigger] ps[i]).len() > 0,
        forall|i: int, j: int|
            0 <= i < ps.len() && 0 <= j < ps[i].len() ==> !crate::text::spec_is_ws(
                #[trigger] ps[i][j],
            ),
    ensures
        spec_join_sp(ps).len() == 0 || (!crate::text::spec_is_ws(spec_join_sp(ps)[0])
            && !crate::text::spec_is_ws(spec_join_sp(ps).last())),
    decreases ps.len(),
{
    let out = spec_join_sp(ps);
    if ps.len() == 1 {
        assert(out == ps[0]);
        assert(!crate::text::spec_is_ws(ps[0][0]));
        assert(!crate::text::spec_is_ws(ps[0][ps[0].len() - 1]));
    } else if ps.len() > 1 {
        let pre = ps.drop_last();
        assert forall|i: int| 0 <= i < pre.len() implies (#[trigger] pre[i]).len() > 0 by {
            assert(pre[i] == ps[i]);
        }
        assert forall|i: int, j: int|
            0 <= i < pre.len() && 0 <= j < pre[i].len() implies !crate::text::spec_is_ws(
            #[trigger] pre[i][j],
        ) by {
            assert(pre[i] == ps[i]);
        }
        lemma_join_ends_not_ws(pre);
        assert(out == spec_join_sp(pre) + seq![' '] + ps.last());
        assert(ps.last().len() > 0);
        assert(out.last() == ps.last().last());
        assert(!crate::text::spec_is_ws(ps.last()[ps.last().len() - 1]));
        assert(spec_join_sp(pre).len() > 0);
        assert(out[0] == spec_join_sp(pre)[0]);
    }
}

/// Trimming a string with no whitespace at its ends changes nothing.
proof fn lemma_trim_id(s: Seq<char>)
    requires
        s.len() == 0 || (!crate::text::spec_is_ws(s[0]) && !crate::text::spec_is_ws(s.last())),
    ensures
        spec_trim(s) == s,
{
    if s.len() == 0 {
        assert(crate::text::spec_ws_prefix_len(s) == 0);
        assert(spec_trim(s) =~= s);
    } else {
        assert(crate::text::spec_ws_prefix_len(s) == 0);
        assert(crate::text::spec_ws_suffix_len(s) == 0);
        assert(spec_trim(s) =~= s);
    }
}

impl core::str::FromStr for TxRecord {
    type Err = CostOfLifeError;

    fn from_str(s: &str) -> Result<TxRecord, CostOfLifeError> {
        TxRecord::parse(s)
    }
}


// ---------------------------------------------------------------------------
// sorted tag labels
// ---------------------------------------------------------------------------

/// Inserts a label into a sorted label list, dropping duplicates — the
/// order a `BTreeSet` of strings iterates in.
pub open spec fn spec_sorted_insert(acc: Seq<Seq<char>>, v: Seq<char>) -> Seq<Seq<char>>
    decreases acc.len(),
{
    if acc.len() == 0 {
        seq![v]
    } else if spec_lex_le(v, acc[0]) {
        if acc[0] == v {
            acc
        } else {
            seq![v] + acc
        }
    } else {
        seq![acc[0]] + spec_sorted_insert(acc.skip(1), v)
    }
}

/// The stored tag labels, sorted and deduplicated.
pub open spec fn spec_sorted_labels(ts: Seq<(Seq<char>, Seq<char>)>) -> Seq<Seq<char>>
    decreases ts.len(),
{
    if ts.len() == 0 {
        seq![]
    } else {
        spec_sorted_insert(spec_sorted_labels(ts.drop_last()), ts.last().1)
    }
}

/// Compares two strings in code-point order.
fn lex_le_str(a: &String, b: &String) -> (r: bool)
    ensures
        r == spec_lex_le(a@, b@),
{
    let av = chars_of(a.as_str());
    let bv = chars_of(b.as_str());
    crate::text::lex_le(&av, &bv)
}

/// When the scan stopped at `j`, insertion is a skip or a placement there.
proof fn lemma_sorted_insert_at(acc: Seq<Seq<char>>, v: Seq<char>, j: int)
    requires
        0 <= j <= acc.len(),
        forall|k: int| 0 <= k < j ==> !spec_lex_le(v, #[trigger] acc[k]),
        j < acc.len() ==> spec_lex_le(v, acc[j]),
    ensures
        spec_sorted_insert(acc, v) == if j < acc.len() && acc[j] == v {
            acc
        } else {
            acc.subrange(0, j) + seq![v] + acc.skip(j)
        },
    decreases j,
{
    if acc.len() == 0 {
        assert(acc.subrange(0, 0) =~= Seq::<Seq<char>>::empty());
        assert(acc.skip(0) =~= acc);
        assert(spec_sorted_insert(acc, v) =~= acc.subrange(0, 0) + seq![v] + acc.skip(0));
    } else if j == 0 {
        if spec_lex_le(v, acc[0]) && acc[0] == v {
        } else {
            assert(acc.subrange(0, 0) =~= Seq::<Seq<char>>::empty());
            assert(acc.skip(0) =~= acc);
            assert(spec_sorted_insert(acc, v) =~= acc.subrange(0, 0) + seq![v] + acc.skip(0));
        }
    } else {
        let tail = acc.skip(1);
        assert forall|k: int| 0 <= k < j - 1 implies !spec_lex_le(v, #[trigger] tail[k]) by {
            assert(tail[k] == acc[k + 1]);
        }
        if j - 1 < tail.len() {
            assert(tail[j - 1] == acc[j]);
        }
        lemma_sorted_insert_at(tail, v, j - 1);
        if j < acc.len() && acc[j] == v {
            assert(spec_sorted_insert(acc, v) =~= acc);
        } else {
            assert(tail.subrange(0, j - 1) =~= acc.subrange(1, j));
            assert(tail.skip(j - 1) =~= acc.skip(j));
            assert(spec_sorted_insert(acc, v) =~= acc.subrange(0, j) + seq![v] + acc.skip(j));
        }
    }
}

/// Inserts an owned label into the sorted vector, as the spec does.
fn sorted_insert(acc: &mut Vec<String>, v: String)
    ensures
        views_of_strings(final (acc)@) == spec_sorted_insert(views_of_strings(old(acc)@), v@),
{
    let n = acc.len();
    let mut j: usize = 0;
    while j < n && !lex_le_str(&v, &acc[j])
        invariant
            j <= n,
            n == acc@.len(),
            acc@ == old(acc)@,
            forall|k: int|
                0 <= k < j ==> !spec_lex_le(v@, (#[trigger] views_of_strings(acc@)[k])),
        decreases n - j,
    {
        proof {
            assert(views_of_strings(acc@)[j as int] == acc@[j as int]@);
        }
        j = j + 1;
    }
    proof {
        if j < n {
            assert(views_of_strings(acc@)[j as int] == acc@[j as int]@);
        }
        lemma_sorted_insert_at(views_of_strings(acc@), v@, j as int);
    }
    if j < n && acc[j].eq(&v) {
        proof {
            assert(views_of_strings(acc@)[j as int] == v@);
        }
        return ;
    }
    acc.insert(j, v);
    proof {
        let ov = views_of_strings(old(acc)@);
        assert(views_of_strings(acc@) =~= ov.subrange(0, j as int) + seq![v@] + ov.skip(j as int));
    }
}

/// The progress of a record at `d`, as clamped elapsed and total days:
/// zero before the start, everything at or after the inclusive end,
/// the exact fraction strictly inside.
pub open spec fn spec_progress_pair(tx: TxRecord, d: Date) -> (int, int) {
    let start = tx.starts_on.dn();
    let end = start + tx.spec_duration() - 1;
    if d.dn() <= start {
        (0int, 1int)
    } else if d.dn() >= end {
        (1int, 1int)
    } else {
        (d.dn() - start, end - start)
    }
}

impl TxRecord {
    /// The tag labels, sorted in code-point order, duplicates removed.
    pub fn get_tags(&self) -> (r: Vec<String>)
        ensures
            views_of_strings(r@) == spec_sorted_labels(self.spec_tags()),
    {
        let n = self.tags.len();
        let mut out: Vec<String> = Vec::new();
        proof {
            assert(self.tags@.subrange(0, 0) =~= Seq::<(String, String)>::empty());
            assert(tag_views(self.tags@.subrange(0, 0)) =~= Seq::<(Seq<char>, Seq<char>)>::empty());
            assert(views_of_strings(out@) =~= spec_sorted_labels(
                tag_views(self.tags@.subrange(0, 0)),
            ));
        }
        let mut i: usize = 0;
        while i < n
            invariant
                i <= n,
                n == self.tags@.len(),
                views_of_strings(out@) == spec_sorted_labels(
                    tag_views(self.tags@.subrange(0, i as int)),
                ),
            decreases n - i,
        {
            let lbl = self.tags[i].1.clone();
            proof {
                let pre = tag_views(self.tags@.subrange(0, i as int));
                let cur = tag_views(self.tags@.subrange(0, i + 1));
                assert(cur.drop_last() =~= pre);
                assert(cur.last() == (self.tags@[i as int].0@, self.tags@[i as int].1@));
            }
            sorted_insert(&mut out, lbl);
            i = i + 1;
        }
        proof {
            assert(self.tags@.subrange(0, n as int) =~= self.tags@);
        }
        out
    }
}

// ---------------------------------------------------------------------------
// serialisation
// ---------------------------------------------------------------------------

/// The two-decimal rendering `W.FF` of a non-negative `10^12`-scaled value.
pub open spec fn spec_amount2_chars(v: int) -> Seq<char> {
    let m2 = v / 10_000_000_000;
    crate::text::spec_dec_chars((m2 / 100) as nat) + seq!['.'] + seq![
        crate::text::spec_digit_char((m2 / 10) % 10),
        crate::text::spec_digit_char(m2 % 10),
    ]
}

/// The sorted labels rendered as `#a #b ...`.
pub open spec fn spec_hashtags(ls: Seq<Seq<char>>) -> Seq<char>
    decreases ls.len(),
{
    if ls.len() == 0 {
        Seq::empty()
    } else if ls.len() == 1 {
        seq!['#'] + ls[0]
    } else {
        spec_hashtags(ls.drop_last()) + seq![' ', '#'] + ls.last()
    }
}

/// The persisted line of a record: timestamp, start date and text,
/// separated by `::` and closed by a newline.  A parsed record re-emits
/// its source text; a built one synthesises
/// `{name} {amount}€ {lifetime} {tags}`.
pub open spec fn spec_to_line(tx: TxRecord) -> Seq<char> {
    let head = tx.recorded_at@ + seq![':', ':'] + spec_date_iso(tx.starts_on) + seq![':', ':'];
    match tx.spec_src() {
        Some(s) => head + s + seq!['\n'],
        None => head + tx.name@ + seq![' '] + spec_amount2_chars(tx.amount.val12()) + seq!['€']
            + seq![' '] + crate::lifetime::spec_lt_text(tx.lifetime) + seq![' '] + spec_hashtags(
            spec_sorted_labels(tag_views(tx.tags@)),
        ) + seq!['\n'],
    }
}

impl TxRecord {
    /// Serialises the record to its ledger line.
    pub fn to_string_record(&self) -> (r: String)
        requires
            self.wf(),
        ensures
            r@ == spec_to_line(*self),
    {
        let mut out: Vec<char> = Vec::new();
        let rv = chars_of(self.recorded_at.as_str());
        crate::date::push_chars_vec(&mut out, &rv);
        out.push(':');
        out.push(':');
        crate::date::push_date_iso(&mut out, &self.starts_on);
        out.push(':');
        out.push(':');
        match &self.src {
            Some(sv) => {
                let sc = chars_of(sv.as_str());
                crate::date::push_chars_vec(&mut out, &sc);
                out.push('\n');
                proof {
                    assert(out@ =~= spec_to_line(*self));
                }
            },
            None => {
                let nv = chars_of(self.name.as_str());
                crate::date::push_chars_vec(&mut out, &nv);
                out.push(' ');
                let a2 = self.get_amount();
                proof {
                    lemma_amount2_of_scale2(self.amount, a2);
                }
                crate::decimal::push_scale2_chars(&mut out, &a2);
                out.push('€');
                out.push(' ');
                self.lifetime.push_text(&mut out);
                out.push(' ');
                let labels = self.get_tags();
                let ln = labels.len();
                let mut k: usize = 0;
                let ghost lv = views_of_strings(labels@);
                let ghost base = out@;
                proof {
                    assert(lv.subrange(0, 0) =~= Seq::<Seq<char>>::empty());
                    assert(out@ =~= base + spec_hashtags(lv.subrange(0, 0)));
                }
                while k < ln
                    invariant
                        k <= ln,
                        ln == labels@.len(),
                        lv == views_of_strings(labels@),
                        out@ == base + spec_hashtags(lv.subrange(0, k as int)),
                    decreases ln - k,
                {
                    if k > 0 {
                        out.push(' ');
                    }
                    out.push('#');
                    let cv = chars_of(labels[k].as_str());
                    crate::date::push_chars_vec(&mut out, &cv);
                    proof {
                        let pre = lv.subrange(0, k as int);
                        let cur = lv.subrange(0, k + 1);
                        assert(cur.drop_last() =~= pre);
                        assert(cur.last() == lv[k as int]);
                        assert(lv[k as int] == labels@[k as int]@);
                        assert(out@ =~= base + spec_hashtags(cur));
                    }
                    k = k + 1;
                }
                proof {
                    assert(lv.subrange(0, ln as int) =~= lv);
                }
                out.push('\n');
                proof {
                    assert(out@ =~= spec_to_line(*self));
                }
            },
        }
        string_of(&out)
    }
}

/// The displayed two-decimal amount of a well-formed positive decimal
/// coincides with the `10^12`-scaled rendering.
pub proof fn lemma_amount2_of_scale2(a: Decimal, a2: Decimal)
    requires
        a.wf(),
        !a.neg,
        a2.wf(),
        !a2.neg,
        a2.scale <= 2,
        a2.val12() == spec_trunc2(a.val12()),
    ensures
        crate::decimal::spec_scale2_chars(a2) == spec_amount2_chars(a.val12()),
{
    crate::decimal::lemma_pow10_values();
    crate::decimal::lemma_val12_expand(a);
    crate::decimal::lemma_val12_expand(a2);
    let m2 = a2.mant as nat * crate::text::spec_pow10((2 - a2.scale) as nat);
    let v = a.val12();
    // a2.val12() == m2 * 10^10 and a2.val12() == (v / 10^10) * 10^10
    assert(a2.val12() == a2.mant * crate::text::spec_pow10((12 - a2.scale) as nat));
    crate::decimal::lemma_pow10_add((2 - a2.scale) as nat, 10);
    assert((2 - a2.scale) as nat + 10 == (12 - a2.scale) as nat);
    assert(crate::text::spec_pow10((2 - a2.scale) as nat) * crate::text::spec_pow10(10)
        == crate::text::spec_pow10((12 - a2.scale) as nat));
    assert(a2.mant * (crate::text::spec_pow10((2 - a2.scale) as nat) * crate::text::spec_pow10(10))
        == m2 * crate::text::spec_pow10(10)) by (nonlinear_arith)
        requires
            m2 == a2.mant as nat * crate::text::spec_pow10((2 - a2.scale) as nat),
    ;
    assert(m2 * 10_000_000_000 == (v / 10_000_000_000) * 10_000_000_000);
    assert(m2 == v / 10_000_000_000) by {
        vstd::arithmetic::div_mod::lemma_fundamental_div_mod_converse(
            (m2 * 10_000_000_000) as int,
            10_000_000_000,
            m2 as int,
            0,
        );
        vstd::arithmetic::div_mod::lemma_fundamental_div_mod_converse(
            (m2 * 10_000_000_000) as int,
            10_000_000_000,
            v / 10_000_000_000,
            0,
        );
    }
}


// ---------------------------------------------------------------------------
// reading a line back
// ---------------------------------------------------------------------------

/// Splits a stored line, after trimming, at its first two `::` separators:
/// timestamp, start date, and the remaining text (which may itself contain
/// `::`).
pub open spec fn spec_split3(s: Seq<char>) -> Option<(Seq<char>, Seq<char>, Seq<char>)> {
    let t = spec_trim(s);
    match crate::text::spec_find_dcolon(t) {
        None => None,
        Some(i) => {
            let rest = t.skip(i + 2);
            match crate::text::spec_find_dcolon(rest) {
                None => None,
                Some(j) => Some((t.subrange(0, i), rest.subrange(0, j), rest.skip(j + 2))),
            }
        },
    }
}

/// The first piece of a split never contains `::`.
proof fn lemma_split3_head_clean(t: Seq<char>, i: int)
    requires
        crate::text::spec_find_dcolon(t) == Some(i),
    ensures
        !spec_has_dcolon(t.subrange(0, i)),
{
    crate::text::lemma_find_dcolon(t);
    let h = t.subrange(0, i);
    crate::text::lemma_find_dcolon(h);
    match crate::text::spec_find_dcolon(h) {
        None => {},
        Some(k) => {
            assert(h[k] == t[k]);
            assert(h[k + 1] == t[k + 1]);
        },
    }
}

impl TxRecord {
    /// Reads a record back from its stored line: the first two `::` split
    /// off timestamp and start date, the rest is scanned like a fresh
    /// expense line, and the stored date and timestamp take the place of
    /// any scanned ones.
    #[verifier::rlimit(100)]
    #[verifier::spinoff_prover]
    pub fn from_string_record(s: &str) -> (r: Result<TxRecord, CostOfLifeError>)
        ensures
            match spec_split3(s@) {
                None => r is Err && r->Err_0 is GenericError,
                Some((ts, ds, body)) => match spec_scan(crate::text::spec_tokens(body)) {
                    ScanRes::Bad(ScanErr::BadLifetime) => r is Err && r->Err_0
                        is InvalidLifetimeFormat,
                    ScanRes::Bad(ScanErr::BadDate) => r is Err && r->Err_0 is InvalidDateFormat,
                    ScanRes::Good(f) => match crate::date::spec_parse_iso(ds) {
                        None => r is Err && r->Err_0 is InvalidDateFormat,
                        Some(sd) => match r {
                            Ok(tx) => spec_from_err(f.amount, sd, f.lifetime, ts) is None
                                && tx.wf() && spec_record_matches(
                                tx,
                                spec_join_sp(f.name_parts),
                                f.tags,
                                f.amount,
                                sd,
                                f.lifetime,
                                ts,
                                Some(body),
                            ),
                            Err(e) => match spec_from_err(f.amount, sd, f.lifetime, ts) {
                                Some(BuildErr::BadAmount) => e is InvalidAmount,
                                Some(BuildErr::BadDate) => e is InvalidDateFormat,
                                Some(BuildErr::BadLifetime) => e is InvalidLifetimeFormat,
                                None => false,
                            },
                        },
                    },
                },
            },
    {
        let v = chars_of(s);
        let t = crate::text::trim_chars(&v);
        let i = match crate::text::find_dcolon(&t, 0) {
            Some(i) => i,
            None => {
                proof {
                    assert(t@.skip(0) =~= t@);
                }
                return Err(CostOfLifeError::GenericError("malformed record line".to_owned()));
            },
        };
        proof {
            assert(t@.skip(0) =~= t@);
            crate::text::lemma_find_dcolon(t@);
            assert(i + 2 <= t@.len());
        }
        let tl = t.len();
        let rest = crate::decimal::sub_chars(&t, i + 2, tl);
        proof {
            assert(rest@ =~= t@.skip(i + 2));
        }
        let j = match crate::text::find_dcolon(&rest, 0) {
            Some(j) => j,
            None => {
                proof {
                    assert(rest@.skip(0) =~= rest@);
                }
                return Err(CostOfLifeError::GenericError("malformed record line".to_owned()));
            },
        };
        proof {
            assert(rest@.skip(0) =~= rest@);
            crate::text::lemma_find_dcolon(rest@);
            assert(j + 2 <= rest@.len());
        }
        let rl = rest.len();
        let tsv = crate::decimal::sub_chars(&t, 0, i);
        let dsv = crate::decimal::sub_chars(&rest, 0, j);
        let bodyv = crate::decimal::sub_chars(&rest, j + 2, rl);
        proof {
            assert(bodyv@ =~= rest@.skip(j + 2));
        }
        let sc = match scan_tokens(&bodyv) {
            Ok(sc) => sc,
            Err(e) => {
                return Err(e);
            },
        };
        let sd = match crate::date::parse_iso_chars(&dsv) {
            Some(d) => d,
            None => {
                return Err(CostOfLifeError::InvalidDateFormat("invalid stored date".to_owned()));
            },
        };
        let name_s = string_of(&sc.name);
        let mut labels: Vec<&str> = Vec::new();
        let tn = sc.tags.len();
        let mut k: usize = 0;
        while k < tn
            invariant
                k <= tn,
                tn == sc.tags@.len(),
                labels@.len() == k,
                forall|j2: int| 0 <= j2 < k ==> (#[trigger] labels@[j2])@ == sc.tags@[j2]@,
            decreases tn - k,
        {
            labels.push(sc.tags[k].as_str());
            k = k + 1;
        }
        proof {
            assert(views_of_strs(labels@) =~= views_of_strings(sc.tags@));
        }
        let amount_s = string_of(&sc.amount);
        let ts_s = string_of(&tsv);
        let body_s = string_of(&bodyv);
        let r = TxRecord::from(
            name_s.as_str(),
            labels,
            amount_s.as_str(),
            sd,
            sc.lifetime,
            ts_s.as_str(),
            Some(body_s.as_str()),
        );
        proof {
            lemma_scan_join_trim(bodyv@);
            lemma_split3_head_clean(t@, i as int);
        }
        r
    }
}

// ---------------------------------------------------------------------------
// equality
// ---------------------------------------------------------------------------

/// The pair `(k, v)` occurs in the tag sequence.
pub open spec fn spec_tags_contain(ts: Seq<(Seq<char>, Seq<char>)>, k: Seq<char>, v: Seq<char>) -> bool {
    exists|i: int| 0 <= i < ts.len() && ts[i] == (k, v)
}

/// Two tag sequences hold the same pairs (map equality for distinct keys).
pub open spec fn spec_tags_eq(a: Seq<(Seq<char>, Seq<char>)>, b: Seq<(Seq<char>, Seq<char>)>) -> bool {
    (forall|i: int|
        0 <= i < a.len() ==> spec_tags_contain(b, (#[trigger] a[i]).0, a[i].1)) && (forall|i: int|
        0 <= i < b.len() ==> spec_tags_contain(a, (#[trigger] b[i]).0, b[i].1))
}

/// One side of the pair containment check.
fn tags_subset(a: &Vec<(String, String)>, b: &Vec<(String, String)>) -> (r: bool)
    ensures
        r == forall|i: int|
            0 <= i < tag_views(a@).len() ==> spec_tags_contain(
                tag_views(b@),
                (#[trigger] tag_views(a@)[i]).0,
                tag_views(a@)[i].1,
            ),
{
    let n = a.len();
    let m = b.len();
    let mut i: usize = 0;
    while i < n
        invariant
            i <= n,
            n == a@.len(),
            m == b@.len(),
            forall|k: int|
                0 <= k < i ==> spec_tags_contain(
                    tag_views(b@),
                    (#[trigger] tag_views(a@)[k]).0,
                    tag_views(a@)[k].1,
                ),
        decreases n - i,
    {
        let mut found = false;
        let mut j: usize = 0;
        loop
            invariant_except_break
                !found,
            invariant
                j <= m,
                m == b@.len(),
                n == a@.len(),
                i < n,
                found ==> spec_tags_contain(
                    tag_views(b@),
                    tag_views(a@)[i as int].0,
                    tag_views(a@)[i as int].1,
                ),
                !found ==> forall|k: int|
                    0 <= k < j ==> (#[trigger] tag_views(b@)[k]) != (
                    tag_views(a@)[i as int].0,
                    tag_views(a@)[i as int].1,
                ),
            ensures
                found ==> spec_tags_contain(
                    tag_views(b@),
                    tag_views(a@)[i as int].0,
                    tag_views(a@)[i as int].1,
                ),
                !found ==> forall|k: int|
                    0 <= k < m ==> (#[trigger] tag_views(b@)[k]) != (
                    tag_views(a@)[i as int].0,
                    tag_views(a@)[i as int].1,
                ),
            decreases m - j,
        {
            if j == m {
                break ;
            }
            proof {
                assert(tag_views(b@)[j as int] == (b@[j as int].0@, b@[j as int].1@));
                assert(tag_views(a@)[i as int] == (a@[i as int].0@, a@[i as int].1@));
            }
            if b[j].0.eq(&a[i].0) && b[j].1.eq(&a[i].1) {
                found = true;
                break ;
            }
            j = j + 1;
        }
        if !found {
            proof {
                let p0 = tag_views(a@)[i as int].0;
                let p1 = tag_views(a@)[i as int].1;
                assert(!spec_tags_contain(tag_views(b@), p0, p1)) by {
                    if spec_tags_contain(tag_views(b@), p0, p1) {
                        let w = choose|w: int|
                            0 <= w < tag_views(b@).len() && tag_views(b@)[w] == (p0, p1);
                        assert(tag_views(b@)[w] != (p0, p1));
                    }
                }
            }
            return false;
        }
        i = i + 1;
    }
    true
}

impl PartialEq for TxRecord {
    /// Field-wise equality on name, tags (as a map), amount, start date
    /// and lifetime; the timestamp and source text do not take part.
    fn eq(&self, other: &Self) -> (r: bool) {
        let r = self.name.eq(&other.name) && tags_subset(&self.tags, &other.tags) && tags_subset(
            &other.tags,
            &self.tags,
        ) && self.amount == other.amount && self.starts_on == other.starts_on
            && self.lifetime.eq(&other.lifetime);
        r
    }
}

impl vstd::std_specs::cmp::PartialEqSpecImpl for TxRecord {
    open spec fn obeys_eq_spec() -> bool {
        true
    }

    open spec fn eq_spec(&self, other: &TxRecord) -> bool {
        &&& self.name@ == other.name@
        &&& spec_tags_eq(tag_views(self.tags@), tag_views(other.tags@))
        &&& self.amount == other.amount
        &&& self.starts_on == other.starts_on
        &&& self.lifetime.approx_centidays() == other.lifetime.approx_centidays()
    }
}


impl Clone for TxRecord {
    /// A copy with the same content.
    fn clone(&self) -> (res: Self)
        ensures
            res.rec() == self.rec(),
            self.wf() ==> res.wf(),
    {
        let n = self.tags.len();
        let mut tags2: Vec<(String, String)> = Vec::new();
        let mut i: usize = 0;
        while i < n
            invariant
                i <= n,
                n == self.tags@.len(),
                tags2@ =~= self.tags@.subrange(0, i as int),
            decreases n - i,
        {
            tags2.push((self.tags[i].0.clone(), self.tags[i].1.clone()));
            proof {
                assert(tags2@ =~= self.tags@.subrange(0, i + 1));
            }
            i = i + 1;
        }
        proof {
            assert(tags2@ =~= self.tags@);
        }
        let src2: Option<String> = match &self.src {
            Some(s) => Some(s.clone()),
            None => None,
        };
        let res = TxRecord {
            name: self.name.clone(),
            tags: tags2,
            amount: self.amount,
            starts_on: self.starts_on,
            lifetime: self.lifetime,
            recorded_at: self.recorded_at.clone(),
            src: src2,
        };
        proof {
            assert(tag_views(res.tags@) =~= tag_views(self.tags@));
            assert(res.rec() =~~= self.rec());
        }
        res
    }
}


// ---------------------------------------------------------------------------
// the round trip
// ---------------------------------------------------------------------------

/// The ISO date text holds no colon.
proof fn lemma_iso_no_colon(d: Date)
    requires
        d.wf(),
    ensures
        !spec_has_dcolon(spec_date_iso(d)),
        spec_date_iso(d).len() >= 10,
        spec_date_iso(d).last() != ':',
        forall|j: int| 0 <= j < spec_date_iso(d).len() ==> (#[trigger] spec_date_iso(d)[j]) != ':',
{
    crate::date::lemma_date_iso_shape(d);
    let s = spec_date_iso(d);
    crate::text::lemma_find_dcolon(s);
    match crate::text::spec_find_dcolon(s) {
        None => {},
        Some(w) => {
            assert(s[w] != ':');
        },
    }
}

/// Serialising a record whose source text is kept and reading the line
/// back splits into exactly the stored timestamp, the start date and a
/// text that scans to the same tokens as the source.  Together with the
/// contracts of `from_string_record` and `from`, a line written by
/// `to_string_record` therefore reads back to a record with the same
/// name, tags, amount, start date and lifetime.  The law asks only that
/// the timestamp read cleanly: non-empty, not opening with whitespace,
/// not closing with a colon.
pub proof fn law_round_trip_line(tx: TxRecord)
    requires
        tx.wf(),
        tx.spec_src() is Some,
        tx.recorded_at@.len() >= 1,
        !crate::text::spec_is_ws(tx.recorded_at@[0]),
        tx.recorded_at@.last() != ':',
    ensures
        match spec_split3(spec_to_line(tx)) {
            Some((ts, ds, body)) => ts == tx.recorded_at@ && ds == spec_date_iso(tx.starts_on)
                && crate::text::spec_tokens(body) == crate::text::spec_tokens(
                tx.spec_src().unwrap(),
            ),
            None => false,
        },
        crate::date::spec_parse_iso(spec_date_iso(tx.starts_on)) == Some(tx.starts_on),
{
    let rec = tx.recorded_at@;
    let iso = spec_date_iso(tx.starts_on);
    let body0 = tx.spec_src().unwrap();
    let line = spec_to_line(tx);
    let sep: Seq<char> = seq![':', ':'];
    assert(line == rec + sep + iso + sep + body0 + seq!['\n']);
    let rl = rec.len() as int;
    let il = iso.len() as int;
    let head = rl + 2 + il + 2;
    let ll = line.len() as int;
    assert(ll == head + body0.len() + 1);
    lemma_iso_no_colon(tx.starts_on);
    // character map of the line
    assert forall|j: int| 0 <= j < rl implies line[j] == rec[j] by {}
    assert(line[rl] == ':' && line[rl + 1] == ':');
    assert forall|j: int| 0 <= j < il implies line[rl + 2 + j] == iso[j] by {}
    assert(line[rl + 2 + il] == ':' && line[rl + 2 + il + 1] == ':');
    assert forall|j: int| 0 <= j < body0.len() implies line[head + j] == body0[j] by {}
    assert(line.last() == '\n');
    // the trim: nothing at the front, whitespace (at least the newline)
    // at the back, stopping no earlier than the final separator
    assert(line[0] == rec[0]);
    crate::text::lemma_ws_prefix_len_concrete(line, 0);
    crate::text::lemma_ws_suffix_props(line);
    let w = crate::text::spec_ws_suffix_len(line) as int;
    assert(crate::text::spec_is_ws('\n'));
    assert(w >= 1) by {
        if w == 0 {
            assert(!crate::text::spec_is_ws(line.last()));
        }
    }
    assert(line[head - 1] == ':');
    assert(!crate::text::spec_is_ws(':'));
    crate::text::lemma_ws_suffix_bound(line, head - 1);
    assert(w <= ll - head);
    let t = spec_trim(line);
    assert(t == line.subrange(0, ll - w));
    assert(t.len() == ll - w >= head);
    // first separator: right after the timestamp
    assert(t[rl] == ':' && t[rl + 1] == ':');
    assert(t.subrange(0, rl) =~= rec);
    if rl >= 1 {
        assert(t[rl - 1] == rec[rl - 1]);
    }
    crate::text::lemma_find_dcolon_concat(t, rl);
    let rest = t.skip(rl + 2);
    assert(rest.len() == t.len() - rl - 2);
    assert forall|j: int| 0 <= j < rest.len() implies rest[j] == t[rl + 2 + j] by {}
    // second separator: right after the date
    assert(rest[il] == ':' && rest[il + 1] == ':');
    assert(rest.subrange(0, il) =~= iso);
    assert(rest[il - 1] == iso[il - 1]);
    assert(iso[il - 1] != ':');
    crate::text::lemma_find_dcolon_concat(rest, il);
    let body = rest.skip(il + 2);
    assert(spec_split3(line) == Some((rec, iso, body))) by {
        assert(t.subrange(0, rl) == rec);
        assert(rest.subrange(0, il) == iso);
    }
    // the body is the source minus trailing whitespace: same tokens
    assert(body =~= body0.subrange(0, body0.len() - (w - 1)));
    assert forall|j: int| body0.len() - (w - 1) <= j < body0.len() implies crate::text::spec_is_ws(
        #[trigger] body0[j],
    ) by {
        assert(body0[j] == line[head + j]);
        assert(head + j >= ll - w);
    }
    crate::text::lemma_tokens_drop_ws_suffix(body0, w - 1);
    // and the date text reads back
    crate::date::lemma_parse_iso_of_iso(tx.starts_on);
}


/// The round trip in full: a well-formed record that keeps its source
/// text — and whose source scans to the record's own fields, as every
/// record built by parsing does — serialises to a line that splits back
/// into its timestamp, its start date and its source tokens, passes every
/// construction check again, and rebuilds the same name, tags, amount,
/// start date and lifetime.  Reading the line with `from_string_record`
/// therefore returns a record equal to this one under field-wise equality.
pub proof fn law_round_trip(tx: TxRecord)
    requires
        tx.wf(),
        tx.spec_src() is Some,
        spec_parsed_ok(tx.spec_src().unwrap(), tx),
        tx.recorded_at@.len() >= 1,
        !crate::text::spec_is_ws(tx.recorded_at@[0]),
        tx.recorded_at@.last() != ':',
    ensures
        match spec_split3(spec_to_line(tx)) {
            Some((ts, ds, body)) => {
                &&& ts == tx.recorded_at@
                &&& crate::date::spec_parse_iso(ds) == Some(tx.starts_on)
                &&& match spec_scan(crate::text::spec_tokens(body)) {
                    ScanRes::Good(f) => {
                        &&& spec_from_err(f.amount, tx.starts_on, f.lifetime, ts) is None
                        &&& spec_trim(spec_join_sp(f.name_parts)) == tx.name@
                        &&& spec_build_tags(f.tags) == tag_views(tx.tags@)
                        &&& crate::decimal::spec_parse_amount(f.amount) == Some(tx.amount)
                        &&& f.lifetime == tx.lifetime
                    },
                    ScanRes::Bad(_) => false,
                }
            },
            None => false,
        },
{
    law_round_trip_line(tx);
    let src = tx.spec_src().unwrap();
    let (ts, ds, body) = spec_split3(spec_to_line(tx)).unwrap();
    assert(crate::text::spec_tokens(body) == crate::text::spec_tokens(src));
    match spec_scan(crate::text::spec_tokens(src)) {
        ScanRes::Bad(_) => {
            assert(false);
        },
        ScanRes::Good(f) => {
            lemma_scan_join_trim(src);
            assert(spec_trim(spec_join_sp(f.name_parts)) == tx.name@);
            // every construction check holds of the record's own parts
            assert(spec_from_err(f.amount, tx.starts_on, f.lifetime, ts) is None) by {
                crate::decimal::lemma_trunc2_sign(tx.amount.val12());
                crate::lifetime::lemma_days_since_pos(tx.lifetime, tx.starts_on);
            }
        },
    }
}

} // verus!
