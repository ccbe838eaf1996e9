//! The content-addressed ledger store.
//!
//! Records live in a map keyed by a digest of their identity fields —
//! name, displayed amount, lifetime text and start date — so that
//! re-inserting an expense with the same identity replaces the earlier
//! copy.  Aggregate queries filter the records active on a date: the total
//! cost of life, a per-record summary sorted by progress, and a per-tag
//! rollup sorted by accumulated daily cost.

use crate::date::{spec_date_iso, Date};
use crate::decimal::{from_val12_scale2, spec_trunc2, Decimal};
use crate::record::{tag_views, RecView, TxRecord};
use vstd::prelude::*;

verus! {

// ---------------------------------------------------------------------------
// the content digest
// ---------------------------------------------------------------------------

/// What the BLAKE3 hash of a byte string is: a pure function of the bytes
/// alone.
pub uninterp spec fn blake3_of(bytes: Seq<u8>) -> Seq<u8>;

/// Relies on `blake3::hash`: the 32-byte BLAKE3 digest of the input.
#[verifier::external_body]
fn blake3_digest(data: &[u8]) -> (r: Vec<u8>)
    ensures
        r@ == blake3_of(data@),
        r@.len() == 32,
{
    blake3::hash(data).as_bytes().to_vec()
}

/// The identity text of a record: name, displayed amount, lifetime text
/// and start date, joined by `:`.
pub open spec fn spec_identity(tx: TxRecord) -> Seq<char> {
    tx.name@ + seq![':'] + crate::record::spec_amount2_chars(tx.amount.val12()) + seq![':']
        + crate::lifetime::spec_lt_text(tx.lifetime) + seq![':'] + spec_date_iso(tx.starts_on)
}

/// The store key of a record: the digest of its UTF-8 identity text.
pub open spec fn spec_key(tx: TxRecord) -> Seq<u8> {
    blake3_of(vstd::utf8::encode_utf8(spec_identity(tx)))
}

/// Computes the identity digest of a record.
fn key_of(tx: &TxRecord) -> (r: Vec<u8>)
    requires
        tx.wf(),
    ensures
        r@ == spec_key(*tx),
        r@.len() == 32,
{
    let mut out: Vec<char> = Vec::new();
    let nv = crate::text::chars_of(tx.get_name());
    crate::date::push_chars_vec(&mut out, &nv);
    out.push(':');
    let a2 = tx.get_amount();
    proof {
        crate::record::lemma_amount2_of_scale2(tx.amount, a2);
    }
    crate::decimal::push_scale2_chars(&mut out, &a2);
    out.push(':');
    tx.get_lifetime().push_text(&mut out);
    out.push(':');
    crate::date::push_date_iso(&mut out, &tx.get_starts_on());
    proof {
        assert(out@ =~= spec_identity(*tx));
    }
    let s = crate::text::string_of(&out);
    let b = s.as_str().as_bytes();
    blake3_digest(b)
}

/// Byte-wise equality of two keys.
fn bytes_eq(a: &Vec<u8>, b: &Vec<u8>) -> (r: bool)
    ensures
        r == (a@ == b@),
{
    let n = a.len();
    if n != b.len() {
        proof {
            assert(a@ != b@);
        }
        return false;
    }
    let mut i: usize = 0;
    while i < n
        invariant
            i <= n,
            n == a@.len(),
            n == b@.len(),
            forall|k: int| 0 <= k < i ==> a@[k] == b@[k],
        decreases n - i,
    {
        if a[i] != b[i] {
            return false;
        }
        i = i + 1;
    }
    proof {
        assert(a@ =~= b@);
    }
    true
}

// ---------------------------------------------------------------------------
// the store
// ---------------------------------------------------------------------------

/// The record store: digest-keyed entries, keys distinct.  The fields are
/// exposed for specification; entries change only through
/// [`DataStore::insert`].
pub struct DataStore {
    pub entries: Vec<(Vec<u8>, TxRecord)>,
}

/// The map a sequence of entries denotes: digest to record content.
pub open spec fn spec_entries_map(es: Seq<(Vec<u8>, TxRecord)>) -> Map<Seq<u8>, RecView>
    decreases es.len(),
{
    if es.len() == 0 {
        Map::empty()
    } else {
        spec_entries_map(es.drop_last()).insert(es.last().0@, es.last().1.rec())
    }
}

impl DataStore {
    /// Every entry is a well-formed record stored under its own digest,
    /// and no digest occurs twice.
    pub open spec fn wf(self) -> bool {
        &&& forall|i: int|
            0 <= i < self.entries@.len() ==> (#[trigger] self.entries@[i]).1.wf()
        &&& forall|i: int|
            0 <= i < self.entries@.len() ==> (#[trigger] self.entries@[i]).0@ == spec_key(
                self.entries@[i].1,
            )
        &&& forall|i: int, j: int|
            0 <= i < j < self.entries@.len() ==> (#[trigger] self.entries@[i]).0@ != (
            #[trigger] self.entries@[j]).0@
    }

    /// The digest-to-record map this store holds.
    pub open spec fn view_map(self) -> Map<Seq<u8>, RecView> {
        spec_entries_map(self.entries@)
    }

    /// An empty store.
    pub fn new() -> (r: DataStore)
        ensures
            r.wf(),
            r.view_map() == Map::<Seq<u8>, RecView>::empty(),
            r.entries@.len() == 0,
    {
        DataStore { entries: Vec::new() }
    }

    /// The number of stored records, or, on a date, the number active
    /// then.
    pub fn size(&self, on: Option<Date>) -> (r: usize)
        requires
            self.wf(),
            match on {
                Some(d) => d.wf(),
                None => true,
            },
        ensures
            match on {
                None => r == self.entries@.len(),
                Some(d) => r == spec_active_count(self.entries@, d),
            },
    {
        match on {
            None => self.entries.len(),
            Some(d) => {
                let rows = self.summary(&d);
                rows.len()
            },
        }
    }

    /// The stored records, in store order (copies).
    pub fn records(&self) -> (r: Vec<TxRecord>)
        requires
            self.wf(),
        ensures
            r@.len() == self.entries@.len(),
            forall|i: int|
                0 <= i < r@.len() ==> (#[trigger] r@[i]).rec() == self.entries@[i].1.rec()
                    && r@[i].wf(),
    {
        let n = self.entries.len();
        let mut r: Vec<TxRecord> = Vec::new();
        let mut i: usize = 0;
        while i < n
            invariant
                i <= n,
                n == self.entries@.len(),
                self.wf(),
                r@.len() == i,
                forall|k: int|
                    0 <= k < i ==> (#[trigger] r@[k]).rec() == self.entries@[k].1.rec()
                        && r@[k].wf(),
            decreases n - i,
        {
            r.push(self.entries[i].1.clone());
            i = i + 1;
        }
        r
    }

    /// Upserts a record under its identity digest: an entry with the same
    /// digest is replaced and returned, otherwise the record is appended.
    #[verifier::rlimit(100)]
    #[verifier::spinoff_prover]
    pub fn insert(&mut self, tx: &TxRecord) -> (r: Option<TxRecord>)
        requires
            old(self).wf(),
            tx.wf(),
        ensures
            final (self).wf(),
            final (self).view_map() == old(self).view_map().insert(spec_key(*tx), tx.rec()),
            match r {
                Some(prev) => old(self).view_map().contains_key(spec_key(*tx)) && prev.rec()
                    == old(self).view_map()[spec_key(*tx)] && final (self).entries@.len() == old(
                    self,
                ).entries@.len(),
                None => !old(self).view_map().contains_key(spec_key(*tx)) && final (
                self).entries@.len() == old(self).entries@.len() + 1,
            },
    {
        proof {
            lemma_entries_map_props(self.entries@);
        }
        let key = key_of(tx);
        let n = self.entries.len();
        let mut i: usize = 0;
        while i < n
            invariant
                i <= n,
                n == self.entries@.len(),
                self.entries@ == old(self).entries@,
                old(self).wf(),
                tx.wf(),
                key@ == spec_key(*tx),
                forall|k: int| 0 <= k < i ==> (#[trigger] self.entries@[k]).0@ != key@,
            decreases n - i,
        {
            if bytes_eq(&self.entries[i].0, &key) {
                let prev = self.entries[i].1.clone();
                proof {
                    assert(self.entries@[i as int].0@ == key@);
                }
                let tx2 = tx.clone();
                self.entries.set(i, (key, tx2));
                proof {
                    lemma_map_update_any(old(self).entries@, self.entries@, i as int, tx.rec());
                    lemma_entries_map_props(old(self).entries@);
                    assert(prev.rec() == old(self).entries@[i as int].1.rec());
                }
                return Some(prev);
            }
            i = i + 1;
        }
        self.entries.push((key, tx.clone()));
        proof {
            lemma_entries_map_props(old(self).entries@);
            assert(self.entries@.drop_last() =~= old(self).entries@);
            assert(self.entries@.last().0@ == spec_key(*tx));
            if old(self).view_map().contains_key(spec_key(*tx)) {
                let w = choose|w: int|
                    0 <= w < old(self).entries@.len() && (#[trigger] old(self).entries@[w]).0@
                        == spec_key(*tx);
                assert(false);
            }
        }
        None
    }
}

/// What the entry map holds, given distinct keys: exactly the entries.
proof fn lemma_entries_map_props(es: Seq<(Vec<u8>, TxRecord)>)
    requires
        forall|i: int, j: int|
            0 <= i < j < es.len() ==> (#[trigger] es[i]).0@ != (#[trigger] es[j]).0@,
    ensures
        forall|k: Seq<u8>|
            spec_entries_map(es).contains_key(k) ==> exists|i: int|
                0 <= i < es.len() && (#[trigger] es[i]).0@ == k,
        forall|i: int|
            0 <= i < es.len() ==> spec_entries_map(es).contains_key(
                (#[trigger] es[i]).0@,
            ) && spec_entries_map(es)[es[i].0@] == es[i].1.rec(),
    decreases es.len(),
{
    if es.len() > 0 {
        let pre = es.drop_last();
        assert forall|i: int, j: int|
            0 <= i < j < pre.len() implies (#[trigger] pre[i]).0@ != (#[trigger] pre[j]).0@ by {
            assert(pre[i] == es[i]);
            assert(pre[j] == es[j]);
        }
        lemma_entries_map_props(pre);
        assert forall|i: int|
            0 <= i < es.len() implies spec_entries_map(es).contains_key((#[trigger] es[i]).0@)
            && spec_entries_map(es)[es[i].0@] == es[i].1.rec() by {
            if i < es.len() - 1 {
                assert(pre[i] == es[i]);
                assert(es[i].0@ != es[es.len() - 1].0@);
            }
        }
    }
}

/// Updating the entry at an existing key (same key view, new record
/// content) is a map insert at that key.
proof fn lemma_map_update_any(
    es: Seq<(Vec<u8>, TxRecord)>,
    up: Seq<(Vec<u8>, TxRecord)>,
    i: int,
    rv: RecView,
)
    requires
        0 <= i < es.len(),
        up.len() == es.len(),
        forall|k: int| 0 <= k < es.len() && k != i ==> #[trigger] up[k] == es[k],
        up[i].0@ == es[i].0@,
        up[i].1.rec() == rv,
        forall|a: int, b: int|
            0 <= a < b < es.len() ==> (#[trigger] es[a]).0@ != (#[trigger] es[b]).0@,
    ensures
        spec_entries_map(up) == spec_entries_map(es).insert(es[i].0@, rv),
    decreases es.len(),
{
    if i == es.len() - 1 {
        assert(up.drop_last() =~= es.drop_last());
        assert(spec_entries_map(up) =~= spec_entries_map(es).insert(es[i].0@, rv));
    } else {
        let pe = es.drop_last();
        let pu = up.drop_last();
        assert forall|a: int, b: int|
            0 <= a < b < pe.len() implies (#[trigger] pe[a]).0@ != (#[trigger] pe[b]).0@ by {
            assert(pe[a] == es[a]);
            assert(pe[b] == es[b]);
        }
        assert(pu.len() == pe.len());
        assert forall|k: int| 0 <= k < pe.len() && k != i implies #[trigger] pu[k] == pe[k] by {
            assert(pu[k] == up[k]);
            assert(pe[k] == es[k]);
        }
        assert(pu[i].0@ == pe[i].0@);
        assert(pu[i].1.rec() == rv);
        lemma_map_update_any(pe, pu, i, rv);
        assert(up.last() == es.last());
        assert(es[i].0@ != es.last().0@);
        assert(spec_entries_map(up) =~= spec_entries_map(es).insert(es[i].0@, rv));
    }
}

// ---------------------------------------------------------------------------
// aggregation
// ---------------------------------------------------------------------------

/// A record is active on a date when it falls between start and end day,
/// inclusive.
pub open spec fn spec_active(tx: TxRecord, d: Date) -> bool {
    tx.starts_on.dn() <= d.dn() <= tx.starts_on.dn() + tx.spec_duration() - 1
}

/// The raw per-diem of a record, `10^12`-scaled: total over duration.
pub open spec fn spec_pd12(tx: TxRecord) -> int {
    tx.spec_total12() / tx.spec_duration()
}

/// Sum of raw per-diems over the active records.
pub open spec fn spec_col_sum(es: Seq<(Vec<u8>, TxRecord)>, d: Date) -> int
    decreases es.len(),
{
    if es.len() == 0 {
        0
    } else {
        spec_col_sum(es.drop_last(), d) + if spec_active(es.last().1, d) {
            spec_pd12(es.last().1)
        } else {
            0
        }
    }
}

/// The number of active records.
pub open spec fn spec_active_count(es: Seq<(Vec<u8>, TxRecord)>, d: Date) -> int
    decreases es.len(),
{
    if es.len() == 0 {
        0
    } else {
        spec_active_count(es.drop_last(), d) + if spec_active(es.last().1, d) {
            1int
        } else {
            0int
        }
    }
}

proof fn lemma_col_sum_nonneg(es: Seq<(Vec<u8>, TxRecord)>, d: Date)
    requires
        forall|i: int| 0 <= i < es.len() ==> (#[trigger] es[i]).1.wf(),
    ensures
        spec_col_sum(es, d) >= 0,
    decreases es.len(),
{
    if es.len() > 0 {
        let pre = es.drop_last();
        assert forall|i: int| 0 <= i < pre.len() implies (#[trigger] pre[i]).1.wf() by {
            assert(pre[i] == es[i]);
        }
        lemma_col_sum_nonneg(pre, d);
        if spec_active(es.last().1, d) {
            lemma_pd12_nonneg(es.last().1);
        }
    }
}

proof fn lemma_pd12_nonneg(tx: TxRecord)
    requires
        tx.wf(),
    ensures
        spec_pd12(tx) >= 0,
{
    crate::decimal::lemma_val12_times(tx.amount, tx.lifetime.spec_repeats());
    crate::lifetime::lemma_days_since_pos(tx.lifetime, tx.starts_on);
    assert(tx.spec_total12() >= 0);
    assert(spec_pd12(tx) >= 0) by (nonlinear_arith)
        requires
            tx.spec_total12() >= 0,
            tx.spec_duration() >= 1,
            spec_pd12(tx) == tx.spec_total12() / tx.spec_duration(),
    ;
}

impl DataStore {
    /// The total cost of life on `d`: the sum of the raw per-diems of the
    /// records active then, rounded to two decimals at the end.  `None`
    /// when the sum leaves the machine range.
    pub fn cost_of_life(&self, d: &Date) -> (r: Option<Decimal>)
        requires
            self.wf(),
            d.wf(),
        ensures
            match r {
                Some(c) => c.wf() && !c.neg && c.val12() == spec_trunc2(
                    spec_col_sum(self.entries@, *d),
                ),
                None => spec_col_sum(self.entries@, *d) > u128::MAX,
            },
    {
        cost_of_life_entries(&self.entries, d)
    }
}

/// The per-diem sum over a vector of entries.
fn cost_of_life_entries(es: &Vec<(Vec<u8>, TxRecord)>, d: &Date) -> (r: Option<Decimal>)
    requires
        forall|i: int| 0 <= i < es@.len() ==> (#[trigger] es@[i]).1.wf(),
        d.wf(),
    ensures
        match r {
            Some(c) => c.wf() && !c.neg && c.val12() == spec_trunc2(spec_col_sum(es@, *d)),
            None => spec_col_sum(es@, *d) > u128::MAX,
        },
{
    let n = es.len();
    let mut sum: u128 = 0;
    let mut i: usize = 0;
    while i < n
        invariant
            i <= n,
            n == es@.len(),
            d.wf(),
            forall|k: int| 0 <= k < es@.len() ==> (#[trigger] es@[k]).1.wf(),
            sum == spec_col_sum(es@.subrange(0, i as int), *d),
        decreases n - i,
    {
        let tx = &es[i].1;
        proof {
            assert(es@.subrange(0, i + 1).drop_last() =~= es@.subrange(0, i as int));
            assert(es@.subrange(0, i + 1).last() == es@[i as int]);
        }
        if tx.is_active_on(d) {
            let t12 = tx.total12();
            let dur = tx.get_duration_days();
            let q = t12 / (dur as u128);
            sum = match sum.checked_add(q) {
                Some(s2) => s2,
                None => {
                    proof {
                        lemma_col_sum_prefix_le(es@, *d, i + 1);
                    }
                    return None;
                },
            };
        }
        i = i + 1;
    }
    proof {
        assert(es@.subrange(0, n as int) =~= es@);
    }
    Some(from_val12_scale2((sum / 10_000_000_000) * 10_000_000_000))
}

/// Prefix sums never exceed the whole sum.
proof fn lemma_col_sum_prefix_le(es: Seq<(Vec<u8>, TxRecord)>, d: Date, k: int)
    requires
        0 <= k <= es.len(),
        forall|i: int| 0 <= i < es.len() ==> (#[trigger] es[i]).1.wf(),
    ensures
        spec_col_sum(es.subrange(0, k), d) <= spec_col_sum(es, d),
    decreases es.len() - k,
{
    if k < es.len() {
        assert(es.subrange(0, k + 1).drop_last() =~= es.subrange(0, k));
        assert(es.subrange(0, k + 1).last() == es[k]);
        if spec_active(es[k].1, d) {
            lemma_pd12_nonneg(es[k].1);
        }
        lemma_col_sum_prefix_le(es, d, k + 1);
    } else {
        assert(es.subrange(0, k) =~= es);
    }
}

/// The total cost of life of a plain record collection (each record must
/// be well formed).
pub fn cost_of_life(txs: &Vec<TxRecord>, on: &Date) -> (r: Option<Decimal>)
    requires
        forall|i: int| 0 <= i < txs@.len() ==> (#[trigger] txs@[i]).wf(),
        on.wf(),
    ensures
        match r {
            Some(c) => c.wf() && !c.neg && c.val12() == spec_trunc2(spec_txs_sum(txs@, *on)),
            None => spec_txs_sum(txs@, *on) > u128::MAX,
        },
{
    let n = txs.len();
    let mut sum: u128 = 0;
    let mut i: usize = 0;
    while i < n
        invariant
            i <= n,
            n == txs@.len(),
            on.wf(),
            forall|k: int| 0 <= k < txs@.len() ==> (#[trigger] txs@[k]).wf(),
            sum == spec_txs_sum(txs@.subrange(0, i as int), *on),
        decreases n - i,
    {
        let tx = &txs[i];
        proof {
            assert(txs@.subrange(0, i + 1).drop_last() =~= txs@.subrange(0, i as int));
            assert(txs@.subrange(0, i + 1).last() == txs@[i as int]);
        }
        if tx.is_active_on(on) {
            let t12 = tx.total12();
            let dur = tx.get_duration_days();
            let q = t12 / (dur as u128);
            sum = match sum.checked_add(q) {
                Some(s2) => s2,
                None => {
                    proof {
                        lemma_txs_sum_prefix_le(txs@, *on, i + 1);
                    }
                    return None;
                },
            };
        }
        i = i + 1;
    }
    proof {
        assert(txs@.subrange(0, n as int) =~= txs@);
    }
    Some(from_val12_scale2((sum / 10_000_000_000) * 10_000_000_000))
}

/// Sum of raw per-diems over the active records of a plain collection.
pub open spec fn spec_txs_sum(ts: Seq<TxRecord>, d: Date) -> int
    decreases ts.len(),
{
    if ts.len() == 0 {
        0
    } else {
        spec_txs_sum(ts.drop_last(), d) + if spec_active(ts.last(), d) {
            spec_pd12(ts.last())
        } else {
            0
        }
    }
}

proof fn lemma_txs_sum_prefix_le(ts: Seq<TxRecord>, d: Date, k: int)
    requires
        0 <= k <= ts.len(),
        forall|i: int| 0 <= i < ts.len() ==> (#[trigger] ts[i]).wf(),
    ensures
        spec_txs_sum(ts.subrange(0, k), d) <= spec_txs_sum(ts, d),
    decreases ts.len() - k,
{
    if k < ts.len() {
        assert(ts.subrange(0, k + 1).drop_last() =~= ts.subrange(0, k));
        assert(ts.subrange(0, k + 1).last() == ts[k]);
        if spec_active(ts[k], d) {
            lemma_pd12_nonneg(ts[k]);
        }
        lemma_txs_sum_prefix_le(ts, d, k + 1);
    } else {
        assert(ts.subrange(0, k) =~= ts);
    }
}

// ---------------------------------------------------------------------------
// summary
// ---------------------------------------------------------------------------

/// One row of the per-record summary: name, total amount, per-diem, and
/// the progress ratio as elapsed and total days.
pub struct SummaryRow {
    pub name: String,
    pub total: Decimal,
    pub per_diem: Decimal,
    pub p_num: u64,
    pub p_den: u64,
}

/// The abstract content of a row: the name and the `10^12`-scaled total,
/// per-diem and progress pair.
pub open spec fn spec_row_view(r: SummaryRow) -> (Seq<char>, int, int, int, int) {
    (r.name@, r.total.val12(), r.per_diem.val12(), r.p_num as int, r.p_den as int)
}

pub open spec fn row_views(rs: Seq<SummaryRow>) -> Seq<(Seq<char>, int, int, int, int)> {
    rs.map_values(|r: SummaryRow| spec_row_view(r))
}

/// The row an active record contributes: its name, total, two-decimal
/// per-diem and progress at `d`.
pub open spec fn spec_entry_row(tx: TxRecord, d: Date) -> (Seq<char>, int, int, int, int) {
    (
        tx.name@,
        tx.spec_total12(),
        spec_trunc2(spec_pd12(tx)),
        crate::record::spec_progress_pair(tx, d).0,
        crate::record::spec_progress_pair(tx, d).1,
    )
}

/// The summary rows of the active records, one per record, in store order.
pub open spec fn spec_summary_rows(es: Seq<(Vec<u8>, TxRecord)>, d: Date) -> Seq<
    (Seq<char>, int, int, int, int),
>
    decreases es.len(),
{
    if es.len() == 0 {
        seq![]
    } else {
        spec_summary_rows(es.drop_last(), d) + if spec_active(es.last().1, d) {
            seq![spec_entry_row(es.last().1, d)]
        } else {
            seq![]
        }
    }
}

/// There is exactly one summary row per active record.
pub proof fn lemma_summary_rows_len(es: Seq<(Vec<u8>, TxRecord)>, d: Date)
    ensures
        spec_summary_rows(es, d).len() == spec_active_count(es, d),
    decreases es.len(),
{
    if es.len() > 0 {
        lemma_summary_rows_len(es.drop_last(), d);
    }
}

/// The value-level facts every produced row carries.
pub open spec fn spec_row_wf(r: SummaryRow) -> bool {
    &&& r.total.wf()
    &&& !r.total.neg
    &&& r.per_diem.wf()
    &&& !r.per_diem.neg
    &&& r.per_diem.scale <= 2
    &&& 1 <= r.p_den
    &&& r.p_num <= r.p_den
}

/// Row `a` sorts at or before row `b`: progress descending, compared as
/// exact fractions.
pub open spec fn spec_row_ge(a: SummaryRow, b: SummaryRow) -> bool {
    a.p_num * b.p_den >= b.p_num * a.p_den
}

/// Builds the summary rows of the active records, in store order.
#[verifier::rlimit(100)]
#[verifier::spinoff_prover]
fn collect_rows(es: &Vec<(Vec<u8>, TxRecord)>, d: &Date) -> (rows: Vec<SummaryRow>)
    requires
        forall|i: int| 0 <= i < es@.len() ==> (#[trigger] es@[i]).1.wf(),
        d.wf(),
    ensures
        row_views(rows@) == spec_summary_rows(es@, *d),
        forall|k: int| 0 <= k < rows@.len() ==> spec_row_wf(#[trigger] rows@[k]),
{
    let n = es.len();
    let mut rows: Vec<SummaryRow> = Vec::new();
    let mut i: usize = 0;
    proof {
        assert(es@.subrange(0, 0) =~= Seq::<(Vec<u8>, TxRecord)>::empty());
        assert(row_views(rows@) =~= spec_summary_rows(es@.subrange(0, 0), *d));
    }
    while i < n
        invariant
            i <= n,
            n == es@.len(),
            d.wf(),
            forall|k: int| 0 <= k < es@.len() ==> (#[trigger] es@[k]).1.wf(),
            row_views(rows@) == spec_summary_rows(es@.subrange(0, i as int), *d),
            forall|k: int| 0 <= k < rows@.len() ==> spec_row_wf(#[trigger] rows@[k]),
        decreases n - i,
    {
        let tx = &es[i].1;
        proof {
            assert(es@.subrange(0, i + 1).drop_last() =~= es@.subrange(0, i as int));
            assert(es@.subrange(0, i + 1).last() == es@[i as int]);
        }
        if tx.is_active_on(d) {
            let (p_num, p_den) = tx.get_progress_on(d);
            let name = tx.get_name().to_owned();
            let total = tx.get_amount_total();
            let per_diem = tx.per_diem();
            let row = SummaryRow { name, total, per_diem, p_num, p_den };
            proof {
                assert(spec_row_view(row) == spec_entry_row(es@[i as int].1, *d));
            }
            rows.push(row);
            proof {
                assert(row_views(rows@) =~= spec_summary_rows(es@.subrange(0, i + 1), *d));
            }
        }
        i = i + 1;
    }
    proof {
        assert(es@.subrange(0, n as int) =~= es@);
    }
    rows
}

/// Sorts rows by descending progress (selection of the maximum): the
/// result holds exactly the input rows, by content.
#[verifier::rlimit(100)]
#[verifier::spinoff_prover]
fn sort_rows_desc(rows: Vec<SummaryRow>) -> (r: Vec<SummaryRow>)
    requires
        forall|i: int| 0 <= i < rows@.len() ==> spec_row_wf(#[trigger] rows@[i]),
    ensures
        r@.len() == rows@.len(),
        forall|i: int, j: int| 0 <= i < j < r@.len() ==> #[trigger] spec_row_ge(r@[i], r@[j]),
        row_views(r@).to_multiset() == row_views(rows@).to_multiset(),
        forall|i: int| 0 <= i < r@.len() ==> spec_row_wf(#[trigger] r@[i]),
{
    let mut src = rows;
    let ghost rows0 = src@;
    let mut out: Vec<SummaryRow> = Vec::new();
    proof {
        broadcast use vstd::seq_lib::group_to_multiset_ensures;

        assert(row_views(out@) =~= Seq::<(Seq<char>, int, int, int, int)>::empty());
        assert(row_views(out@).to_multiset().add(row_views(src@).to_multiset()) =~= row_views(
            rows0,
        ).to_multiset());
    }
    while src.len() > 0
        invariant
            out@.len() + src@.len() == rows0.len(),
            forall|i: int, j: int|
                0 <= i < j < out@.len() ==> #[trigger] spec_row_ge(out@[i], out@[j]),
            forall|i: int, j: int|
                0 <= i < out@.len() && 0 <= j < src@.len() ==> spec_row_ge(
                    (#[trigger] out@[i]),
                    (#[trigger] src@[j]),
                ),
            forall|i: int| 0 <= i < out@.len() ==> spec_row_wf(#[trigger] out@[i]),
            forall|i: int| 0 <= i < src@.len() ==> spec_row_wf(#[trigger] src@[i]),
            row_views(out@).to_multiset().add(row_views(src@).to_multiset()) == row_views(
                rows0,
            ).to_multiset(),
        decreases src@.len(),
    {
        let m = src.len();
        let mut best: usize = 0;
        let mut j: usize = 1;
        proof {
            assert(spec_row_ge(src@[0], src@[0]));
        }
        while j < m
            invariant
                best < m,
                1 <= j <= m,
                m == src@.len(),
                forall|i: int| 0 <= i < src@.len() ==> spec_row_wf(#[trigger] src@[i]),
                forall|k: int| 0 <= k < j ==> spec_row_ge(src@[best as int], #[trigger] src@[k]),
            decreases m - j,
        {
            if row_ge(&src[j], &src[best]) {
                proof {
                    assert forall|k: int| 0 <= k < j + 1 implies spec_row_ge(
                        src@[j as int],
                        #[trigger] src@[k],
                    ) by {
                        if k < j {
                            lemma_row_ge_trans(src@[j as int], src@[best as int], src@[k]);
                        } else {
                            assert(spec_row_ge(src@[j as int], src@[j as int]));
                        }
                    }
                }
                best = j;
            }
            j = j + 1;
        }
        let ghost old_src = src@;
        let ghost old_out = out@;
        let x = src.remove(best);
        out.push(x);
        proof {
            broadcast use vstd::seq_lib::group_to_multiset_ensures;

            assert(x == old_src[best as int]);
            assert(row_views(src@) =~= row_views(old_src).remove(best as int));
            assert(row_views(out@) =~= row_views(old_out).push(spec_row_view(x)));
            assert(row_views(old_src)[best as int] == spec_row_view(x));
            assert(row_views(src@).to_multiset() =~= row_views(old_src).to_multiset().remove(
                spec_row_view(x),
            ));
            assert(row_views(out@).to_multiset() =~= row_views(old_out).to_multiset().insert(
                spec_row_view(x),
            ));
            assert(row_views(old_src).to_multiset().count(spec_row_view(x)) > 0) by {
                assert(row_views(old_src).contains(spec_row_view(x)));
            }
            assert(row_views(out@).to_multiset().add(row_views(src@).to_multiset())
                =~= row_views(rows0).to_multiset());
            assert forall|i: int| 0 <= i < src@.len() implies spec_row_wf(
                #[trigger] src@[i],
            ) by {
                if i < best {
                    assert(src@[i] == old_src[i]);
                } else {
                    assert(src@[i] == old_src[i + 1]);
                }
            }
            assert forall|i: int, j2: int|
                0 <= i < out@.len() && 0 <= j2 < src@.len() implies spec_row_ge(
                (#[trigger] out@[i]),
                (#[trigger] src@[j2]),
            ) by {
                let o: int = if j2 < best {
                    j2
                } else {
                    j2 + 1
                };
                assert(src@[j2] == old_src[o]);
                if i == out@.len() - 1 {
                    assert(out@[i] == x);
                    assert(spec_row_ge(x, old_src[o]));
                } else {
                    assert(out@[i] == old_out[i]);
                }
            }
            assert forall|i: int, j2: int|
                0 <= i < j2 < out@.len() implies #[trigger] spec_row_ge(out@[i], out@[j2]) by {
                if j2 == out@.len() - 1 {
                    assert(out@[j2] == x);
                    assert(out@[i] == old_out[i]);
                    assert(spec_row_ge(out@[i], old_src[best as int]));
                } else {
                    assert(out@[i] == old_out[i]);
                    assert(out@[j2] == old_out[j2]);
                }
            }
        }
    }
    proof {
        assert(row_views(src@) =~= Seq::<(Seq<char>, int, int, int, int)>::empty());
        assert(row_views(out@).to_multiset().add(row_views(src@).to_multiset()) =~= row_views(
            out@,
        ).to_multiset());
    }
    out
}

/// Decides `spec_row_ge(a, b)`.
fn row_ge(a: &SummaryRow, b: &SummaryRow) -> (r: bool)
    ensures
        r == spec_row_ge(*a, *b),
{
    proof {
        assert(a.p_num * b.p_den < 0x1_0000_0000_0000_0000_0000_0000_0000_0000)
            by (nonlinear_arith)
            requires
                a.p_num < 0x1_0000_0000_0000_0000 && b.p_den < 0x1_0000_0000_0000_0000,
        ;
        assert(b.p_num * a.p_den < 0x1_0000_0000_0000_0000_0000_0000_0000_0000)
            by (nonlinear_arith)
            requires
                b.p_num < 0x1_0000_0000_0000_0000 && a.p_den < 0x1_0000_0000_0000_0000,
        ;
    }
    (a.p_num as u128) * (b.p_den as u128) >= (b.p_num as u128) * (a.p_den as u128)
}

/// Larger-or-equal progress is transitive.
proof fn lemma_row_ge_trans(a: SummaryRow, b: SummaryRow, c: SummaryRow)
    requires
        spec_row_ge(a, b),
        spec_row_ge(b, c),
        b.p_den >= 1,
    ensures
        spec_row_ge(a, c),
{
    assert(a.p_num * c.p_den >= c.p_num * a.p_den) by (nonlinear_arith)
        requires
            a.p_num * b.p_den >= b.p_num * a.p_den,
            b.p_num * c.p_den >= c.p_num * b.p_den,
            a.p_den >= 0,
            b.p_den >= 0,
            c.p_den >= 0,
            a.p_num >= 0,
            b.p_num >= 0,
            c.p_num >= 0,
            b.p_den >= 1,
    ;
}

impl DataStore {
    /// The active records on `d`, one row each — name, total, two-decimal
    /// per-diem and progress — sorted by progress, most complete first.
    /// The returned rows are, as a multiset of contents, exactly the rows
    /// of the active records.
    pub fn summary(&self, d: &Date) -> (r: Vec<SummaryRow>)
        requires
            self.wf(),
            d.wf(),
        ensures
            r@.len() == spec_active_count(self.entries@, *d),
            forall|i: int, j: int| 0 <= i < j < r@.len() ==> #[trigger] spec_row_ge(r@[i], r@[j]),
            row_views(r@).to_multiset() == spec_summary_rows(self.entries@, *d).to_multiset(),
            forall|i: int| 0 <= i < r@.len() ==> spec_row_wf(#[trigger] r@[i]),
    {
        let rows = collect_rows(&self.entries, d);
        let r = sort_rows_desc(rows);
        proof {
            broadcast use vstd::seq_lib::group_to_multiset_ensures;

            lemma_summary_rows_len(self.entries@, *d);
            assert(row_views(rows@).to_multiset().len() == row_views(rows@).len());
            assert(row_views(r@).to_multiset().len() == row_views(r@).len());
        }
        r
    }
}

// ---------------------------------------------------------------------------
// tag rollup
// ---------------------------------------------------------------------------

/// One row of the tag rollup: label, number of active records carrying it,
/// and their accumulated two-decimal per-diems.
pub struct TagRow {
    pub tag: String,
    pub count: u64,
    pub total: Decimal,
}

/// The abstract content of a tag row: label, count, `10^12`-scaled total.
pub open spec fn spec_tagrow_view(r: TagRow) -> (Seq<char>, int, int) {
    (r.tag@, r.count as int, r.total.val12())
}

pub open spec fn tagrow_views(rs: Seq<TagRow>) -> Seq<(Seq<char>, int, int)> {
    rs.map_values(|r: TagRow| spec_tagrow_view(r))
}

/// Adds one label occurrence with per-diem `pd` to the aggregation: an
/// existing label is bumped in place, a new one appended; `None` when the
/// bumped count or sum leaves the machine range.
pub open spec fn spec_agg_add(
    acc: Seq<(Seq<char>, int, int)>,
    lbl: Seq<char>,
    pd: int,
) -> Option<Seq<(Seq<char>, int, int)>>
    decreases acc.len(),
{
    if acc.len() == 0 {
        Some(seq![(lbl, 1int, pd)])
    } else if acc[0].0 == lbl {
        if acc[0].1 + 1 > u64::MAX || acc[0].2 + pd > u128::MAX {
            None
        } else {
            Some(seq![(acc[0].0, acc[0].1 + 1, acc[0].2 + pd)] + acc.skip(1))
        }
    } else {
        match spec_agg_add(acc.skip(1), lbl, pd) {
            None => None,
            Some(t) => Some(seq![acc[0]] + t),
        }
    }
}

/// Folds the labels of one record, in order.
pub open spec fn spec_agg_labels(
    acc: Seq<(Seq<char>, int, int)>,
    ls: Seq<Seq<char>>,
    pd: int,
) -> Option<Seq<(Seq<char>, int, int)>>
    decreases ls.len(),
{
    if ls.len() == 0 {
        Some(acc)
    } else {
        match spec_agg_labels(acc, ls.drop_last(), pd) {
            None => None,
            Some(a) => spec_agg_add(a, ls.last(), pd),
        }
    }
}

/// The tag aggregation over the active entries, in store order: each
/// active record adds its two-decimal per-diem to each of its tags.
/// `None` exactly when some count or sum leaves the machine range along
/// the way.
pub open spec fn spec_tags_agg(es: Seq<(Vec<u8>, TxRecord)>, d: Date) -> Option<
    Seq<(Seq<char>, int, int)>,
>
    decreases es.len(),
{
    if es.len() == 0 {
        Some(seq![])
    } else {
        match spec_tags_agg(es.drop_last(), d) {
            None => None,
            Some(pre) => {
                if spec_active(es.last().1, d) {
                    spec_agg_labels(
                        pre,
                        crate::record::spec_sorted_labels(tag_views(es.last().1.tags@)),
                        spec_trunc2(spec_pd12(es.last().1)),
                    )
                } else {
                    Some(pre)
                }
            },
        }
    }
}

/// The views of aggregation entries.
pub open spec fn agg_views(ts: Seq<(String, u64, u128)>) -> Seq<(Seq<char>, int, int)> {
    ts.map_values(|p: (String, u64, u128)| (p.0@, p.1 as int, p.2 as int))
}

/// Adds one label with per-diem value `pd` to the vector, as the spec
/// does; `false` reports the overflow the spec marks with `None`.
fn agg_add(acc: &mut Vec<(String, u64, u128)>, lbl: &String, pd: u128) -> (ok: bool)
    ensures
        ok ==> spec_agg_add(agg_views(old(acc)@), lbl@, pd as int) == Some(
            agg_views(final (acc)@),
        ),
        !ok ==> spec_agg_add(agg_views(old(acc)@), lbl@, pd as int) is None && final (acc)@
            == old(acc)@,
{
    let n = acc.len();
    let mut i: usize = 0;
    while i < n
        invariant
            i <= n,
            n == acc@.len(),
            acc@ == old(acc)@,
            forall|k: int| 0 <= k < i ==> (#[trigger] agg_views(acc@)[k]).0 != lbl@,
        decreases n - i,
    {
        if acc[i].0.eq(lbl) {
            proof {
                assert(agg_views(acc@)[i as int].0 == lbl@);
                lemma_agg_add_at(agg_views(old(acc)@), lbl@, pd as int, i as int);
            }
            let c2 = match acc[i].1.checked_add(1) {
                Some(c) => c,
                None => {
                    return false;
                },
            };
            let s2 = match acc[i].2.checked_add(pd) {
                Some(sv) => sv,
                None => {
                    return false;
                },
            };
            let name2 = acc[i].0.clone();
            acc.set(i, (name2, c2, s2));
            proof {
                assert(agg_views(acc@) =~= agg_views(old(acc)@).update(
                    i as int,
                    (lbl@, old(acc)@[i as int].1 + 1, old(acc)@[i as int].2 + pd),
                ));
            }
            return true;
        }
        proof {
            assert(agg_views(acc@)[i as int].0 == acc@[i as int].0@);
        }
        i = i + 1;
    }
    acc.push((lbl.clone(), 1, pd));
    proof {
        lemma_agg_add_append(agg_views(old(acc)@), lbl@, pd as int);
        assert(agg_views(acc@) =~= agg_views(old(acc)@).push((lbl@, 1int, pd as int)));
    }
    true
}

/// When the label sits at `i`, adding is an in-place bump (or the
/// overflow case).
proof fn lemma_agg_add_at(acc: Seq<(Seq<char>, int, int)>, lbl: Seq<char>, pd: int, i: int)
    requires
        0 <= i < acc.len(),
        acc[i].0 == lbl,
        forall|k: int| 0 <= k < i ==> (#[trigger] acc[k]).0 != lbl,
    ensures
        spec_agg_add(acc, lbl, pd) == if acc[i].1 + 1 > u64::MAX || acc[i].2 + pd > u128::MAX {
            None
        } else {
            Some(acc.update(i, (lbl, acc[i].1 + 1, acc[i].2 + pd)))
        },
    decreases i,
{
    if i == 0 {
        if !(acc[0].1 + 1 > u64::MAX || acc[0].2 + pd > u128::MAX) {
            assert(seq![(acc[0].0, acc[0].1 + 1, acc[0].2 + pd)] + acc.skip(1) =~= acc.update(
                0,
                (lbl, acc[0].1 + 1, acc[0].2 + pd),
            ));
        }
    } else {
        let tail = acc.skip(1);
        assert(tail[i - 1].0 == lbl);
        assert forall|k: int| 0 <= k < i - 1 implies (#[trigger] tail[k]).0 != lbl by {
            assert(tail[k] == acc[k + 1]);
        }
        lemma_agg_add_at(tail, lbl, pd, i - 1);
        if !(acc[i].1 + 1 > u64::MAX || acc[i].2 + pd > u128::MAX) {
            assert(seq![acc[0]] + tail.update(i - 1, (lbl, tail[i - 1].1 + 1, tail[i - 1].2 + pd))
                =~= acc.update(i, (lbl, acc[i].1 + 1, acc[i].2 + pd)));
        }
    }
}

/// When the label is absent, adding is an append (never an overflow).
proof fn lemma_agg_add_append(acc: Seq<(Seq<char>, int, int)>, lbl: Seq<char>, pd: int)
    requires
        forall|k: int| 0 <= k < acc.len() ==> (#[trigger] acc[k]).0 != lbl,
    ensures
        spec_agg_add(acc, lbl, pd) == Some(acc.push((lbl, 1int, pd))),
    decreases acc.len(),
{
    if acc.len() == 0 {
        assert(seq![(lbl, 1int, pd)] =~= acc.push((lbl, 1int, pd)));
    } else {
        let tail = acc.skip(1);
        assert forall|k: int| 0 <= k < tail.len() implies (#[trigger] tail[k]).0 != lbl by {
            assert(tail[k] == acc[k + 1]);
        }
        lemma_agg_add_append(tail, lbl, pd);
        assert(seq![acc[0]] + tail.push((lbl, 1int, pd)) =~= acc.push((lbl, 1int, pd)));
    }
}

/// A failed label fold stays failed however many labels follow.
proof fn lemma_agg_labels_none_sticks(
    acc: Seq<(Seq<char>, int, int)>,
    ls: Seq<Seq<char>>,
    k: int,
    pd: int,
)
    requires
        0 <= k <= ls.len(),
        spec_agg_labels(acc, ls.subrange(0, k), pd) is None,
    ensures
        spec_agg_labels(acc, ls, pd) is None,
    decreases ls.len() - k,
{
    if k == ls.len() {
        assert(ls.subrange(0, k) =~= ls);
    } else {
        assert(ls.subrange(0, k + 1).drop_last() =~= ls.subrange(0, k));
        lemma_agg_labels_none_sticks(acc, ls, k + 1, pd);
    }
}

/// A failed aggregation stays failed however many entries follow.
proof fn lemma_tags_agg_none_sticks(es: Seq<(Vec<u8>, TxRecord)>, d: Date, i: int)
    requires
        0 <= i <= es.len(),
        spec_tags_agg(es.subrange(0, i), d) is None,
    ensures
        spec_tags_agg(es, d) is None,
    decreases es.len() - i,
{
    if i == es.len() {
        assert(es.subrange(0, i) =~= es);
    } else {
        assert(es.subrange(0, i + 1).drop_last() =~= es.subrange(0, i));
        lemma_tags_agg_none_sticks(es, d, i + 1);
    }
}

/// Two-decimal truncation always lands on a multiple of `10^10`.
proof fn lemma_trunc2_multiple(v: int)
    ensures
        spec_trunc2(v) % 10_000_000_000 == 0,
{
    if v >= 0 {
        vstd::arithmetic::div_mod::lemma_mod_multiples_basic(v / 10_000_000_000, 10_000_000_000);
    } else {
        let k = (-v) / 10_000_000_000;
        vstd::arithmetic::div_mod::lemma_mod_multiples_basic(-k, 10_000_000_000);
        assert((-k) * 10_000_000_000 == -(k * 10_000_000_000)) by (nonlinear_arith);
    }
}

/// Adding a multiple of `10^10` to sums that are multiples keeps them so.
proof fn lemma_agg_add_mult(acc: Seq<(Seq<char>, int, int)>, lbl: Seq<char>, pd: int)
    requires
        forall|k: int| 0 <= k < acc.len() ==> (#[trigger] acc[k]).2 % 10_000_000_000 == 0,
        pd % 10_000_000_000 == 0,
    ensures
        match spec_agg_add(acc, lbl, pd) {
            Some(res) => forall|k: int|
                0 <= k < res.len() ==> (#[trigger] res[k]).2 % 10_000_000_000 == 0,
            None => true,
        },
    decreases acc.len(),
{
    if acc.len() == 0 {
        match spec_agg_add(acc, lbl, pd) {
            Some(res) => {
                assert forall|k: int|
                    0 <= k < res.len() implies (#[trigger] res[k]).2 % 10_000_000_000 == 0 by {
                    assert(res[k].2 == pd);
                }
            },
            None => {},
        }
    } else if acc[0].0 == lbl {
        match spec_agg_add(acc, lbl, pd) {
            Some(res) => {
                vstd::arithmetic::div_mod::lemma_add_mod_noop(
                    acc[0].2,
                    pd,
                    10_000_000_000,
                );
                assert forall|k: int|
                    0 <= k < res.len() implies (#[trigger] res[k]).2 % 10_000_000_000 == 0 by {
                    if k > 0 {
                        assert(res[k] == acc[k]);
                    }
                }
            },
            None => {},
        }
    } else {
        let tail = acc.skip(1);
        assert forall|k: int|
            0 <= k < tail.len() implies (#[trigger] tail[k]).2 % 10_000_000_000 == 0 by {
            assert(tail[k] == acc[k + 1]);
        }
        lemma_agg_add_mult(tail, lbl, pd);
        match spec_agg_add(acc, lbl, pd) {
            Some(res) => {
                let sub = spec_agg_add(tail, lbl, pd).unwrap();
                assert forall|k: int|
                    0 <= k < res.len() implies (#[trigger] res[k]).2 % 10_000_000_000 == 0 by {
                    if k == 0 {
                        assert(res[0] == acc[0]);
                    } else {
                        assert(res[k] == sub[k - 1]);
                    }
                }
            },
            None => {},
        }
    }
}

/// The label fold keeps sums multiples of `10^10`.
proof fn lemma_agg_labels_mult(acc: Seq<(Seq<char>, int, int)>, ls: Seq<Seq<char>>, pd: int)
    requires
        forall|k: int| 0 <= k < acc.len() ==> (#[trigger] acc[k]).2 % 10_000_000_000 == 0,
        pd % 10_000_000_000 == 0,
    ensures
        match spec_agg_labels(acc, ls, pd) {
            Some(res) => forall|k: int|
                0 <= k < res.len() ==> (#[trigger] res[k]).2 % 10_000_000_000 == 0,
            None => true,
        },
    decreases ls.len(),
{
    if ls.len() > 0 {
        lemma_agg_labels_mult(acc, ls.drop_last(), pd);
        match spec_agg_labels(acc, ls.drop_last(), pd) {
            None => {},
            Some(a) => {
                lemma_agg_add_mult(a, ls.last(), pd);
            },
        }
    }
}

/// Every accumulated sum is a multiple of `10^10`: only two-decimal
/// per-diems are ever added.
proof fn lemma_tags_agg_mult(es: Seq<(Vec<u8>, TxRecord)>, d: Date)
    ensures
        match spec_tags_agg(es, d) {
            Some(agg) => forall|k: int|
                0 <= k < agg.len() ==> (#[trigger] agg[k]).2 % 10_000_000_000 == 0,
            None => true,
        },
    decreases es.len(),
{
    if es.len() > 0 {
        lemma_tags_agg_mult(es.drop_last(), d);
        match spec_tags_agg(es.drop_last(), d) {
            None => {},
            Some(pre) => {
                if spec_active(es.last().1, d) {
                    lemma_trunc2_multiple(spec_pd12(es.last().1));
                    lemma_agg_labels_mult(
                        pre,
                        crate::record::spec_sorted_labels(tag_views(es.last().1.tags@)),
                        spec_trunc2(spec_pd12(es.last().1)),
                    );
                }
            },
        }
    }
}

/// Labels of an aggregation are pairwise distinct.
pub open spec fn spec_agg_distinct(agg: Seq<(Seq<char>, int, int)>) -> bool {
    forall|i: int, j: int|
        0 <= i < j < agg.len() ==> (#[trigger] agg[i]).0 != (#[trigger] agg[j]).0
}

/// Adding an occurrence keeps labels distinct, and introduces no label
/// beyond the added one.
proof fn lemma_agg_add_distinct(acc: Seq<(Seq<char>, int, int)>, lbl: Seq<char>, pd: int)
    requires
        spec_agg_distinct(acc),
    ensures
        match spec_agg_add(acc, lbl, pd) {
            Some(res) => spec_agg_distinct(res) && forall|k: int|
                0 <= k < res.len() ==> (#[trigger] res[k]).0 == lbl || exists|i: int|
                    0 <= i < acc.len() && (#[trigger] acc[i]).0 == res[k].0,
            None => true,
        },
    decreases acc.len(),
{
    if acc.len() == 0 {
        match spec_agg_add(acc, lbl, pd) {
            Some(res) => {
                assert(res[0].0 == lbl);
            },
            None => {},
        }
    } else if acc[0].0 == lbl {
        match spec_agg_add(acc, lbl, pd) {
            Some(res) => {
                assert forall|i: int, j: int|
                    0 <= i < j < res.len() implies (#[trigger] res[i]).0 != (
                #[trigger] res[j]).0 by {
                    assert(res[j] == acc[j]);
                    if i > 0 {
                        assert(res[i] == acc[i]);
                    } else {
                        assert(res[0].0 == acc[0].0);
                    }
                }
                assert forall|k: int|
                    0 <= k < res.len() implies (#[trigger] res[k]).0 == lbl || exists|i: int|
                    0 <= i < acc.len() && (#[trigger] acc[i]).0 == res[k].0 by {
                    if k > 0 {
                        assert(res[k] == acc[k]);
                        assert(acc[k].0 == res[k].0);
                    }
                }
            },
            None => {},
        }
    } else {
        let tail = acc.skip(1);
        assert forall|i: int, j: int|
            0 <= i < j < tail.len() implies (#[trigger] tail[i]).0 != (#[trigger] tail[j]).0 by {
            assert(tail[i] == acc[i + 1]);
            assert(tail[j] == acc[j + 1]);
        }
        lemma_agg_add_distinct(tail, lbl, pd);
        match spec_agg_add(acc, lbl, pd) {
            Some(res) => {
                let sub = spec_agg_add(tail, lbl, pd).unwrap();
                assert forall|k: int|
                    0 <= k < res.len() implies (#[trigger] res[k]).0 == lbl || exists|i: int|
                    0 <= i < acc.len() && (#[trigger] acc[i]).0 == res[k].0 by {
                    if k == 0 {
                        assert(acc[0].0 == res[0].0);
                    } else {
                        assert(res[k] == sub[k - 1]);
                        if sub[k - 1].0 != lbl {
                            let i = choose|i: int|
                                0 <= i < tail.len() && (#[trigger] tail[i]).0 == sub[k - 1].0;
                            assert(acc[i + 1].0 == res[k].0);
                        }
                    }
                }
                assert forall|i: int, j: int|
                    0 <= i < j < res.len() implies (#[trigger] res[i]).0 != (
                #[trigger] res[j]).0 by {
                    if i == 0 {
                        assert(res[j] == sub[j - 1]);
                        if sub[j - 1].0 != lbl {
                            let k = choose|k: int|
                                0 <= k < tail.len() && (#[trigger] tail[k]).0 == sub[j - 1].0;
                            assert(acc[k + 1].0 == sub[j - 1].0);
                        }
                    } else {
                        assert(res[i] == sub[i - 1]);
                        assert(res[j] == sub[j - 1]);
                    }
                }
            },
            None => {},
        }
    }
}

/// The label fold keeps labels distinct.
proof fn lemma_agg_labels_distinct(acc: Seq<(Seq<char>, int, int)>, ls: Seq<Seq<char>>, pd: int)
    requires
        spec_agg_distinct(acc),
    ensures
        match spec_agg_labels(acc, ls, pd) {
            Some(res) => spec_agg_distinct(res),
            None => true,
        },
    decreases ls.len(),
{
    if ls.len() > 0 {
        lemma_agg_labels_distinct(acc, ls.drop_last(), pd);
        match spec_agg_labels(acc, ls.drop_last(), pd) {
            None => {},
            Some(a) => {
                lemma_agg_add_distinct(a, ls.last(), pd);
            },
        }
    }
}

/// The rollup holds one entry per distinct tag: its labels are pairwise
/// distinct, so the multiset the rows reproduce has exactly one row per
/// tag of the active records.
pub proof fn law_tags_agg_distinct(es: Seq<(Vec<u8>, TxRecord)>, d: Date)
    ensures
        match spec_tags_agg(es, d) {
            Some(agg) => spec_agg_distinct(agg),
            None => true,
        },
    decreases es.len(),
{
    if es.len() > 0 {
        law_tags_agg_distinct(es.drop_last(), d);
        match spec_tags_agg(es.drop_last(), d) {
            None => {},
            Some(pre) => {
                if spec_active(es.last().1, d) {
                    lemma_agg_labels_distinct(
                        pre,
                        crate::record::spec_sorted_labels(tag_views(es.last().1.tags@)),
                        spec_trunc2(spec_pd12(es.last().1)),
                    );
                }
            },
        }
    }
}

/// Folds the active entries into the tag aggregation; `None` exactly when
/// a count or a sum leaves the machine range.
#[verifier::rlimit(100)]
#[verifier::spinoff_prover]
fn aggregate_tags(es: &Vec<(Vec<u8>, TxRecord)>, d: &Date) -> (r: Option<Vec<(String, u64, u128)>>)
    requires
        forall|i: int| 0 <= i < es@.len() ==> (#[trigger] es@[i]).1.wf(),
        d.wf(),
    ensures
        match r {
            Some(acc) => spec_tags_agg(es@, *d) == Some(agg_views(acc@)),
            None => spec_tags_agg(es@, *d) is None,
        },
{
    let n = es.len();
    let mut acc: Vec<(String, u64, u128)> = Vec::new();
    let mut i: usize = 0;
    proof {
        assert(es@.subrange(0, 0) =~= Seq::<(Vec<u8>, TxRecord)>::empty());
        assert(agg_views(acc@) =~= Seq::<(Seq<char>, int, int)>::empty());
    }
    while i < n
        invariant
            i <= n,
            n == es@.len(),
            d.wf(),
            forall|k: int| 0 <= k < es@.len() ==> (#[trigger] es@[k]).1.wf(),
            spec_tags_agg(es@.subrange(0, i as int), *d) == Some(agg_views(acc@)),
        decreases n - i,
    {
        let tx = &es[i].1;
        proof {
            assert(es@.subrange(0, i + 1).drop_last() =~= es@.subrange(0, i as int));
            assert(es@.subrange(0, i + 1).last() == es@[i as int]);
        }
        if tx.is_active_on(d) {
            let pdd = tx.per_diem();
            let pd = crate::decimal::val12_u128(&pdd);
            let labels = tx.get_tags();
            let ln = labels.len();
            let mut k: usize = 0;
            let ghost lv = crate::record::views_of_strings(labels@);
            let ghost acc0 = agg_views(acc@);
            proof {
                assert(lv.subrange(0, 0) =~= Seq::<Seq<char>>::empty());
            }
            while k < ln
                invariant
                    k <= ln,
                    ln == labels@.len(),
                    i < n,
                    n == es@.len(),
                    d.wf(),
                    lv == crate::record::views_of_strings(labels@),
                    lv == crate::record::spec_sorted_labels(tag_views(es@[i as int].1.tags@)),
                    spec_active(es@[i as int].1, *d),
                    pd == spec_trunc2(spec_pd12(es@[i as int].1)),
                    spec_tags_agg(es@.subrange(0, i as int), *d) == Some(acc0),
                    spec_agg_labels(acc0, lv.subrange(0, k as int), pd as int) == Some(
                        agg_views(acc@),
                    ),
                decreases ln - k,
            {
                proof {
                    assert(lv.subrange(0, k + 1).drop_last() =~= lv.subrange(0, k as int));
                    assert(lv.subrange(0, k + 1).last() == lv[k as int]);
                    assert(lv[k as int] == labels@[k as int]@);
                }
                let ok = agg_add(&mut acc, &labels[k], pd);
                if !ok {
                    proof {
                        assert(spec_agg_labels(acc0, lv.subrange(0, k + 1), pd as int) is None);
                        lemma_agg_labels_none_sticks(acc0, lv, k + 1, pd as int);
                        assert(es@.subrange(0, i + 1).drop_last() =~= es@.subrange(0, i as int));
                        assert(es@.subrange(0, i + 1).last() == es@[i as int]);
                        assert(spec_tags_agg(es@.subrange(0, i + 1), *d) is None);
                        lemma_tags_agg_none_sticks(es@, *d, i + 1);
                    }
                    return None;
                }
                k = k + 1;
            }
            proof {
                assert(lv.subrange(0, ln as int) =~= lv);
            }
        }
        i = i + 1;
    }
    proof {
        assert(es@.subrange(0, n as int) =~= es@);
    }
    Some(acc)
}

/// Renders the sorted aggregation entries as tag rows.
#[verifier::rlimit(100)]
#[verifier::spinoff_prover]
fn tag_rows_of(sorted: &Vec<(String, u64, u128)>, Ghost(agg): Ghost<Seq<(Seq<char>, int, int)>>) -> (rows: Vec<
    TagRow,
>)
    requires
        forall|k: int| 0 <= k < agg.len() ==> (#[trigger] agg[k]).2 % 10_000_000_000 == 0,
        forall|k: int|
            #![trigger sorted@[k]]
            0 <= k < sorted@.len() ==> agg.contains(
                (sorted@[k].0@, sorted@[k].1 as int, sorted@[k].2 as int),
            ),
    ensures
        rows@.len() == sorted@.len(),
        tagrow_views(rows@) == agg_views(sorted@),
        forall|k: int|
            0 <= k < rows@.len() ==> (#[trigger] rows@[k]).total.wf() && !rows@[k].total.neg
                && rows@[k].total.val12() == sorted@[k].2,
{
    let an = sorted.len();
    let mut rows: Vec<TagRow> = Vec::new();
    let mut j: usize = 0;
    proof {
        assert(tagrow_views(rows@) =~= agg_views(sorted@).subrange(0, 0));
    }
    while j < an
        invariant
            j <= an,
            an == sorted@.len(),
            forall|k: int| 0 <= k < agg.len() ==> (#[trigger] agg[k]).2 % 10_000_000_000 == 0,
            forall|k: int|
                #![trigger sorted@[k]]
                0 <= k < sorted@.len() ==> agg.contains(
                    (sorted@[k].0@, sorted@[k].1 as int, sorted@[k].2 as int),
                ),
            rows@.len() == j,
            tagrow_views(rows@) =~= agg_views(sorted@).subrange(0, j as int),
            forall|k: int|
                0 <= k < j ==> (#[trigger] rows@[k]).total.wf() && !rows@[k].total.neg
                    && rows@[k].total.val12() == sorted@[k].2,
        decreases an - j,
    {
        proof {
            assert(agg.contains(
                (sorted@[j as int].0@, sorted@[j as int].1 as int, sorted@[j as int].2 as int),
            ));
            let w = choose|w: int|
                0 <= w < agg.len() && agg[w] == (
                    sorted@[j as int].0@,
                    sorted@[j as int].1 as int,
                    sorted@[j as int].2 as int,
                );
            assert(agg[w].2 % 10_000_000_000 == 0);
        }
        let total = from_val12_scale2(sorted[j].2);
        let row = TagRow { tag: sorted[j].0.clone(), count: sorted[j].1, total };
        proof {
            assert(spec_tagrow_view(row) == agg_views(sorted@)[j as int]);
        }
        rows.push(row);
        proof {
            assert(tagrow_views(rows@) =~= agg_views(sorted@).subrange(0, j + 1));
        }
        j = j + 1;
    }
    proof {
        assert(agg_views(sorted@).subrange(0, an as int) =~= agg_views(sorted@));
    }
    rows
}

impl DataStore {
    /// The per-tag rollup on `d`: for each tag of an active record, how
    /// many active records carry it and their accumulated two-decimal
    /// per-diems, sorted with the costliest tags first.  The returned
    /// rows are, as a multiset of contents, exactly the aggregation the
    /// active records build, one row per distinct tag.  `None` exactly
    /// when a count or a sum leaves the machine range.
    pub fn tags(&self, d: &Date) -> (r: Option<Vec<TagRow>>)
        requires
            self.wf(),
            d.wf(),
        ensures
            match r {
                Some(rows) => spec_tags_agg(self.entries@, *d) is Some && ({
                    let agg = spec_tags_agg(self.entries@, *d).unwrap();
                    &&& rows@.len() == agg.len()
                    &&& tagrow_views(rows@).to_multiset() == agg.to_multiset()
                    &&& (forall|i: int, j: int|
                        0 <= i < j < rows@.len() ==> (#[trigger] rows@[i]).total.val12() >= (
                        #[trigger] rows@[j]).total.val12())
                    &&& (forall|i: int, j: int|
                        0 <= i < j < rows@.len() ==> (#[trigger] rows@[i]).tag@ != (
                        #[trigger] rows@[j]).tag@)
                    &&& (forall|i: int|
                        0 <= i < rows@.len() ==> (#[trigger] rows@[i]).total.wf()
                            && !rows@[i].total.neg)
                }),
                None => spec_tags_agg(self.entries@, *d) is None,
            },
    {
        let acc = match aggregate_tags(&self.entries, d) {
            Some(acc) => acc,
            None => {
                return None;
            },
        };
        let ghost agg = agg_views(acc@);
        proof {
            lemma_tags_agg_mult(self.entries@, *d);
            law_tags_agg_distinct(self.entries@, *d);
            assert(spec_tags_agg(self.entries@, *d).unwrap() == agg);
            assert(forall|k: int|
                0 <= k < agg.len() ==> (#[trigger] agg[k]).2 % 10_000_000_000 == 0);
            assert forall|i: int, j: int|
                0 <= i < j < acc@.len() implies (#[trigger] acc@[i]).0@ != (
            #[trigger] acc@[j]).0@ by {
                assert(agg[i].0 == acc@[i].0@);
                assert(agg[j].0 == acc@[j].0@);
            }
        }
        let sorted = sort_agg_desc(acc);
        let rows = tag_rows_of(&sorted, Ghost(agg));
        proof {
            broadcast use vstd::seq_lib::group_to_multiset_ensures;

            assert(tagrow_views(rows@).to_multiset() == agg_views(sorted@).to_multiset());
            assert(agg.to_multiset().len() == agg.len());
            assert(tagrow_views(rows@).to_multiset().len() == tagrow_views(rows@).len());
            assert forall|i: int, j: int|
                0 <= i < j < rows@.len() implies (#[trigger] rows@[i]).tag@ != (
            #[trigger] rows@[j]).tag@ by {
                assert(tagrow_views(rows@)[i] == spec_tagrow_view(rows@[i]));
                assert(tagrow_views(rows@)[j] == spec_tagrow_view(rows@[j]));
                assert(tagrow_views(rows@)[i] == agg_views(sorted@)[i]);
                assert(tagrow_views(rows@)[j] == agg_views(sorted@)[j]);
                assert(agg_views(sorted@)[i].0 == sorted@[i].0@);
                assert(agg_views(sorted@)[j].0 == sorted@[j].0@);
                assert(sorted@[i].0@ != sorted@[j].0@);
            }
        }
        Some(rows)
    }
}

/// Sorts aggregation entries by descending accumulated per-diem: the
/// result holds exactly the input entries, by content.
#[verifier::rlimit(100)]
#[verifier::spinoff_prover]
fn sort_agg_desc(rows: Vec<(String, u64, u128)>) -> (r: Vec<(String, u64, u128)>)
    requires
        forall|i: int, j: int|
            0 <= i < j < rows@.len() ==> (#[trigger] rows@[i]).0@ != (#[trigger] rows@[j]).0@,
    ensures
        r@.len() == rows@.len(),
        forall|i: int, j: int|
            0 <= i < j < r@.len() ==> (#[trigger] r@[i]).2 >= (#[trigger] r@[j]).2,
        forall|i: int, j: int|
            0 <= i < j < r@.len() ==> (#[trigger] r@[i]).0@ != (#[trigger] r@[j]).0@,
        forall|i: int|
            #![trigger r@[i]]
            0 <= i < r@.len() ==> agg_views(rows@).contains(
                (r@[i].0@, r@[i].1 as int, r@[i].2 as int),
            ),
        agg_views(r@).to_multiset() == agg_views(rows@).to_multiset(),
{
    let mut src = rows;
    let ghost rows0 = src@;
    let mut out: Vec<(String, u64, u128)> = Vec::new();
    proof {
        broadcast use vstd::seq_lib::group_to_multiset_ensures;

        assert forall|i: int| #![trigger src@[i]] 0 <= i < src@.len() implies agg_views(
            rows0,
        ).contains((src@[i].0@, src@[i].1 as int, src@[i].2 as int)) by {
            assert(agg_views(rows0)[i] == (src@[i].0@, src@[i].1 as int, src@[i].2 as int));
        }
        assert(agg_views(out@) =~= Seq::<(Seq<char>, int, int)>::empty());
        assert(agg_views(out@).to_multiset().add(agg_views(src@).to_multiset()) =~= agg_views(
            rows0,
        ).to_multiset());
    }
    while src.len() > 0
        invariant
            out@.len() + src@.len() == rows0.len(),
            forall|i: int, j: int|
                0 <= i < j < out@.len() ==> (#[trigger] out@[i]).2 >= (#[trigger] out@[j]).2,
            forall|i: int, j: int|
                0 <= i < out@.len() && 0 <= j < src@.len() ==> (#[trigger] out@[i]).2 >= (
                #[trigger] src@[j]).2,
            forall|i: int|
                #![trigger out@[i]]
                0 <= i < out@.len() ==> agg_views(rows0).contains(
                    (out@[i].0@, out@[i].1 as int, out@[i].2 as int),
                ),
            forall|i: int|
                #![trigger src@[i]]
                0 <= i < src@.len() ==> agg_views(rows0).contains(
                    (src@[i].0@, src@[i].1 as int, src@[i].2 as int),
                ),
            forall|i: int, j: int|
                0 <= i < j < out@.len() ==> (#[trigger] out@[i]).0@ != (#[trigger] out@[j]).0@,
            forall|i: int, j: int|
                0 <= i < j < src@.len() ==> (#[trigger] src@[i]).0@ != (#[trigger] src@[j]).0@,
            forall|i: int, j: int|
                0 <= i < out@.len() && 0 <= j < src@.len() ==> (#[trigger] out@[i]).0@ != (
                #[trigger] src@[j]).0@,
            agg_views(out@).to_multiset().add(agg_views(src@).to_multiset()) == agg_views(
                rows0,
            ).to_multiset(),
        decreases src@.len(),
    {
        let m = src.len();
        let mut best: usize = 0;
        let mut j: usize = 1;
        while j < m
            invariant
                best < m,
                1 <= j <= m,
                m == src@.len(),
                forall|k: int| 0 <= k < j ==> (src@[best as int]).2 >= (#[trigger] src@[k]).2,
            decreases m - j,
        {
            if src[j].2 >= src[best].2 {
                best = j;
            }
            j = j + 1;
        }
        let ghost old_src = src@;
        let ghost old_out = out@;
        let x = src.remove(best);
        let ghost xv = (x.0@, x.1 as int, x.2 as int);
        out.push(x);
        proof {
            broadcast use vstd::seq_lib::group_to_multiset_ensures;

            assert(x == old_src[best as int]);
            assert(agg_views(src@) =~= agg_views(old_src).remove(best as int));
            assert(agg_views(out@) =~= agg_views(old_out).push(xv));
            assert(agg_views(old_src)[best as int] == xv);
            assert(agg_views(src@).to_multiset() =~= agg_views(old_src).to_multiset().remove(xv));
            assert(agg_views(out@).to_multiset() =~= agg_views(old_out).to_multiset().insert(xv));
            assert(agg_views(old_src).to_multiset().count(xv) > 0) by {
                assert(agg_views(old_src).contains(xv));
            }
            assert(agg_views(out@).to_multiset().add(agg_views(src@).to_multiset()) =~= agg_views(
                rows0,
            ).to_multiset());
            assert forall|i: int| #![trigger src@[i]] 0 <= i < src@.len() implies agg_views(
                rows0,
            ).contains((src@[i].0@, src@[i].1 as int, src@[i].2 as int)) by {
                if i < best {
                    assert(src@[i] == old_src[i]);
                } else {
                    assert(src@[i] == old_src[i + 1]);
                }
            }
            assert forall|i: int| #![trigger out@[i]] 0 <= i < out@.len() implies agg_views(
                rows0,
            ).contains((out@[i].0@, out@[i].1 as int, out@[i].2 as int)) by {
                if i < out@.len() - 1 {
                    assert(out@[i] == old_out[i]);
                } else {
                    assert(out@[i] == x);
                }
            }
            assert forall|i: int, j2: int|
                0 <= i < out@.len() && 0 <= j2 < src@.len() implies (#[trigger] out@[i]).2 >= (
                #[trigger] src@[j2]).2 by {
                let o: int = if j2 < best {
                    j2
                } else {
                    j2 + 1
                };
                assert(src@[j2] == old_src[o]);
                if i == out@.len() - 1 {
                    assert(out@[i] == x);
                } else {
                    assert(out@[i] == old_out[i]);
                }
            }
            assert forall|i: int, j2: int|
                0 <= i < j2 < out@.len() implies (#[trigger] out@[i]).2 >= (
                #[trigger] out@[j2]).2 by {
                if j2 == out@.len() - 1 {
                    assert(out@[j2] == x);
                    assert(out@[i] == old_out[i]);
                } else {
                    assert(out@[i] == old_out[i]);
                    assert(out@[j2] == old_out[j2]);
                }
            }
            assert forall|i: int, j2: int|
                0 <= i < j2 < src@.len() implies (#[trigger] src@[i]).0@ != (
                #[trigger] src@[j2]).0@ by {
                let oi: int = if i < best {
                    i
                } else {
                    i + 1
                };
                let oj: int = if j2 < best {
                    j2
                } else {
                    j2 + 1
                };
                assert(src@[i] == old_src[oi]);
                assert(src@[j2] == old_src[oj]);
            }
            assert forall|i: int, j2: int|
                0 <= i < j2 < out@.len() implies (#[trigger] out@[i]).0@ != (
                #[trigger] out@[j2]).0@ by {
                if j2 == out@.len() - 1 {
                    assert(out@[j2] == x);
                    assert(out@[i] == old_out[i]);
                } else {
                    assert(out@[i] == old_out[i]);
                    assert(out@[j2] == old_out[j2]);
                }
            }
            assert forall|i: int, j2: int|
                0 <= i < out@.len() && 0 <= j2 < src@.len() implies (#[trigger] out@[i]).0@ != (
                #[trigger] src@[j2]).0@ by {
                let o: int = if j2 < best {
                    j2
                } else {
                    j2 + 1
                };
                assert(src@[j2] == old_src[o]);
                if i == out@.len() - 1 {
                    assert(out@[i] == x);
                    assert(x == old_src[best as int]);
                } else {
                    assert(out@[i] == old_out[i]);
                }
            }
        }
    }
    proof {
        broadcast use vstd::seq_lib::group_to_multiset_ensures;

        assert(agg_views(src@) =~= Seq::<(Seq<char>, int, int)>::empty());
        assert(agg_views(out@).to_multiset().add(agg_views(src@).to_multiset()) =~= agg_views(
            out@,
        ).to_multiset());
    }
    out
}

} // verus!
