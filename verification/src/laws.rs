//! The laws the library states about its own pieces.
//!
//! Most of what holds of a single function stands in that function's
//! `ensures`: `per_diem` states that it truncates the total over the
//! duration to two decimals, and `get_progress_on` states the clamped
//! elapsed/total day pair with its bounds.  The lemmas here state what
//! holds across functions: how the identity digest behaves under records
//! that differ only in tags or timestamp, and how repeated insertion under
//! one digest keeps a single entry.

use crate::date::Date;
use crate::ledger::spec_key;
use crate::record::RecView;
use crate::lifetime::lemma_days_since_pos;
use crate::record::TxRecord;
use vstd::prelude::*;

verus! {

/// The identity digest depends on name, amount, lifetime and start date
/// alone: two records that differ only in tags, timestamp or source text
/// share their store key, so the later insert replaces the earlier one.
pub proof fn law_identity_key(a: TxRecord, b: TxRecord)
    requires
        a.name@ == b.name@,
        a.amount == b.amount,
        a.lifetime == b.lifetime,
        a.starts_on == b.starts_on,
    ensures
        spec_key(a) == spec_key(b),
{
    assert(crate::ledger::spec_identity(a) == crate::ledger::spec_identity(b));
}

/// Inserting twice under one key keeps one entry: the second value wins
/// and the key set does not grow.
pub proof fn law_insert_replaces(m: Map<Seq<u8>, RecView>, k: Seq<u8>, a: RecView, b: RecView)
    ensures
        m.insert(k, a).insert(k, b) == m.insert(k, b),
        m.insert(k, a).insert(k, b).dom() == m.insert(k, a).dom(),
{
    assert(m.insert(k, a).insert(k, b) =~= m.insert(k, b));
    assert(m.insert(k, a).insert(k, b).dom() =~= m.insert(k, a).dom());
}

/// A record spans at least one day, so its end does not precede its
/// start: the progress ratio is well defined and the per-diem division
/// never divides by zero.
pub proof fn law_duration_positive(tx: TxRecord)
    requires
        tx.wf(),
    ensures
        tx.spec_duration() >= 1,
        tx.starts_on.dn() <= tx.starts_on.dn() + tx.spec_duration() - 1,
{
    lemma_days_since_pos(tx.lifetime, tx.starts_on);
}

/// The two-decimal per-diem equals the total truncated against the
/// duration in one step: dropping to twelve digits first and to two after
/// is the same as truncating the exact ratio at two decimals.
pub proof fn law_per_diem_truncation(tx: TxRecord)
    requires
        tx.wf(),
    ensures
        crate::decimal::spec_trunc2(tx.spec_total12() / tx.spec_duration()) == (tx.spec_total12()
            / (tx.spec_duration() * 10_000_000_000)) * 10_000_000_000,
{
    lemma_days_since_pos(tx.lifetime, tx.starts_on);
    crate::decimal::lemma_val12_times(tx.amount, tx.lifetime.spec_repeats());
    let t = tx.spec_total12();
    let dur = tx.spec_duration();
    assert(t >= 0);
    assert(t / dur >= 0) by (nonlinear_arith)
        requires
            t >= 0,
            dur >= 1,
    ;
    vstd::arithmetic::div_mod::lemma_div_denominator(t, dur, 10_000_000_000);
}

/// A date lies between the start and the end of a record exactly when the
/// elapsed days are at least zero and strictly less than the duration —
/// the range the progress pair is clamped to.
pub proof fn law_active_window(tx: TxRecord, d: Date)
    requires
        tx.wf(),
        d.wf(),
    ensures
        (tx.starts_on.dn() <= d.dn() <= tx.starts_on.dn() + tx.spec_duration() - 1) == (0 <= d.dn()
            - tx.starts_on.dn() < tx.spec_duration()),
{
}

} // verus!
