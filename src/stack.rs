//! The transaction stack: snapshots of the scope taken at each open BEGIN.
use vstd::prelude::*;
use crate::scope::{transaction, ScopeModel};

verus! {

/// What ROLLBACK or COMMIT reports.
#[derive(Debug, PartialEq, Eq, Structural)]
pub enum Signal {
    /// The stack had an open transaction and the operation took place.
    Done,
    /// The stack was empty; nothing changed.
    NoTransaction,
}

/// The views of the snapshots, bottom first.
pub open spec fn stack_model(ts: Seq<transaction>) -> Seq<ScopeModel> {
    ts.map_values(|t: transaction| t@)
}

/// Every snapshot is well formed.
pub open spec fn all_wf(ts: Seq<transaction>) -> bool {
    forall|i: int| 0 <= i < ts.len() ==> (#[trigger] ts[i]).wf()
}

/// BEGIN: pushes an independent copy of the current scope.
pub fn begin(ct: &transaction, ts: &mut Vec<transaction>)
    requires
        ct.wf(),
        all_wf(old(ts)@),
    ensures
        all_wf(final(ts)@),
        stack_model(final(ts)@) == stack_model(old(ts)@).push(ct@),
{
    let snap = ct.snapshot();
    ts.push(snap);
    assert(stack_model(ts@) =~= stack_model(old(ts)@).push(ct@));
}

/// ROLLBACK: with no open transaction, reports `NoTransaction` and changes
/// nothing; otherwise pops the top snapshot, which replaces the current
/// scope wholesale.
pub fn rollback(ct: &mut transaction, ts: &mut Vec<transaction>) -> (r: Signal)
    requires
        old(ct).wf(),
        all_wf(old(ts)@),
    ensures
        final(ct).wf(),
        all_wf(final(ts)@),
        old(ts)@.len() == 0 ==> r == Signal::NoTransaction && final(ct)@ == old(ct)@
            && final(ts)@ == old(ts)@,
        old(ts)@.len() > 0 ==> r == Signal::Done && final(ct)@ == stack_model(old(ts)@).last()
            && stack_model(final(ts)@) == stack_model(old(ts)@).drop_last(),
{
    if ts.len() == 0 {
        return Signal::NoTransaction;
    }
    match ts.pop() {
        Some(t) => {
            *ct = t;
        },
        None => {},
    }
    assert(stack_model(ts@) =~= stack_model(old(ts)@).drop_last());
    Signal::Done
}

/// COMMIT: with no open transaction, reports `NoTransaction`; otherwise
/// discards every snapshot at once. The current scope is never touched.
pub fn commit(ts: &mut Vec<transaction>) -> (r: Signal)
    ensures
        old(ts)@.len() == 0 ==> r == Signal::NoTransaction && final(ts)@ == old(ts)@,
        old(ts)@.len() > 0 ==> r == Signal::Done && final(ts)@.len() == 0,
{
    if ts.len() == 0 {
        return Signal::NoTransaction;
    }
    ts.clear();
    Signal::Done
}

} // verus!
