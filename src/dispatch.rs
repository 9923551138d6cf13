//! The dispatcher: applies one validated command to the current scope and
//! the transaction stack, and says what to report.
use vstd::prelude::*;
use crate::command::{db_command, CommandModel};
use crate::scope::{
    transaction,
    ScopeModel,
    set_model,
    unset_model,
    get_model,
    count_model,
};
use crate::stack::{begin, rollback, commit, stack_model, all_wf, Signal};

verus! {

/// What a command reports.
#[derive(Debug, PartialEq, Eq, Structural)]
pub enum Outcome {
    /// No output line.
    Silent,
    /// GET found this value.
    Value(i32),
    /// GET found no value.
    Null,
    /// NUMEQUALTO's count.
    Count(usize),
    /// ROLLBACK or COMMIT with no open transaction.
    NoTransaction,
    /// END: processing stops.
    End,
}

/// Abstract view of the whole store: the current scope and the snapshots.
pub ghost struct DbModel {
    pub current: ScopeModel,
    pub stack: Seq<ScopeModel>,
}

/// The state after applying `c` to `s`.
pub open spec fn step(s: DbModel, c: CommandModel) -> DbModel {
    match c {
        CommandModel::SetValue(k, v) => DbModel { current: set_model(s.current, k, v), ..s },
        CommandModel::Unset(k) => DbModel { current: unset_model(s.current, k), ..s },
        CommandModel::Begin => DbModel { stack: s.stack.push(s.current), ..s },
        CommandModel::Rollback => if s.stack.len() == 0 {
            s
        } else {
            DbModel { current: s.stack.last(), stack: s.stack.drop_last() }
        },
        CommandModel::Commit => DbModel { stack: Seq::empty(), ..s },
        _ => s,
    }
}

/// What applying `c` to `s` reports.
pub open spec fn reply(s: DbModel, c: CommandModel) -> Outcome {
    match c {
        CommandModel::Get(k) => match get_model(s.current, k) {
            Some(v) => Outcome::Value(v),
            None => Outcome::Null,
        },
        CommandModel::NumEqualTo(v) => Outcome::Count(count_model(s.current, v)),
        CommandModel::Rollback => if s.stack.len() == 0 {
            Outcome::NoTransaction
        } else {
            Outcome::Silent
        },
        CommandModel::Commit => if s.stack.len() == 0 {
            Outcome::NoTransaction
        } else {
            Outcome::Silent
        },
        CommandModel::End => Outcome::End,
        _ => Outcome::Silent,
    }
}

/// The abstract state of a current scope and a stack.
pub open spec fn db_model(ct: transaction, ts: Seq<transaction>) -> DbModel {
    DbModel { current: ct@, stack: stack_model(ts) }
}

/// Applies `cmd` to the current scope `ct` and the stack `ts`, and returns
/// what to report.
pub fn dispatch_command(cmd: db_command, ct: &mut transaction, ts: &mut Vec<transaction>) -> (r:
    Outcome)
    requires
        old(ct).wf(),
        all_wf(old(ts)@),
        cmd is SET ==> old(ct)@.key_val.dom().len() < usize::MAX,
    ensures
        final(ct).wf(),
        all_wf(final(ts)@),
        final(ct)@ == step(db_model(*old(ct), old(ts)@), cmd@).current,
        stack_model(final(ts)@) == step(db_model(*old(ct), old(ts)@), cmd@).stack,
        r == reply(db_model(*old(ct), old(ts)@), cmd@),
{
    match cmd {
        db_command::SET(key, value) => {
            ct.set(key, value);
            Outcome::Silent
        },
        db_command::GET(key) => match ct.get(key) {
            Some(v) => Outcome::Value(v),
            None => Outcome::Null,
        },
        db_command::NUMEQUALTO(value) => Outcome::Count(ct.num_equal_to(value)),
        db_command::UNSET(key) => {
            ct.unset(key);
            Outcome::Silent
        },
        db_command::BEGIN => {
            begin(ct, ts);
            Outcome::Silent
        },
        db_command::ROLLBACK => match rollback(ct, ts) {
            Signal::Done => Outcome::Silent,
            Signal::NoTransaction => Outcome::NoTransaction,
        },
        db_command::COMMIT => {
            let ghost t0 = ts@;
            let sig = commit(ts);
            assert(stack_model(ts@) =~= if t0.len() == 0 {
                stack_model(t0)
            } else {
                Seq::empty()
            });
            match sig {
                Signal::Done => Outcome::Silent,
                Signal::NoTransaction => Outcome::NoTransaction,
            }
        },
        db_command::END => Outcome::End,
    }
}

/// The state after applying `cmds` to `s` in order.
pub open spec fn run(s: DbModel, cmds: Seq<CommandModel>) -> DbModel
    decreases cmds.len(),
{
    if cmds.len() == 0 {
        s
    } else {
        step(run(s, cmds.drop_last()), cmds.last())
    }
}

/// While the stack stays deeper than `d`, its bottom `d + 1` snapshots are
/// left as they were.
proof fn lemma_bottom_kept(s1: DbModel, mid: Seq<CommandModel>, d: int, i: int)
    requires
        s1.stack.len() == d + 1,
        d >= 0,
        0 <= i <= mid.len(),
        forall|j: int| 0 <= j <= mid.len() ==> #[trigger] run(s1, mid.take(j)).stack.len() > d,
    ensures
        run(s1, mid.take(i)).stack.subrange(0, d + 1) == s1.stack,
    decreases i,
{
    if i == 0 {
        assert(mid.take(0) =~= Seq::<CommandModel>::empty());
        assert(s1.stack.subrange(0, d + 1) =~= s1.stack);
    } else {
        lemma_bottom_kept(s1, mid, d, i - 1);
        let t = run(s1, mid.take(i - 1));
        assert(mid.take(i).drop_last() =~= mid.take(i - 1));
        assert(run(s1, mid.take(i)) == step(t, mid[i - 1]));
        assert(run(s1, mid.take(i - 1)).stack.len() > d);
        assert(run(s1, mid.take(i)).stack.len() > d);
        let u = step(t, mid[i - 1]);
        assert(u.stack.subrange(0, d + 1) =~= t.stack.subrange(0, d + 1));
    }
}

/// ROLLBACK restores exactly the state at its matching BEGIN: after BEGIN
/// and any commands `mid` that never close that BEGIN's level (the stack
/// stays deeper than before the BEGIN) and end with it the innermost open
/// level, a ROLLBACK gives back the current scope and the stack as they were
/// before the BEGIN, discarding any reverse-index entries made since.
pub proof fn lemma_rollback_restores(s: DbModel, mid: Seq<CommandModel>)
    requires
        forall|i: int|
            0 <= i <= mid.len() ==> #[trigger] run(
                step(s, CommandModel::Begin),
                mid.take(i),
            ).stack.len() > s.stack.len(),
        run(step(s, CommandModel::Begin), mid).stack.len() == s.stack.len() + 1,
    ensures
        step(run(step(s, CommandModel::Begin), mid), CommandModel::Rollback) == s,
{
    let s1 = step(s, CommandModel::Begin);
    let d = s.stack.len() as int;
    lemma_bottom_kept(s1, mid, d, mid.len() as int);
    assert(mid.take(mid.len() as int) =~= mid);
    let t = run(s1, mid);
    assert(t.stack =~= t.stack.subrange(0, d + 1));
    assert(t.stack == s.stack.push(s.current));
    assert(s.stack.push(s.current).drop_last() =~= s.stack);
}

/// COMMIT keeps the current scope and empties the stack, whatever its depth.
pub proof fn lemma_commit_flattens(s: DbModel)
    ensures
        step(s, CommandModel::Commit).current == s.current,
        step(s, CommandModel::Commit).stack.len() == 0,
{
}

/// With no open transaction, ROLLBACK and COMMIT change nothing and report
/// that there is no transaction.
pub proof fn lemma_no_transaction(s: DbModel)
    requires
        s.stack.len() == 0,
    ensures
        step(s, CommandModel::Rollback) == s,
        reply(s, CommandModel::Rollback) == Outcome::NoTransaction,
        step(s, CommandModel::Commit) == s,
        reply(s, CommandModel::Commit) == Outcome::NoTransaction,
{
    assert(s.stack =~= Seq::<ScopeModel>::empty());
}

/// UNSET of an absent key changes nothing and reports nothing.
pub proof fn lemma_unset_absent(s: DbModel, k: Seq<char>)
    requires
        !s.current.key_val.contains_key(k),
    ensures
        step(s, CommandModel::Unset(k)) == s,
        reply(s, CommandModel::Unset(k)) == Outcome::Silent,
{
}

/// Every command but ROLLBACK keeps each reverse-index entry of the current
/// scope: entries are never removed, only counted up or down.
pub proof fn lemma_index_entries_persist(s: DbModel, c: CommandModel)
    requires
        !(c is Rollback),
    ensures
        s.current.val_quant.dom().subset_of(step(s, c).current.val_quant.dom()),
{
}

} // verus!
