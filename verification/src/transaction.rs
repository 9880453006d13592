//! Transactions: a buffer of inserts, updates and deletes that can be applied
//! to a schema in order and undone in reverse order.
use crate::column::Schema;
use crate::types::{Fact, KcmError};
use vstd::prelude::*;

verus! {

#[derive(Clone, Copy, Debug, PartialEq, Eq, Structural)]
pub enum TransactionState {
    Active,
    Committed,
    RolledBack,
    Aborted,
}

/// One buffered change, with what undoing it needs.
#[derive(Clone, Copy, Debug, PartialEq, Eq, Structural)]
pub enum TransactionChange {
    Insert(Fact),
    Update { row_idx: usize, old_fact: Option<Fact>, new_fact: Fact },
    Delete { row_idx: usize, old_fact: Fact },
}

/// The table of a schema.
pub open spec fn table_of(s: Schema) -> (Seq<Fact>, Seq<bool>, nat) {
    (s.rows(), s.tombstone_view(), s.spec_capacity())
}

/// The effect of one change, or `None` when the schema refuses it.
pub open spec fn apply_step(t: (Seq<Fact>, Seq<bool>, nat), c: TransactionChange) -> Option<(Seq<Fact>, Seq<bool>, nat)> {
    match c {
        TransactionChange::Insert(f) => if t.0.len() < t.2 {
            Some((t.0.push(f), t.1, t.2))
        } else {
            None
        },
        TransactionChange::Update { row_idx, new_fact, .. } => if row_idx < t.0.len() {
            Some((t.0.update(row_idx as int, new_fact), t.1, t.2))
        } else {
            None
        },
        TransactionChange::Delete { row_idx, .. } => if row_idx < t.0.len() {
            Some((t.0, t.1.update(row_idx as int, true), t.2))
        } else {
            None
        },
    }
}

/// Applying changes in order: the final table, and the index of the first
/// refused change, if any (the changes before it stay applied).
pub open spec fn apply_all(t: (Seq<Fact>, Seq<bool>, nat), cs: Seq<TransactionChange>) -> ((Seq<Fact>, Seq<bool>, nat), Option<int>)
    decreases cs.len(),
{
    if cs.len() == 0 {
        (t, None)
    } else {
        match apply_step(t, cs[0]) {
            None => (t, Some(0)),
            Some(t2) => {
                let (t3, e) = apply_all(t2, cs.drop_first());
                (
                    t3,
                    match e {
                        Some(k) => Some(k + 1),
                        None => None,
                    },
                )
            },
        }
    }
}

/// The undoing of one change, or `None` when the schema refuses it.
pub open spec fn undo_step(t: (Seq<Fact>, Seq<bool>, nat), c: TransactionChange) -> Option<(Seq<Fact>, Seq<bool>, nat)> {
    match c {
        TransactionChange::Insert(_) => {
            let last = if t.0.len() > 0 { t.0.len() - 1 } else { 0 };
            if last < t.0.len() {
                Some((t.0, t.1.update(last, true), t.2))
            } else {
                None
            }
        },
        TransactionChange::Update { row_idx, old_fact, .. } => match old_fact {
            Some(old) => if row_idx < t.0.len() {
                Some((t.0.update(row_idx as int, old), t.1, t.2))
            } else {
                None
            },
            None => Some(t),
        },
        TransactionChange::Delete { row_idx, old_fact } => if row_idx < t.0.len() {
            Some((t.0.update(row_idx as int, old_fact), t.1.update(row_idx as int, false), t.2))
        } else {
            None
        },
    }
}

/// Undoing changes from the last to the first: the final table, and
/// whether some undo was refused (the undos after it in that order are
/// not made).
pub open spec fn undo_all(t: (Seq<Fact>, Seq<bool>, nat), cs: Seq<TransactionChange>) -> ((Seq<Fact>, Seq<bool>, nat), bool)
    decreases cs.len(),
{
    if cs.len() == 0 {
        (t, false)
    } else {
        match undo_step(t, cs.last()) {
            None => (t, true),
            Some(t2) => undo_all(t2, cs.drop_last()),
        }
    }
}

/// What `get_fact(i)` answers on a table.
pub open spec fn table_get(t: (Seq<Fact>, Seq<bool>, nat), i: int) -> Option<Fact> {
    if 0 <= i < t.0.len() && !(i < t.1.len() && t.1[i]) {
        Some(t.0[i])
    } else {
        None
    }
}

/// Applies one change to the schema.
fn apply_one(schema: &mut Schema, c: TransactionChange) -> (r: Result<(), KcmError>)
    requires
        old(schema).wf(),
    ensures
        final(schema).wf(),
        match apply_step(table_of(*old(schema)), c) {
            Some(t) => r is Ok && table_of(*final(schema)) == t,
            None => table_of(*final(schema)) == table_of(*old(schema)) && (if c is Insert {
                r matches Err(KcmError::OutOfMemory)
            } else {
                r matches Err(KcmError::InvalidArgument(_))
            }),
        },
{
    match c {
        TransactionChange::Insert(f) => schema.append_fact(&f),
        TransactionChange::Update { row_idx, new_fact, .. } => schema.update_fact(row_idx, &new_fact),
        TransactionChange::Delete { row_idx, .. } => schema.delete_fact(row_idx),
    }
}

/// Undoes one change on the schema.
fn undo_one(schema: &mut Schema, c: TransactionChange) -> (r: Result<(), KcmError>)
    requires
        old(schema).wf(),
    ensures
        final(schema).wf(),
        match undo_step(table_of(*old(schema)), c) {
            Some(t) => r is Ok && table_of(*final(schema)) == t,
            None => table_of(*final(schema)) == table_of(*old(schema)) && (r matches Err(KcmError::InvalidArgument(_))),
        },
{
    match c {
        TransactionChange::Insert(_) => {
            let len = schema.len();
            let last = if len > 0 {
                len - 1
            } else {
                0
            };
            schema.delete_fact(last)
        },
        TransactionChange::Update { row_idx, old_fact, .. } => {
            match old_fact {
                Some(old) => schema.update_fact(row_idx, &old),
                None => Ok(()),
            }
        },
        TransactionChange::Delete { row_idx, old_fact } => {
            let r = schema.clear_tombstone(row_idx);
            if r.is_err() {
                return r;
            }
            schema.update_fact(row_idx, &old_fact)
        },
    }
}

pub struct Transaction {
    state: TransactionState,
    changes: Vec<TransactionChange>,
}

impl Transaction {
    pub closed spec fn spec_state(&self) -> TransactionState {
        self.state
    }

    pub closed spec fn spec_changes(&self) -> Seq<TransactionChange> {
        self.changes@
    }

    pub fn new() -> (r: Transaction)
        ensures
            r.spec_state() == TransactionState::Active,
            r.spec_changes() == Seq::<TransactionChange>::empty(),
    {
        Transaction { state: TransactionState::Active, changes: Vec::new() }
    }

    fn record(&mut self, c: TransactionChange) -> (r: Result<(), KcmError>)
        ensures
            final(self).spec_state() == old(self).spec_state(),
            old(self).spec_state() == TransactionState::Active ==> r is Ok && final(self).spec_changes() == old(
                self,
            ).spec_changes().push(c),
            old(self).spec_state() != TransactionState::Active ==> (r matches Err(KcmError::TransactionAborted))
                && final(self).spec_changes() == old(self).spec_changes(),
    {
        match self.state {
            TransactionState::Active => {
                self.changes.push(c);
                Ok(())
            },
            _ => Err(KcmError::TransactionAborted),
        }
    }

    /// Buffers an insert.
    pub fn insert(&mut self, fact: Fact) -> (r: Result<(), KcmError>)
        ensures
            final(self).spec_state() == old(self).spec_state(),
            old(self).spec_state() == TransactionState::Active ==> r is Ok && final(self).spec_changes() == old(
                self,
            ).spec_changes().push(TransactionChange::Insert(fact)),
            old(self).spec_state() != TransactionState::Active ==> (r matches Err(KcmError::TransactionAborted))
                && final(self).spec_changes() == old(self).spec_changes(),
    {
        self.record(TransactionChange::Insert(fact))
    }

    /// Buffers an update of row `row_idx`, remembering its previous fact.
    pub fn update(&mut self, row_idx: usize, old_fact: Option<Fact>, new_fact: Fact) -> (r: Result<(), KcmError>)
        ensures
            final(self).spec_state() == old(self).spec_state(),
            old(self).spec_state() == TransactionState::Active ==> r is Ok && final(self).spec_changes() == old(
                self,
            ).spec_changes().push(TransactionChange::Update { row_idx, old_fact, new_fact }),
            old(self).spec_state() != TransactionState::Active ==> (r matches Err(KcmError::TransactionAborted))
                && final(self).spec_changes() == old(self).spec_changes(),
    {
        self.record(TransactionChange::Update { row_idx, old_fact, new_fact })
    }

    /// Buffers a delete of row `row_idx`, remembering its fact.
    pub fn delete(&mut self, row_idx: usize, old_fact: Fact) -> (r: Result<(), KcmError>)
        ensures
            final(self).spec_state() == old(self).spec_state(),
            old(self).spec_state() == TransactionState::Active ==> r is Ok && final(self).spec_changes() == old(
                self,
            ).spec_changes().push(TransactionChange::Delete { row_idx, old_fact }),
            old(self).spec_state() != TransactionState::Active ==> (r matches Err(KcmError::TransactionAborted))
                && final(self).spec_changes() == old(self).spec_changes(),
    {
        self.record(TransactionChange::Delete { row_idx, old_fact })
    }

    /// Applies the changes to the schema in order, stopping at the first
    /// one the schema refuses (an insert into a full schema, or a row that
    /// does not exist).
    pub fn apply_to_schema(&self, schema: &mut Schema) -> (r: Result<(), KcmError>)
        requires
            old(schema).wf(),
        ensures
            final(schema).wf(),
            ({
                let (t, e) = apply_all(table_of(*old(schema)), self.spec_changes());
                &&& table_of(*final(schema)) == t
                &&& r is Ok <==> e is None
                &&& e matches Some(k) ==> 0 <= k < self.spec_changes().len() && (if self.spec_changes()[k] is Insert {
                    r matches Err(KcmError::OutOfMemory)
                } else {
                    r matches Err(KcmError::InvalidArgument(_))
                })
            }),
    {
        let n = self.changes.len();
        let ghost cs = self.changes@;
        let ghost t0 = table_of(*schema);
        assert(cs.subrange(0, n as int) =~= cs);
        let mut i: usize = 0;
        while i < n
            invariant
                n == cs.len(),
                cs == self.changes@,
                t0 == table_of(*old(schema)),
                i <= n,
                schema.wf(),
                ({
                    let (t, e) = apply_all(table_of(*schema), cs.subrange(i as int, n as int));
                    let (tt, ee) = apply_all(t0, cs);
                    tt == t && ee == (match e {
                        Some(k) => Some(k + i),
                        None => None,
                    })
                }),
            decreases n - i,
        {
            let c = self.changes[i];
            let ghost before = table_of(*schema);
            let ghost rest = cs.subrange(i as int, n as int);
            proof {
                assert(rest[0] == c);
                assert(rest.drop_first() =~= cs.subrange(i + 1, n as int));
            }
            let r = apply_one(schema, c);
            if r.is_err() {
                proof {
                    assert(apply_all(before, rest) == (before, Some(0int)));
                }
                return r;
            }
            i = i + 1;
        }
        Ok(())
    }

    /// Undoes the changes on the schema from the last to the first: an
    /// insert marks the schema's last row deleted, an update puts back the
    /// previous fact it remembers, a delete clears the mark and puts back
    /// the fact. Stops at the first undo the schema refuses.
    pub fn rollback_changes(&self, schema: &mut Schema) -> (r: Result<(), KcmError>)
        requires
            old(schema).wf(),
        ensures
            final(schema).wf(),
            ({
                let (t, failed) = undo_all(table_of(*old(schema)), self.spec_changes());
                &&& table_of(*final(schema)) == t
                &&& r is Ok <==> !failed
                &&& r matches Err(e) ==> e is InvalidArgument
            }),
    {
        let n = self.changes.len();
        let ghost cs = self.changes@;
        let ghost t0 = table_of(*schema);
        assert(cs.subrange(0, n as int) =~= cs);
        let mut i: usize = n;
        while i > 0
            invariant
                n == cs.len(),
                cs == self.changes@,
                t0 == table_of(*old(schema)),
                i <= n,
                schema.wf(),
                undo_all(t0, cs) == undo_all(table_of(*schema), cs.subrange(0, i as int)),
            decreases i,
        {
            let c = self.changes[i - 1];
            let ghost before = table_of(*schema);
            let ghost pre = cs.subrange(0, i as int);
            proof {
                assert(pre.last() == c);
                assert(pre.drop_last() =~= cs.subrange(0, i - 1));
            }
            let r = undo_one(schema, c);
            if r.is_err() {
                return r;
            }
            i = i - 1;
        }
        Ok(())
    }

    /// Ends the transaction as committed; the buffered changes are dropped
    /// (apply them first to keep them).
    pub fn commit(self) -> (r: Result<(), KcmError>)
        ensures
            r is Ok,
    {
        let mut t = self;
        t.state = TransactionState::Committed;
        t.changes.clear();
        Ok(())
    }

    /// Ends the transaction as rolled back; the buffered changes are
    /// dropped.
    pub fn rollback(self) -> (r: Result<(), KcmError>)
        ensures
            r is Ok,
    {
        let mut t = self;
        t.state = TransactionState::RolledBack;
        t.changes.clear();
        Ok(())
    }

    /// Ends the transaction as aborted; the buffered changes are dropped.
    pub fn abort(self) -> (r: Result<(), KcmError>)
        ensures
            r is Ok,
    {
        let mut t = self;
        t.state = TransactionState::Aborted;
        t.changes.clear();
        Ok(())
    }

    pub fn state(&self) -> (r: TransactionState)
        ensures
            r == self.spec_state(),
    {
        self.state
    }

    pub fn changes(&self) -> (r: &[TransactionChange])
        ensures
            r@ == self.spec_changes(),
    {
        self.changes.as_slice()
    }
}

impl Default for Transaction {
    fn default() -> (r: Self)
        ensures
            r.spec_state() == TransactionState::Active,
            r.spec_changes() == Seq::<TransactionChange>::empty(),
    {
        Transaction::new()
    }
}

/// Undoing an applied insert leaves every row reading as before.
pub proof fn law_insert_undone(t: (Seq<Fact>, Seq<bool>, nat), f: Fact, i: int)
    requires
        t.0.len() < t.2,
        t.1.len() == t.2,
        !t.1[t.0.len() as int],
    ensures
        ({
            let applied = apply_step(t, TransactionChange::Insert(f)).unwrap();
            let undone = undo_step(applied, TransactionChange::Insert(f)).unwrap();
            table_get(undone, i) == table_get(t, i)
        }),
{
}

/// Undoing an applied update that remembered the row's fact restores it.
pub proof fn law_update_undone(t: (Seq<Fact>, Seq<bool>, nat), row: usize, new_fact: Fact)
    requires
        row < t.0.len(),
    ensures
        ({
            let c = TransactionChange::Update { row_idx: row, old_fact: Some(t.0[row as int]), new_fact };
            undo_step(apply_step(t, c).unwrap(), c) == Some(t)
        }),
{
    let c = TransactionChange::Update { row_idx: row, old_fact: Some(t.0[row as int]), new_fact };
    let applied = apply_step(t, c).unwrap();
    assert(applied.0.update(row as int, t.0[row as int]) =~= t.0);
}

/// Undoing an applied delete of a live row that remembered its fact
/// restores the table.
pub proof fn law_delete_undone(t: (Seq<Fact>, Seq<bool>, nat), row: usize)
    requires
        row < t.0.len(),
        row < t.1.len(),
        !t.1[row as int],
    ensures
        ({
            let c = TransactionChange::Delete { row_idx: row, old_fact: t.0[row as int] };
            undo_step(apply_step(t, c).unwrap(), c) == Some(t)
        }),
{
    let c = TransactionChange::Delete { row_idx: row, old_fact: t.0[row as int] };
    let applied = apply_step(t, c).unwrap();
    assert(applied.0.update(row as int, t.0[row as int]) =~= t.0);
    assert(applied.1.update(row as int, false) =~= t.1);
}


/// The changes of `cs`, applied in order from `t`, are updates and deletes
/// of existing rows that each remembered what they replaced: an update the
/// row's fact, a delete the fact of a live row.
pub open spec fn remembers_replaced(t: (Seq<Fact>, Seq<bool>, nat), cs: Seq<TransactionChange>) -> bool
    decreases cs.len(),
{
    if cs.len() == 0 {
        true
    } else {
        let ok = match cs[0] {
            TransactionChange::Insert(_) => false,
            TransactionChange::Update { row_idx, old_fact, .. } => row_idx < t.0.len() && old_fact == Some(t.0[row_idx as int]),
            TransactionChange::Delete { row_idx, old_fact } => row_idx < t.0.len() && row_idx < t.1.len() && !t.1[row_idx as int]
                && old_fact == t.0[row_idx as int],
        };
        ok && remembers_replaced(apply_step(t, cs[0]).unwrap(), cs.drop_first())
    }
}

/// Undoing `a + b` undoes `b` first, then `a` unless an undo of `b` was
/// refused.
proof fn lemma_undo_all_split(x: (Seq<Fact>, Seq<bool>, nat), a: Seq<TransactionChange>, b: Seq<TransactionChange>)
    ensures
        undo_all(x, a + b) == (if undo_all(x, b).1 {
            undo_all(x, b)
        } else {
            undo_all(undo_all(x, b).0, a)
        }),
    decreases b.len(),
{
    if b.len() == 0 {
        assert(a + b =~= a);
    } else {
        assert((a + b).last() == b.last());
        assert((a + b).drop_last() =~= a + b.drop_last());
        match undo_step(x, b.last()) {
            None => {},
            Some(x2) => {
                lemma_undo_all_split(x2, a, b.drop_last());
            },
        }
    }
}

/// Rolling back a whole applied transaction of updates and deletes that
/// remembered what they replaced gives the table back as it was.
pub proof fn law_transaction_undone(t: (Seq<Fact>, Seq<bool>, nat), cs: Seq<TransactionChange>)
    requires
        remembers_replaced(t, cs),
    ensures
        apply_all(t, cs).1 is None,
        undo_all(apply_all(t, cs).0, cs) == (t, false),
    decreases cs.len(),
{
    if cs.len() == 0 {
    } else {
        let c = cs[0];
        let rest = cs.drop_first();
        let t1 = apply_step(t, c).unwrap();
        law_transaction_undone(t1, rest);
        let t2 = apply_all(t1, rest).0;
        assert(cs =~= seq![c] + rest);
        lemma_undo_all_split(t2, seq![c], rest);
        assert(seq![c].last() == c);
        assert(seq![c].drop_last() =~= Seq::<TransactionChange>::empty());
        match c {
            TransactionChange::Insert(_) => {},
            TransactionChange::Update { row_idx, new_fact, .. } => {
                law_update_undone(t, row_idx, new_fact);
            },
            TransactionChange::Delete { row_idx, .. } => {
                law_delete_undone(t, row_idx);
            },
        }
        assert(apply_all(t, cs).0 == t2);
        assert(undo_step(t1, c) == Some(t));
        assert(undo_all(t1, seq![c]) == undo_all(t, Seq::<TransactionChange>::empty()));
        assert(undo_all(t2, seq![c] + rest) == undo_all(t1, seq![c]));
    }
}

/// Every change of `cs` is an update or a delete of a row below `n`.
pub open spec fn edits_below(cs: Seq<TransactionChange>, n: nat) -> bool {
    forall|k: int| 0 <= k < cs.len() ==> match #[trigger] cs[k] {
        TransactionChange::Insert(_) => false,
        TransactionChange::Update { row_idx, .. } => row_idx < n,
        TransactionChange::Delete { row_idx, .. } => row_idx < n,
    }
}

/// `x` with `f` stored in a new last row that is deleted.
pub open spec fn with_dead_row(x: (Seq<Fact>, Seq<bool>, nat), f: Fact) -> (Seq<Fact>, Seq<bool>, nat) {
    (x.0.push(f), x.1.update(x.0.len() as int, true), x.2)
}

/// Changes that remembered what they replaced edit existing rows only:
/// they all apply, and leave the row count, the capacity and the
/// tombstones past the rows as they were.
proof fn lemma_remembers_shape(t: (Seq<Fact>, Seq<bool>, nat), cs: Seq<TransactionChange>)
    requires
        remembers_replaced(t, cs),
    ensures
        edits_below(cs, t.0.len()),
        apply_all(t, cs).1 is None,
        apply_all(t, cs).0.0.len() == t.0.len(),
        apply_all(t, cs).0.1.len() == t.1.len(),
        apply_all(t, cs).0.2 == t.2,
        forall|j: int| t.0.len() <= j < t.1.len() ==> #[trigger] apply_all(t, cs).0.1[j] == t.1[j],
    decreases cs.len(),
{
    if cs.len() > 0 {
        let c = cs[0];
        let rest = cs.drop_first();
        let t1 = apply_step(t, c).unwrap();
        lemma_remembers_shape(t1, rest);
        assert forall|k: int| 0 <= k < cs.len() implies match #[trigger] cs[k] {
            TransactionChange::Insert(_) => false,
            TransactionChange::Update { row_idx, .. } => row_idx < t.0.len(),
            TransactionChange::Delete { row_idx, .. } => row_idx < t.0.len(),
        } by {
            if k > 0 {
                assert(cs[k] == rest[k - 1]);
            }
        }
    }
}

/// Undoing edits of existing rows ignores a deleted row past them.
proof fn lemma_undo_with_dead_row(x: (Seq<Fact>, Seq<bool>, nat), f: Fact, cs: Seq<TransactionChange>)
    requires
        edits_below(cs, x.0.len()),
        x.0.len() < x.1.len(),
    ensures
        undo_all(x, cs).0.0.len() == x.0.len(),
        undo_all(x, cs).0.1.len() == x.1.len(),
        undo_all(with_dead_row(x, f), cs) == (with_dead_row(undo_all(x, cs).0, f), undo_all(x, cs).1),
    decreases cs.len(),
{
    if cs.len() > 0 {
        let c = cs.last();
        let n = x.0.len() as int;
        let y = with_dead_row(x, f);
        assert(cs[cs.len() - 1] == c);
        assert(edits_below(cs.drop_last(), x.0.len())) by {
            assert forall|k: int| 0 <= k < cs.drop_last().len() implies match #[trigger] cs.drop_last()[k] {
                TransactionChange::Insert(_) => false,
                TransactionChange::Update { row_idx, .. } => row_idx < x.0.len(),
                TransactionChange::Delete { row_idx, .. } => row_idx < x.0.len(),
            } by {
                assert(cs.drop_last()[k] == cs[k]);
            }
        }
        match c {
            TransactionChange::Insert(_) => {},
            TransactionChange::Update { row_idx, old_fact, .. } => {
                match old_fact {
                    Some(o) => {
                        let x2 = undo_step(x, c).unwrap();
                        assert(y.0.update(row_idx as int, o) =~= x2.0.push(f));
                        assert(undo_step(y, c) == Some(with_dead_row(x2, f)));
                        lemma_undo_with_dead_row(x2, f, cs.drop_last());
                    },
                    None => {
                        lemma_undo_with_dead_row(x, f, cs.drop_last());
                    },
                }
            },
            TransactionChange::Delete { row_idx, old_fact } => {
                let x2 = undo_step(x, c).unwrap();
                assert(y.0.update(row_idx as int, old_fact) =~= x2.0.push(f));
                assert(y.1.update(row_idx as int, false) =~= x2.1.update(n, true));
                assert(undo_step(y, c) == Some(with_dead_row(x2, f)));
                lemma_undo_with_dead_row(x2, f, cs.drop_last());
            },
        }
    }
}

/// Applying `a + b` applies `a`, then `b` when all of `a` applied.
proof fn lemma_apply_all_split(t: (Seq<Fact>, Seq<bool>, nat), a: Seq<TransactionChange>, b: Seq<TransactionChange>)
    requires
        apply_all(t, a).1 is None,
    ensures
        apply_all(t, a + b).0 == apply_all(apply_all(t, a).0, b).0,
        apply_all(t, a + b).1 is None <==> apply_all(apply_all(t, a).0, b).1 is None,
    decreases a.len(),
{
    if a.len() == 0 {
        assert(a + b =~= b);
    } else {
        let t1 = apply_step(t, a[0]).unwrap();
        lemma_apply_all_split(t1, a.drop_first(), b);
        assert((a + b)[0] == a[0]);
        assert((a + b).drop_first() =~= a.drop_first() + b);
    }
}

/// Rolling back an applied transaction with one insert, whose updates and
/// deletes remembered what they replaced, makes every row read as before:
/// the inserted row is deleted and the others are restored.
pub proof fn law_transaction_with_insert_undone(
    t: (Seq<Fact>, Seq<bool>, nat),
    a: Seq<TransactionChange>,
    f: Fact,
    b: Seq<TransactionChange>,
    i: int,
)
    requires
        t.0.len() < t.2,
        t.1.len() == t.2,
        remembers_replaced(t, a),
        remembers_replaced(apply_step(apply_all(t, a).0, TransactionChange::Insert(f)).unwrap(), b),
    ensures
        ({
            let cs = a + seq![TransactionChange::Insert(f)] + b;
            let applied = apply_all(t, cs);
            &&& applied.1 is None
            &&& !undo_all(applied.0, cs).1
            &&& table_get(undo_all(applied.0, cs).0, i) == table_get(t, i)
        }),
{
    let ins = TransactionChange::Insert(f);
    let cs = a + seq![ins] + b;
    lemma_remembers_shape(t, a);
    law_transaction_undone(t, a);
    let t1 = apply_all(t, a).0;
    assert(t1.0.len() < t1.2);
    let t2 = apply_step(t1, ins).unwrap();
    assert(t2 == (t1.0.push(f), t1.1, t1.2));
    law_transaction_undone(t2, b);
    let t3 = apply_all(t2, b).0;
    // Applying.
    assert(apply_all(t1, seq![ins]).0 == t2 && apply_all(t1, seq![ins]).1 is None) by {
        assert(seq![ins][0] == ins);
        assert(seq![ins].drop_first() =~= Seq::<TransactionChange>::empty());
        assert(apply_all(t2, seq![ins].drop_first()) == (t2, None::<int>));
    }
    lemma_apply_all_split(t, a, seq![ins]);
    lemma_apply_all_split(t, a + seq![ins], b);
    assert(apply_all(t, cs).0 == t3);
    assert(apply_all(t, cs).1 is None);
    // Undoing: `b`, then the insert, then `a`.
    lemma_undo_all_split(t3, a + seq![ins], b);
    lemma_undo_all_split(t2, a, seq![ins]);
    let n = t1.0.len() as int;
    assert(undo_step(t2, ins) == Some(with_dead_row(t1, f)));
    assert(undo_all(t2, seq![ins]) == (with_dead_row(t1, f), false)) by {
        assert(seq![ins].last() == ins);
        assert(seq![ins].drop_last() =~= Seq::<TransactionChange>::empty());
        assert(undo_all(with_dead_row(t1, f), seq![ins].drop_last()) == (with_dead_row(t1, f), false));
    }
    lemma_undo_with_dead_row(t1, f, a);
    let u = with_dead_row(t, f);
    assert(undo_all(t3, cs) == (u, false));
    assert(n == t.0.len());
    if 0 <= i < t.0.len() {
        assert(u.0[i] == t.0[i]);
        assert(u.1[i] == t.1[i]);
    }
}
} // verus!
