//! Crash recovery: replaying a write-ahead log into a schema, the choice
//! of what to recover from, and the pieces of incremental backups.
use crate::column::{active_prefix, Schema};
use crate::fmt::{spec_decimal, u64_to_decimal};
use crate::transaction::table_of;
use crate::types::{Fact, KcmError};
use crate::wal::{replay_entries, spec_replay, spec_to_fact, verify_wal_bytes, WALEntry};
use vstd::prelude::*;
use vstd::string::*;

verus! {

/// The capacity of the schema a recovery starts from when there is no
/// database file to load.
pub const RECOVERY_CAPACITY: usize = 1_000_000;

/// The effect of replaying one entry on a table (rows, deletion marks,
/// capacity), or `None` when the schema refuses it: an insert into a full
/// schema, or the deletion of a row that does not exist.
pub open spec fn replay_step(t: (Seq<Fact>, Seq<bool>, nat), e: WALEntry) -> Option<(Seq<Fact>, Seq<bool>, nat)> {
    match e {
        WALEntry::Insert { .. } => if t.0.len() < t.2 {
            Some((t.0.push(spec_to_fact(e).unwrap()), t.1, t.2))
        } else {
            None
        },
        WALEntry::Delete { row_id } => if (row_id as usize) < t.0.len() {
            Some((t.0, t.1.update((row_id as usize) as int, true), t.2))
        } else {
            None
        },
    }
}

/// Replaying entries in order: the final table, and the index of the first
/// refused entry, if any (the entries before it stay applied).
pub open spec fn replay_all(t: (Seq<Fact>, Seq<bool>, nat), es: Seq<WALEntry>) -> ((Seq<Fact>, Seq<bool>, nat), Option<int>)
    decreases es.len(),
{
    if es.len() == 0 {
        (t, None)
    } else {
        match replay_step(t, es[0]) {
            None => (t, Some(0)),
            Some(t2) => {
                let (t3, e) = replay_all(t2, es.drop_first());
                (
                    t3,
                    match e {
                        Some(k) => Some(k + 1),
                        None => None,
                    },
                )
            },
        }
    }
}

fn replay_one(schema: &mut Schema, e: &WALEntry) -> (r: Result<(), KcmError>)
    requires
        old(schema).wf(),
    ensures
        final(schema).wf(),
        match replay_step(table_of(*old(schema)), *e) {
            Some(t) => r is Ok && table_of(*final(schema)) == t,
            None => table_of(*final(schema)) == table_of(*old(schema)) && (if *e is Insert {
                r matches Err(KcmError::OutOfMemory)
            } else {
                r matches Err(KcmError::InvalidArgument(_))
            }),
        },
{
    match e {
        WALEntry::Insert { .. } => {
            match e.to_fact() {
                Some(fact) => schema.append_fact(&fact),
                None => Ok(()),
            }
        },
        WALEntry::Delete { row_id } => schema.delete_fact(*row_id as usize),
    }
}

/// Replays the entries into the schema in order, stopping at the first one
/// the schema refuses; gives the number of entries replayed.
pub fn replay_into(schema: &mut Schema, entries: &[WALEntry]) -> (r: Result<usize, KcmError>)
    requires
        old(schema).wf(),
    ensures
        final(schema).wf(),
        ({
            let (t, e) = replay_all(table_of(*old(schema)), entries@);
            &&& table_of(*final(schema)) == t
            &&& r is Ok <==> e is None
            &&& r matches Ok(n) ==> n == entries@.len()
            &&& e matches Some(k) ==> 0 <= k < entries@.len() && (if entries@[k] is Insert {
                r matches Err(KcmError::OutOfMemory)
            } else {
                r matches Err(KcmError::InvalidArgument(_))
            })
        }),
{
    let n = entries.len();
    let ghost es = entries@;
    let ghost t0 = table_of(*schema);
    assert(es.subrange(0, n as int) =~= es);
    let mut i: usize = 0;
    while i < n
        invariant
            n == es.len(),
            es == entries@,
            t0 == table_of(*old(schema)),
            i <= n,
            schema.wf(),
            ({
                let (t, e) = replay_all(table_of(*schema), es.subrange(i as int, n as int));
                let (tt, ee) = replay_all(t0, es);
                tt == t && ee == (match e {
                    Some(k) => Some(k + i),
                    None => None,
                })
            }),
        decreases n - i,
    {
        let ghost before = table_of(*schema);
        let ghost rest = es.subrange(i as int, n as int);
        proof {
            assert(rest[0] == es[i as int]);
            assert(rest.drop_first() =~= es.subrange(i + 1, n as int));
        }
        let r = replay_one(schema, &entries[i]);
        if r.is_err() {
            proof {
                assert(replay_all(before, rest) == (before, Some(0int)));
            }
            return match r {
                Ok(_) => Ok(i),
                Err(err) => Err(err),
            };
        }
        i = i + 1;
    }
    proof {
        assert(es.subrange(n as int, n as int) =~= Seq::<WALEntry>::empty());
    }
    Ok(n)
}

/// Replays a log file's bytes into the schema: a log that is not a
/// sequence of well-formed records is refused as corrupt before anything
/// is applied; otherwise its entries are replayed in order.
pub fn replay_wal_bytes(schema: &mut Schema, data: &[u8]) -> (r: Result<usize, KcmError>)
    requires
        old(schema).wf(),
    ensures
        final(schema).wf(),
        !spec_replay(data@, 0).1 ==> (r matches Err(KcmError::Corrupted(_))) && table_of(*final(schema)) == table_of(
            *old(schema),
        ),
        spec_replay(data@, 0).1 ==> ({
            let es = spec_replay(data@, 0).0;
            let (t, e) = replay_all(table_of(*old(schema)), es);
            &&& table_of(*final(schema)) == t
            &&& r is Ok <==> e is None
            &&& r matches Ok(n) ==> n == es.len()
            &&& r matches Err(err) ==> err is OutOfMemory || err is InvalidArgument
        }),
{
    match verify_wal_bytes(data) {
        Ok(()) => {},
        Err(e) => return Err(e),
    }
    let (entries, _) = replay_entries(data);
    replay_into(schema, entries.as_slice())
}

/// Replaying inserts into a schema with room for them appends their facts
/// in order, and nothing is refused.
pub proof fn law_replay_inserts(t: (Seq<Fact>, Seq<bool>, nat), es: Seq<WALEntry>)
    requires
        forall|i: int| 0 <= i < es.len() ==> #[trigger] es[i] is Insert,
        t.0.len() + es.len() <= t.2,
    ensures
        replay_all(t, es) == ((t.0 + es.map_values(|e: WALEntry| spec_to_fact(e).unwrap()), t.1, t.2), Option::<int>::None),
    decreases es.len(),
{
    let f = |e: WALEntry| spec_to_fact(e).unwrap();
    if es.len() == 0 {
        assert(t.0 + es.map_values(f) =~= t.0);
    } else {
        let t2 = (t.0.push(f(es[0])), t.1, t.2);
        assert(es[0] is Insert);
        assert(replay_step(t, es[0]) == Some(t2));
        law_replay_inserts(t2, es.drop_first());
        assert(t2.0 + es.drop_first().map_values(f) =~= t.0 + es.map_values(f));
    }
}

/// Replaying a log and then one more entry: the entry is replayed on the
/// table the log left, when the log was replayed in full.
proof fn lemma_replay_all_push(t: (Seq<Fact>, Seq<bool>, nat), es: Seq<WALEntry>, e: WALEntry)
    requires
        replay_all(t, es).1 is None,
    ensures
        replay_all(t, es.push(e)) == (match replay_step(replay_all(t, es).0, e) {
            Some(t2) => (t2, None::<int>),
            None => (replay_all(t, es).0, Some(es.len() as int)),
        }),
    decreases es.len(),
{
    if es.len() == 0 {
        assert(es.push(e) =~= seq![e]);
        assert(seq![e][0] == e);
        assert(seq![e].drop_first() =~= Seq::<WALEntry>::empty());
        match replay_step(t, e) {
            Some(t2) => {
                assert(replay_all(t2, seq![e].drop_first()) == (t2, None::<int>));
            },
            None => {},
        }
    } else {
        let t1 = replay_step(t, es[0]).unwrap();
        lemma_replay_all_push(t1, es.drop_first(), e);
        assert(es.push(e)[0] == es[0]);
        assert(es.push(e).drop_first() =~= es.drop_first().push(e));
        assert(replay_all(t, es).0 == replay_all(t1, es.drop_first()).0);
    }
}

/// A logged delete of an existing row, replayed after the rest of the log,
/// marks that row deleted and leaves every other row's mark, every stored
/// fact and the capacity as the log left them.
pub proof fn law_replay_delete_marks_only_its_row(t: (Seq<Fact>, Seq<bool>, nat), es: Seq<WALEntry>, row_id: u64, i: int)
    requires
        replay_all(t, es).1 is None,
        (row_id as usize) < replay_all(t, es).0.0.len(),
        replay_all(t, es).0.0.len() <= replay_all(t, es).0.1.len(),
    ensures
        ({
            let before = replay_all(t, es).0;
            let (after, err) = replay_all(t, es.push(WALEntry::Delete { row_id }));
            &&& err is None
            &&& after.0 == before.0
            &&& after.2 == before.2
            &&& after.1.len() == before.1.len()
            &&& after.1[(row_id as usize) as int]
            &&& (0 <= i < before.1.len() && i != (row_id as usize) as int ==> after.1[i] == before.1[i])
        }),
{
    lemma_replay_all_push(t, es, WALEntry::Delete { row_id });
}

/// A logged delete of a row that does not exist, replayed after the rest
/// of the log, is refused: replay stops at it and the table stays as the
/// log left it.
pub proof fn law_replay_delete_of_missing_row_refused(t: (Seq<Fact>, Seq<bool>, nat), es: Seq<WALEntry>, row_id: u64)
    requires
        replay_all(t, es).1 is None,
        (row_id as usize) >= replay_all(t, es).0.0.len(),
    ensures
        replay_all(t, es.push(WALEntry::Delete { row_id })) == (replay_all(t, es).0, Some(es.len() as int)),
{
    lemma_replay_all_push(t, es, WALEntry::Delete { row_id });
}

/// Where a recovery starts.
#[derive(Clone, Copy, Debug, PartialEq, Eq, Structural)]
pub enum RecoveryPlan {
    /// Load the database file, then replay the log if there is one.
    LoadDatabase,
    /// Replay the log into an empty schema.
    ReplayIntoEmpty,
    /// Start from an empty schema.
    StartEmpty,
}

/// A database file larger than its 32-byte checksum is loaded; without
/// one, a log is replayed into an empty schema; without either, the
/// schema starts empty.
pub fn plan_recovery(db_file_size: Option<u64>, wal_exists: bool) -> (r: RecoveryPlan)
    ensures
        (db_file_size matches Some(n) && n > 32) ==> r == RecoveryPlan::LoadDatabase,
        !(db_file_size matches Some(n) && n > 32) && wal_exists ==> r == RecoveryPlan::ReplayIntoEmpty,
        !(db_file_size matches Some(n) && n > 32) && !wal_exists ==> r == RecoveryPlan::StartEmpty,
{
    match db_file_size {
        Some(n) => {
            if n > 32 {
                return RecoveryPlan::LoadDatabase;
            }
        },
        None => {},
    }
    if wal_exists {
        RecoveryPlan::ReplayIntoEmpty
    } else {
        RecoveryPlan::StartEmpty
    }
}

/// After the database file failed to load: the schema loaded from its
/// backup (`None` when there is no backup or it did not load either) is
/// the one to restore; without it recovery fails.
pub fn backup_fallback(backup: Option<Schema>) -> (r: Result<Schema, KcmError>)
    ensures
        match backup {
            Some(s) => r matches Ok(s2) && s2 == s,
            None => r matches Err(KcmError::Corrupted(m)) && m@ == "Database and backup both corrupted"@,
        },
{
    match backup {
        Some(s) => Ok(s),
        None => Err(KcmError::Corrupted(String::from_str("Database and backup both corrupted"))),
    }
}

/// The live rows of `schema` at positions `base_rows` and after, in order:
/// what an incremental backup holds.
pub open spec fn incremental_rows(rows: Seq<Fact>, dead: Seq<bool>, base_rows: nat) -> Seq<Fact>
    decreases rows.len(),
{
    if rows.len() == 0 {
        Seq::empty()
    } else {
        let i = rows.len() - 1;
        let prev = incremental_rows(rows.drop_last(), dead, base_rows);
        if i >= base_rows && !(i < dead.len() && dead[i]) {
            prev.push(rows[i])
        } else {
            prev
        }
    }
}

/// The schema an incremental backup saves: the live rows added since a
/// base of `base_rows` rows, with room for every live row (at least one).
pub fn incremental_schema(schema: &Schema, base_rows: usize) -> (r: Result<Schema, KcmError>)
    requires
        schema.wf(),
    ensures
        r matches Ok(s) && s.wf() && s.rows() == incremental_rows(schema.rows(), schema.tombstone_view(), base_rows as nat)
            && (forall|i: int| !s.spec_deleted(i)),
{
    let active = schema.active_count();
    let cap = if active > 1 { active } else { 1 };
    let mut out = match Schema::new(cap) {
        Ok(s) => s,
        Err(e) => return Err(e),
    };
    let n = schema.len();
    let ghost rows = schema.rows();
    let ghost dead = schema.tombstone_view();
    let mut i: usize = 0;
    assert(rows.subrange(0, 0) =~= Seq::<Fact>::empty());
    while i < n
        invariant
            schema.wf(),
            n == rows.len(),
            rows == schema.rows(),
            dead == schema.tombstone_view(),
            i <= n,
            out.wf(),
            out.spec_capacity() == cap,
            cap >= 1,
            cap >= schema.spec_active().len(),
            out.rows() == incremental_rows(rows.subrange(0, i as int), dead, base_rows as nat),
            forall|k: int| !out.spec_deleted(k),
        decreases n - i,
    {
        let ghost before = out.rows();
        let ghost tv = out.tombstone_view();
        let ghost before_out = out;
        proof {
            assert(rows.subrange(0, i + 1).drop_last() =~= rows.subrange(0, i as int));
            lemma_incremental_le_active(rows, dead, base_rows as nat, i + 1);
            lemma_active_prefix_mono(rows, dead, i + 1, n as int);
        }
        if i >= base_rows && !schema.is_deleted(i) {
            let f = schema.fact_at(i);
            match out.append_fact(&f) {
                Ok(()) => {},
                Err(e) => {
                    assert(false);
                    return Err(e);
                },
            }
        }
        assert(out.tombstone_view() == tv);
        assert forall|k: int| !out.spec_deleted(k) by {
            assert(!before_out.spec_deleted(k));
        }
        i = i + 1;
    }
    assert(rows.subrange(0, n as int) =~= rows);
    Ok(out)
}

/// Appends the live rows of an incremental backup to the restored schema,
/// stopping when it is full.
pub fn append_live_rows(schema: &mut Schema, incremental: &Schema) -> (r: Result<(), KcmError>)
    requires
        old(schema).wf(),
        incremental.wf(),
    ensures
        final(schema).wf(),
        final(schema).tombstone_view() == old(schema).tombstone_view(),
        ({
            let live = incremental_rows(incremental.rows(), incremental.tombstone_view(), 0);
            let room = old(schema).spec_capacity() - old(schema).rows().len();
            if live.len() <= room {
                r is Ok && final(schema).rows() == old(schema).rows() + live
            } else {
                (r matches Err(KcmError::OutOfMemory)) && final(schema).rows() == old(schema).rows() + live.subrange(
                    0,
                    room,
                )
            }
        }),
{
    let n = incremental.len();
    let ghost rows = incremental.rows();
    let ghost dead = incremental.tombstone_view();
    let ghost start = schema.rows();
    let ghost room = (schema.spec_capacity() - schema.rows().len()) as int;
    let mut i: usize = 0;
    assert(rows.subrange(0, 0) =~= Seq::<Fact>::empty());
    assert(start + Seq::<Fact>::empty() =~= start);
    proof {
        schema.lemma_wf();
    }
    while i < n
        invariant
            incremental.wf(),
            n == rows.len(),
            rows == incremental.rows(),
            dead == incremental.tombstone_view(),
            i <= n,
            schema.wf(),
            schema.tombstone_view() == old(schema).tombstone_view(),
            start == old(schema).rows(),
            room == old(schema).spec_capacity() - old(schema).rows().len(),
            schema.spec_capacity() == old(schema).spec_capacity(),
            incremental_rows(rows.subrange(0, i as int), dead, 0).len() <= room,
            schema.rows() == start + incremental_rows(rows.subrange(0, i as int), dead, 0),
        decreases n - i,
    {
        proof {
            assert(rows.subrange(0, i + 1).drop_last() =~= rows.subrange(0, i as int));
        }
        if !incremental.is_deleted(i) {
            let f = incremental.fact_at(i);
            let ghost pre = incremental_rows(rows.subrange(0, i as int), dead, 0);
            match schema.append_fact(&f) {
                Ok(()) => {
                    assert(schema.rows() =~= start + pre.push(f));
                },
                Err(e) => {
                    proof {
                        assert(pre.len() == room);
                        lemma_incremental_prefix(rows, dead, 0, i as int + 1);
                        assert(incremental_rows(rows, dead, 0).subrange(0, room) =~= pre);
                        assert(start + pre =~= start + pre);
                    }
                    return Err(e);
                },
            }
        }
        i = i + 1;
    }
    assert(rows.subrange(0, n as int) =~= rows);
    Ok(())
}

/// The incremental selection of the first `i` rows is no longer than the
/// live rows among them.
proof fn lemma_incremental_le_active(rows: Seq<Fact>, dead: Seq<bool>, base: nat, i: int)
    requires
        0 <= i <= rows.len(),
    ensures
        incremental_rows(rows.subrange(0, i), dead, base).len() <= active_prefix(rows, dead, i).len(),
    decreases i,
{
    if i > 0 {
        assert(rows.subrange(0, i).drop_last() =~= rows.subrange(0, i - 1));
        lemma_incremental_le_active(rows, dead, base, i - 1);
    }
}

/// Live rows only accumulate.
proof fn lemma_active_prefix_mono(rows: Seq<Fact>, dead: Seq<bool>, i: int, j: int)
    requires
        0 <= i <= j,
    ensures
        active_prefix(rows, dead, i).len() <= active_prefix(rows, dead, j).len(),
    decreases j - i,
{
    if i < j {
        lemma_active_prefix_mono(rows, dead, i, j - 1);
    }
}

/// An incremental selection never holds more rows than are live.
proof fn lemma_incremental_bound(rows: Seq<Fact>, dead: Seq<bool>, base: nat, i: int)
    requires
        0 <= i <= rows.len(),
    ensures
        incremental_rows(rows.subrange(0, i), dead, base).len() <= i,
    decreases i,
{
    if i > 0 {
        assert(rows.subrange(0, i).drop_last() =~= rows.subrange(0, i - 1));
        lemma_incremental_bound(rows, dead, base, i - 1);
    }
}

/// The selection of a prefix is a prefix of the selection.
proof fn lemma_incremental_prefix(rows: Seq<Fact>, dead: Seq<bool>, base: nat, i: int)
    requires
        0 <= i <= rows.len(),
    ensures
        incremental_rows(rows.subrange(0, i), dead, base).len() <= incremental_rows(rows, dead, base).len(),
        incremental_rows(rows, dead, base).subrange(0, incremental_rows(rows.subrange(0, i), dead, base).len() as int)
            == incremental_rows(rows.subrange(0, i), dead, base),
    decreases rows.len() - i,
{
    if i == rows.len() {
        assert(rows.subrange(0, i) =~= rows);
        let s = incremental_rows(rows, dead, base);
        assert(s.subrange(0, s.len() as int) =~= s);
    } else {
        lemma_incremental_prefix(rows, dead, base, i + 1);
        assert(rows.subrange(0, i + 1).drop_last() =~= rows.subrange(0, i));
        let a = incremental_rows(rows.subrange(0, i), dead, base);
        let b = incremental_rows(rows.subrange(0, i + 1), dead, base);
        let s = incremental_rows(rows, dead, base);
        assert(s.subrange(0, a.len() as int) =~= b.subrange(0, a.len() as int));
        assert(b.subrange(0, a.len() as int) =~= a);
    }
}

/// The manifest written beside a backup:
/// `backup_type: {type}\ncreated: {secs}\nbase_rows: {rows}\n`.
pub fn manifest_text(backup_type: &str, created_secs: u64, base_rows: u64) -> (r: String)
    ensures
        r@ == "backup_type: "@ + backup_type@ + "\ncreated: "@ + spec_decimal(created_secs as nat) + "\nbase_rows: "@
            + spec_decimal(base_rows as nat) + "\n"@,
{
    let mut s = String::from_str("backup_type: ");
    s.append(backup_type);
    s.append("\ncreated: ");
    let c = u64_to_decimal(created_secs);
    s.append(c.as_str());
    s.append("\nbase_rows: ");
    let b = u64_to_decimal(base_rows);
    s.append(b.as_str());
    s.append("\n");
    s
}

} // verus!
