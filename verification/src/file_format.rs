//! The database file: a header ("KCMDB", version 1, row count, column
//! count, two timestamps), then the ten columns, each as its length and its
//! raw little-endian values, then a BLAKE3 checksum.
use crate::bytes::{concat_map, i32_from_le, i32_le, i64_from_le, i64_le, lemma_concat_map_index, lemma_concat_map_len, lemma_i8_cast_roundtrip, lemma_le_roundtrips, lemma_window, push_i32, push_i64, push_u16, push_u32, push_u64, read_i32, read_i64, read_u16, read_u32, read_u64};
use crate::column::Schema;
use crate::hash::{hash_blake3, spec_blake3};
use crate::fmt::{spec_decimal, u64_to_decimal};
use crate::recovery::RECOVERY_CAPACITY;
use crate::types::{ContextID, EvidenceID, Fact, KcmError, ObjectID, PredicateID, SubjectID};
use vstd::bytes::{spec_u16_from_le_bytes, spec_u16_to_le_bytes, spec_u32_from_le_bytes, spec_u32_to_le_bytes, spec_u64_from_le_bytes, spec_u64_to_le_bytes};
use vstd::prelude::*;
use vstd::string::*;

verus! {

pub const DB_VERSION: u8 = 1;

/// The number of header bytes before the first column.
pub const HEADER_LEN: usize = 31;

/// "KCMDB".
pub open spec fn db_magic() -> Seq<u8> {
    seq![0x4Bu8, 0x43u8, 0x4Du8, 0x44u8, 0x42u8]
}

pub open spec fn enc_u32(x: u32) -> Seq<u8> {
    spec_u32_to_le_bytes(x)
}

pub open spec fn enc_u8(x: u8) -> Seq<u8> {
    seq![x]
}

pub open spec fn enc_u64(x: u64) -> Seq<u8> {
    spec_u64_to_le_bytes(x)
}

pub open spec fn enc_i64(x: i64) -> Seq<u8> {
    i64_le(x)
}

pub open spec fn enc_i32(x: i32) -> Seq<u8> {
    i32_le(x)
}

pub open spec fn enc_i8(x: i8) -> Seq<u8> {
    seq![x as u8]
}

pub open spec fn enc_u16(x: u16) -> Seq<u8> {
    spec_u16_to_le_bytes(x)
}

/// One column: its length, then its values.
pub open spec fn column_bytes<T>(s: Seq<T>, enc: spec_fn(T) -> Seq<u8>) -> Seq<u8> {
    spec_u64_to_le_bytes(s.len() as u64) + concat_map(s, enc)
}

/// The ten columns of the rows, in file order.
pub open spec fn columns_bytes(rows: Seq<Fact>) -> Seq<u8> {
    column_bytes(rows.map_values(|f: Fact| f.subject.0), |x: u32| enc_u32(x)) + column_bytes(
        rows.map_values(|f: Fact| f.predicate.0),
        |x: u8| enc_u8(x),
    ) + column_bytes(rows.map_values(|f: Fact| f.object.0), |x: u32| enc_u32(x)) + column_bytes(
        rows.map_values(|f: Fact| f.confidence_bits),
        |x: u64| enc_u64(x),
    ) + column_bytes(rows.map_values(|f: Fact| f.evidence.0), |x: u8| enc_u8(x)) + column_bytes(
        rows.map_values(|f: Fact| f.timestamp),
        |x: i64| enc_i64(x),
    ) + column_bytes(rows.map_values(|f: Fact| f.context.0), |x: u8| enc_u8(x)) + column_bytes(
        rows.map_values(|f: Fact| f.version),
        |x: i32| enc_i32(x),
    ) + column_bytes(rows.map_values(|f: Fact| f.priority), |x: i8| enc_i8(x)) + column_bytes(
        rows.map_values(|f: Fact| f.owner),
        |x: u16| enc_u16(x),
    )
}

/// The file's bytes before the checksum, for rows and a creation time.
pub open spec fn db_bytes(rows: Seq<Fact>, created: i64) -> Seq<u8> {
    db_magic() + seq![DB_VERSION] + spec_u64_to_le_bytes(rows.len() as u64) + seq![11u8] + i64_le(created) + i64_le(
        created,
    ) + columns_bytes(rows)
}

/// The byte width of the values of column `k`.
pub open spec fn col_width(k: int) -> nat {
    if k == 0 || k == 2 || k == 7 {
        4
    } else if k == 3 || k == 5 {
        8
    } else if k == 9 {
        2
    } else {
        1
    }
}

/// Where column `k` starts, for `m` rows.
pub open spec fn col_offset(m: nat, k: nat) -> nat
    decreases k,
{
    if k == 0 {
        HEADER_LEN as nat
    } else {
        col_offset(m, (k - 1) as nat) + 8 + m * col_width(k - 1)
    }
}

/// The column offsets, one by one.
pub proof fn lemma_col_offsets(m: nat)
    ensures
        col_offset(m, 0) == 31,
        col_offset(m, 1) == col_offset(m, 0) + 8 + m * 4,
        col_offset(m, 2) == col_offset(m, 1) + 8 + m * 1,
        col_offset(m, 3) == col_offset(m, 2) + 8 + m * 4,
        col_offset(m, 4) == col_offset(m, 3) + 8 + m * 8,
        col_offset(m, 5) == col_offset(m, 4) + 8 + m * 1,
        col_offset(m, 6) == col_offset(m, 5) + 8 + m * 8,
        col_offset(m, 7) == col_offset(m, 6) + 8 + m * 1,
        col_offset(m, 8) == col_offset(m, 7) + 8 + m * 4,
        col_offset(m, 9) == col_offset(m, 8) + 8 + m * 1,
{
    assert(col_width(0) == 4 && col_width(1) == 1 && col_width(2) == 4 && col_width(3) == 8 && col_width(4) == 1);
    assert(col_width(5) == 8 && col_width(6) == 1 && col_width(7) == 4 && col_width(8) == 1);
}

pub open spec fn u64_at(d: Seq<u8>, off: int) -> u64 {
    spec_u64_from_le_bytes(d.subrange(off, off + 8))
}

pub open spec fn u32_at(d: Seq<u8>, off: int) -> u32 {
    spec_u32_from_le_bytes(d.subrange(off, off + 4))
}

pub open spec fn u16_at(d: Seq<u8>, off: int) -> u16 {
    spec_u16_from_le_bytes(d.subrange(off, off + 2))
}

/// Whether the file starts with the magic and version 1, with a whole
/// header.
pub open spec fn db_header_ok(d: Seq<u8>) -> bool {
    d.len() >= HEADER_LEN && d.subrange(0, 5) == db_magic() && d[5] == DB_VERSION
}

/// What is wrong with a file's header, checked in the order the header is
/// read: the magic, the version, then the rest of the header.
pub open spec fn header_error(d: Seq<u8>) -> Option<Seq<char>> {
    if d.len() < 5 {
        Some("Database file too short"@)
    } else if d.subrange(0, 5) != db_magic() {
        Some("Invalid database magic"@)
    } else if d.len() < 6 {
        Some("Database file too short"@)
    } else if d[5] != DB_VERSION {
        Some("Unsupported version: "@ + spec_decimal(d[5] as nat))
    } else if d.len() < HEADER_LEN {
        Some("Database file too short"@)
    } else {
        None
    }
}

/// The row count of the header, as an index.
pub open spec fn db_row_count(d: Seq<u8>) -> nat {
    (u64_at(d, 6) as usize) as nat
}

/// Column `k` is whole: its length field is there and says `m`, and its
/// `m` values follow.
pub open spec fn column_ok(d: Seq<u8>, m: nat, k: nat) -> bool {
    let o = col_offset(m, k);
    &&& o + 8 <= d.len()
    &&& (u64_at(d, o as int) as usize) as nat == m
    &&& o + 8 + m * col_width(k as int) <= d.len()
}

/// All ten columns are whole.
pub open spec fn columns_ok(d: Seq<u8>, m: nat) -> bool {
    forall|k: nat| k < 10 ==> #[trigger] column_ok(d, m, k)
}

/// The `i`-th value start of column `k`.
pub open spec fn val_at(m: nat, k: nat, i: int) -> int {
    col_offset(m, k) + 8 + col_width(k as int) * i
}

/// Row `i` of a well-formed file with `m` rows.
pub open spec fn db_row(d: Seq<u8>, m: nat, i: int) -> Fact {
    Fact {
        subject: SubjectID(u32_at(d, val_at(m, 0, i))),
        predicate: PredicateID(d[val_at(m, 1, i)]),
        object: ObjectID(u32_at(d, val_at(m, 2, i))),
        confidence_bits: u64_at(d, val_at(m, 3, i)),
        evidence: EvidenceID(d[val_at(m, 4, i)]),
        timestamp: i64_from_le(d.subrange(val_at(m, 5, i), val_at(m, 5, i) + 8)),
        context: ContextID(d[val_at(m, 6, i)]),
        version: i32_from_le(d.subrange(val_at(m, 7, i), val_at(m, 7, i) + 4)),
        priority: d[val_at(m, 8, i)] as i8,
        owner: u16_at(d, val_at(m, 9, i)),
    }
}

/// The rows a well-formed file holds.
pub open spec fn db_rows(d: Seq<u8>) -> Seq<Fact> {
    Seq::new(db_row_count(d), |i: int| db_row(d, db_row_count(d), i))
}

/// The database file format.
pub struct DatabaseFile;

impl DatabaseFile {
    /// The bytes `save` writes before the checksum: the header with the
    /// creation time twice, then every stored row (deleted ones too; the
    /// deletion marks are not saved).
    pub fn serialize(schema: &Schema, created: i64) -> (r: Vec<u8>)
        requires
            schema.wf(),
        ensures
            r@ == db_bytes(schema.rows(), created),
    {
        let n = schema.len();
        let mut out: Vec<u8> = Vec::new();
        out.push(0x4Bu8);
        out.push(0x43u8);
        out.push(0x4Du8);
        out.push(0x44u8);
        out.push(0x42u8);
        out.push(DB_VERSION);
        push_u64(&mut out, n as u64);
        out.push(11u8);
        push_i64(&mut out, created);
        push_i64(&mut out, created);
        let ghost rows = schema.rows();
        let ghost head = db_magic() + seq![DB_VERSION] + spec_u64_to_le_bytes(rows.len() as u64) + seq![11u8] + i64_le(created)
            + i64_le(created);
        assert(out@ =~= head);
        let ghost before = out@;
        Self::push_u32_column(&mut out, schema, 0);
        let ghost c0 = out@;
        Self::push_u8_column(&mut out, schema, 1);
        let ghost c1 = out@;
        Self::push_u32_column(&mut out, schema, 2);
        let ghost c2 = out@;
        Self::push_u64_column(&mut out, schema);
        let ghost c3 = out@;
        Self::push_u8_column(&mut out, schema, 4);
        let ghost c4 = out@;
        Self::push_i64_column(&mut out, schema);
        let ghost c5 = out@;
        Self::push_u8_column(&mut out, schema, 6);
        let ghost c6 = out@;
        Self::push_i32_column(&mut out, schema);
        let ghost c7 = out@;
        Self::push_i8_column(&mut out, schema);
        let ghost c8 = out@;
        Self::push_u16_column(&mut out, schema);
        assert(out@ =~= db_bytes(rows, created));
        out
    }

    /// Appends the subject (`which` 0) or object (`which` 2) column.
    fn push_u32_column(out: &mut Vec<u8>, schema: &Schema, which: u8)
        requires
            schema.wf(),
            which == 0 || which == 2,
        ensures
            final(out)@ == old(out)@ + (if which == 0 {
                column_bytes(schema.rows().map_values(|f: Fact| f.subject.0), |x: u32| enc_u32(x))
            } else {
                column_bytes(schema.rows().map_values(|f: Fact| f.object.0), |x: u32| enc_u32(x))
            }),
    {
        let n = schema.len();
        push_u64(out, n as u64);
        let ghost vals = if which == 0 {
            schema.rows().map_values(|f: Fact| f.subject.0)
        } else {
            schema.rows().map_values(|f: Fact| f.object.0)
        };
        let ghost start = out@;
        let mut i: usize = 0;
        while i < n
            invariant
                schema.wf(),
                n == schema.rows().len(),
                i <= n,
                vals.len() == n,
                vals == (if which == 0 {
                    schema.rows().map_values(|f: Fact| f.subject.0)
                } else {
                    schema.rows().map_values(|f: Fact| f.object.0)
                }),
                out@ == start + concat_map(vals.subrange(0, i as int), |x: u32| enc_u32(x)),
            decreases n - i,
        {
            let f = schema.fact_at(i);
            let v = if which == 0 {
                f.subject.0
            } else {
                f.object.0
            };
            push_u32(out, v);
            proof {
                let p = vals.subrange(0, i + 1);
                assert(p.drop_last() =~= vals.subrange(0, i as int));
                assert(p.last() == v);
            }
            i = i + 1;
        }
        assert(vals.subrange(0, n as int) =~= vals);
    }

    /// Appends the predicate (`which` 1), evidence (4) or context (6)
    /// column.
    fn push_u8_column(out: &mut Vec<u8>, schema: &Schema, which: u8)
        requires
            schema.wf(),
            which == 1 || which == 4 || which == 6,
        ensures
            final(out)@ == old(out)@ + (if which == 1 {
                column_bytes(schema.rows().map_values(|f: Fact| f.predicate.0), |x: u8| enc_u8(x))
            } else if which == 4 {
                column_bytes(schema.rows().map_values(|f: Fact| f.evidence.0), |x: u8| enc_u8(x))
            } else {
                column_bytes(schema.rows().map_values(|f: Fact| f.context.0), |x: u8| enc_u8(x))
            }),
    {
        let n = schema.len();
        push_u64(out, n as u64);
        let ghost vals = if which == 1 {
            schema.rows().map_values(|f: Fact| f.predicate.0)
        } else if which == 4 {
            schema.rows().map_values(|f: Fact| f.evidence.0)
        } else {
            schema.rows().map_values(|f: Fact| f.context.0)
        };
        let ghost start = out@;
        let mut i: usize = 0;
        while i < n
            invariant
                schema.wf(),
                n == schema.rows().len(),
                i <= n,
                vals.len() == n,
                vals == (if which == 1 {
                    schema.rows().map_values(|f: Fact| f.predicate.0)
                } else if which == 4 {
                    schema.rows().map_values(|f: Fact| f.evidence.0)
                } else {
                    schema.rows().map_values(|f: Fact| f.context.0)
                }),
                out@ == start + concat_map(vals.subrange(0, i as int), |x: u8| enc_u8(x)),
            decreases n - i,
        {
            let f = schema.fact_at(i);
            let v = if which == 1 {
                f.predicate.0
            } else if which == 4 {
                f.evidence.0
            } else {
                f.context.0
            };
            out.push(v);
            proof {
                let p = vals.subrange(0, i + 1);
                assert(p.drop_last() =~= vals.subrange(0, i as int));
                assert(p.last() == v);
                assert(out@ =~= start + concat_map(p, |x: u8| enc_u8(x)));
            }
            i = i + 1;
        }
        assert(vals.subrange(0, n as int) =~= vals);
    }

    fn push_u64_column(out: &mut Vec<u8>, schema: &Schema)
        requires
            schema.wf(),
        ensures
            final(out)@ == old(out)@ + column_bytes(schema.rows().map_values(|f: Fact| f.confidence_bits), |x: u64| enc_u64(x)),
    {
        let n = schema.len();
        push_u64(out, n as u64);
        let ghost vals = schema.rows().map_values(|f: Fact| f.confidence_bits);
        let ghost start = out@;
        let mut i: usize = 0;
        while i < n
            invariant
                schema.wf(),
                n == schema.rows().len(),
                i <= n,
                vals == schema.rows().map_values(|f: Fact| f.confidence_bits),
                out@ == start + concat_map(vals.subrange(0, i as int), |x: u64| enc_u64(x)),
            decreases n - i,
        {
            let f = schema.fact_at(i);
            push_u64(out, f.confidence_bits);
            proof {
                let p = vals.subrange(0, i + 1);
                assert(p.drop_last() =~= vals.subrange(0, i as int));
                assert(p.last() == f.confidence_bits);
            }
            i = i + 1;
        }
        assert(vals.subrange(0, n as int) =~= vals);
    }

    fn push_i64_column(out: &mut Vec<u8>, schema: &Schema)
        requires
            schema.wf(),
        ensures
            final(out)@ == old(out)@ + column_bytes(schema.rows().map_values(|f: Fact| f.timestamp), |x: i64| enc_i64(x)),
    {
        let n = schema.len();
        push_u64(out, n as u64);
        let ghost vals = schema.rows().map_values(|f: Fact| f.timestamp);
        let ghost start = out@;
        let mut i: usize = 0;
        while i < n
            invariant
                schema.wf(),
                n == schema.rows().len(),
                i <= n,
                vals == schema.rows().map_values(|f: Fact| f.timestamp),
                out@ == start + concat_map(vals.subrange(0, i as int), |x: i64| enc_i64(x)),
            decreases n - i,
        {
            let f = schema.fact_at(i);
            push_i64(out, f.timestamp);
            proof {
                let p = vals.subrange(0, i + 1);
                assert(p.drop_last() =~= vals.subrange(0, i as int));
                assert(p.last() == f.timestamp);
            }
            i = i + 1;
        }
        assert(vals.subrange(0, n as int) =~= vals);
    }

    fn push_i32_column(out: &mut Vec<u8>, schema: &Schema)
        requires
            schema.wf(),
        ensures
            final(out)@ == old(out)@ + column_bytes(schema.rows().map_values(|f: Fact| f.version), |x: i32| enc_i32(x)),
    {
        let n = schema.len();
        push_u64(out, n as u64);
        let ghost vals = schema.rows().map_values(|f: Fact| f.version);
        let ghost start = out@;
        let mut i: usize = 0;
        while i < n
            invariant
                schema.wf(),
                n == schema.rows().len(),
                i <= n,
                vals == schema.rows().map_values(|f: Fact| f.version),
                out@ == start + concat_map(vals.subrange(0, i as int), |x: i32| enc_i32(x)),
            decreases n - i,
        {
            let f = schema.fact_at(i);
            push_i32(out, f.version);
            proof {
                let p = vals.subrange(0, i + 1);
                assert(p.drop_last() =~= vals.subrange(0, i as int));
                assert(p.last() == f.version);
            }
            i = i + 1;
        }
        assert(vals.subrange(0, n as int) =~= vals);
    }

    fn push_i8_column(out: &mut Vec<u8>, schema: &Schema)
        requires
            schema.wf(),
        ensures
            final(out)@ == old(out)@ + column_bytes(schema.rows().map_values(|f: Fact| f.priority), |x: i8| enc_i8(x)),
    {
        let n = schema.len();
        push_u64(out, n as u64);
        let ghost vals = schema.rows().map_values(|f: Fact| f.priority);
        let ghost start = out@;
        let mut i: usize = 0;
        while i < n
            invariant
                schema.wf(),
                n == schema.rows().len(),
                i <= n,
                vals == schema.rows().map_values(|f: Fact| f.priority),
                out@ == start + concat_map(vals.subrange(0, i as int), |x: i8| enc_i8(x)),
            decreases n - i,
        {
            let f = schema.fact_at(i);
            out.push(f.priority as u8);
            proof {
                let p = vals.subrange(0, i + 1);
                assert(p.drop_last() =~= vals.subrange(0, i as int));
                assert(p.last() == f.priority);
                assert(out@ =~= start + concat_map(p, |x: i8| enc_i8(x)));
            }
            i = i + 1;
        }
        assert(vals.subrange(0, n as int) =~= vals);
    }

    fn push_u16_column(out: &mut Vec<u8>, schema: &Schema)
        requires
            schema.wf(),
        ensures
            final(out)@ == old(out)@ + column_bytes(schema.rows().map_values(|f: Fact| f.owner), |x: u16| enc_u16(x)),
    {
        let n = schema.len();
        push_u64(out, n as u64);
        let ghost vals = schema.rows().map_values(|f: Fact| f.owner);
        let ghost start = out@;
        let mut i: usize = 0;
        while i < n
            invariant
                schema.wf(),
                n == schema.rows().len(),
                i <= n,
                vals == schema.rows().map_values(|f: Fact| f.owner),
                out@ == start + concat_map(vals.subrange(0, i as int), |x: u16| enc_u16(x)),
            decreases n - i,
        {
            let f = schema.fact_at(i);
            push_u16(out, f.owner);
            proof {
                let p = vals.subrange(0, i + 1);
                assert(p.drop_last() =~= vals.subrange(0, i as int));
                assert(p.last() == f.owner);
            }
            i = i + 1;
        }
        assert(vals.subrange(0, n as int) =~= vals);
    }

    /// Reads the file's bytes (a trailing checksum is ignored). A header
    /// with another magic or version, or one cut short, is corrupt, and so
    /// is a column that is short or whose length is not the row count. The
    /// loaded schema has room for `RECOVERY_CAPACITY` facts beyond the
    /// stored rows, which a recovery replays its log into.
    pub fn parse(data: &[u8]) -> (r: Result<Schema, KcmError>)
        ensures
            header_error(data@) is None <==> db_header_ok(data@),
            header_error(data@) matches Some(msg) ==> (r matches Err(KcmError::Corrupted(m)) && m@ == msg),
            db_header_ok(data@) && !columns_ok(data@, db_row_count(data@)) ==> (r matches Err(KcmError::Corrupted(m))
                && m@ == "Truncated column"@),
            db_header_ok(data@) && columns_ok(data@, db_row_count(data@)) ==> (r matches Ok(s) && s.wf() && s.rows()
                == db_rows(data@) && s.spec_capacity() == db_row_count(data@) + RECOVERY_CAPACITY && (forall|i: int|
                !s.spec_deleted(i))),
    {
        let n = data.len();
        if n < 5 {
            return Err(KcmError::Corrupted(String::from_str("Database file too short")));
        }
        if !(data[0] == 0x4Bu8 && data[1] == 0x43u8 && data[2] == 0x4Du8 && data[3] == 0x44u8 && data[4] == 0x42u8) {
            assert(data@.subrange(0, 5) != db_magic()) by {
                assert(data@.subrange(0, 5)[0] == data@[0]);
                assert(data@.subrange(0, 5)[1] == data@[1]);
                assert(data@.subrange(0, 5)[2] == data@[2]);
                assert(data@.subrange(0, 5)[3] == data@[3]);
                assert(data@.subrange(0, 5)[4] == data@[4]);
            }
            return Err(KcmError::Corrupted(String::from_str("Invalid database magic")));
        }
        assert(data@.subrange(0, 5) =~= db_magic());
        if n < 6 {
            return Err(KcmError::Corrupted(String::from_str("Database file too short")));
        }
        if data[5] != DB_VERSION {
            let mut msg = String::from_str("Unsupported version: ");
            let v = u64_to_decimal(data[5] as u64);
            msg.append(v.as_str());
            return Err(KcmError::Corrupted(msg));
        }
        if n < HEADER_LEN {
            return Err(KcmError::Corrupted(String::from_str("Database file too short")));
        }
        let m = read_u64(data, 6) as usize;
        let ghost d = data@;
        let ghost mm = m as nat;
        proof {
            lemma_col_offsets(mm);
        }
        let o0: usize = HEADER_LEN;
        let o1 = match check_column(data, o0, m, 4) {
            Some(x) => x,
            None => {
                assert(!column_ok(d, mm, 0));
                return Err(KcmError::Corrupted(String::from_str("Truncated column")));
            },
        };
        assert(col_offset(mm, 1) == o1);
        let o2 = match check_column(data, o1, m, 1) {
            Some(x) => x,
            None => {
                assert(!column_ok(d, mm, 1));
                return Err(KcmError::Corrupted(String::from_str("Truncated column")));
            },
        };
        assert(col_offset(mm, 2) == o2);
        let o3 = match check_column(data, o2, m, 4) {
            Some(x) => x,
            None => {
                assert(!column_ok(d, mm, 2));
                return Err(KcmError::Corrupted(String::from_str("Truncated column")));
            },
        };
        assert(col_offset(mm, 3) == o3);
        let o4 = match check_column(data, o3, m, 8) {
            Some(x) => x,
            None => {
                assert(!column_ok(d, mm, 3));
                return Err(KcmError::Corrupted(String::from_str("Truncated column")));
            },
        };
        assert(col_offset(mm, 4) == o4);
        let o5 = match check_column(data, o4, m, 1) {
            Some(x) => x,
            None => {
                assert(!column_ok(d, mm, 4));
                return Err(KcmError::Corrupted(String::from_str("Truncated column")));
            },
        };
        assert(col_offset(mm, 5) == o5);
        let o6 = match check_column(data, o5, m, 8) {
            Some(x) => x,
            None => {
                assert(!column_ok(d, mm, 5));
                return Err(KcmError::Corrupted(String::from_str("Truncated column")));
            },
        };
        assert(col_offset(mm, 6) == o6);
        let o7 = match check_column(data, o6, m, 1) {
            Some(x) => x,
            None => {
                assert(!column_ok(d, mm, 6));
                return Err(KcmError::Corrupted(String::from_str("Truncated column")));
            },
        };
        assert(col_offset(mm, 7) == o7);
        let o8 = match check_column(data, o7, m, 4) {
            Some(x) => x,
            None => {
                assert(!column_ok(d, mm, 7));
                return Err(KcmError::Corrupted(String::from_str("Truncated column")));
            },
        };
        assert(col_offset(mm, 8) == o8);
        let o9 = match check_column(data, o8, m, 1) {
            Some(x) => x,
            None => {
                assert(!column_ok(d, mm, 8));
                return Err(KcmError::Corrupted(String::from_str("Truncated column")));
            },
        };
        assert(col_offset(mm, 9) == o9);
        let end = match check_column(data, o9, m, 2) {
            Some(x) => x,
            None => {
                assert(!column_ok(d, mm, 9));
                return Err(KcmError::Corrupted(String::from_str("Truncated column")));
            },
        };
        proof {
            assert forall|k: nat| k < 10 implies #[trigger] column_ok(d, mm, k) by {
                if k == 0 {
                } else if k == 1 {
                } else if k == 2 {
                } else if k == 3 {
                } else if k == 4 {
                } else if k == 5 {
                } else if k == 6 {
                } else if k == 7 {
                } else if k == 8 {
                } else {
                }
            }
        }
        let ghost rows = db_rows(d);
        let mut schema = match Schema::new(m + RECOVERY_CAPACITY) {
            Ok(s) => s,
            Err(e) => {
                return Err(e);
            },
        };
        proof {
            schema.lemma_wf();
        }
        let mut i: usize = 0;
        while i < m
            invariant
                d == data@,
                n == d.len(),
                mm == m,
                mm == db_row_count(d),
                rows == db_rows(d),
                i <= m,
                o1 == o0 + 8 + m * 4,
                o2 == o1 + 8 + m * 1,
                o3 == o2 + 8 + m * 4,
                o4 == o3 + 8 + m * 8,
                o5 == o4 + 8 + m * 1,
                o6 == o5 + 8 + m * 8,
                o7 == o6 + 8 + m * 1,
                o8 == o7 + 8 + m * 4,
                o9 == o8 + 8 + m * 1,
                end == o9 + 8 + m * 2,
                end <= n,
                o0 == col_offset(mm, 0),
                o1 == col_offset(mm, 1),
                o2 == col_offset(mm, 2),
                o3 == col_offset(mm, 3),
                o4 == col_offset(mm, 4),
                o5 == col_offset(mm, 5),
                o6 == col_offset(mm, 6),
                o7 == col_offset(mm, 7),
                o8 == col_offset(mm, 8),
                o9 == col_offset(mm, 9),
                schema.wf(),
                schema.spec_capacity() == m + RECOVERY_CAPACITY,
                schema.rows() == rows.subrange(0, i as int),
                forall|k: int| !schema.spec_deleted(k),
            decreases m - i,
        {
            proof {
                lemma_slot(o0 as int + 8, 4, m as int, i as int);
                lemma_slot(o1 as int + 8, 1, m as int, i as int);
                lemma_slot(o2 as int + 8, 4, m as int, i as int);
                lemma_slot(o3 as int + 8, 8, m as int, i as int);
                lemma_slot(o4 as int + 8, 1, m as int, i as int);
                lemma_slot(o5 as int + 8, 8, m as int, i as int);
                lemma_slot(o6 as int + 8, 1, m as int, i as int);
                lemma_slot(o7 as int + 8, 4, m as int, i as int);
                lemma_slot(o8 as int + 8, 1, m as int, i as int);
                lemma_slot(o9 as int + 8, 2, m as int, i as int);
            }
            let f = Fact {
                subject: SubjectID(read_u32(data, o0 + 8 + 4 * i)),
                predicate: PredicateID(data[o1 + 8 + i]),
                object: ObjectID(read_u32(data, o2 + 8 + 4 * i)),
                confidence_bits: read_u64(data, o3 + 8 + 8 * i),
                evidence: EvidenceID(data[o4 + 8 + i]),
                timestamp: read_i64(data, o5 + 8 + 8 * i),
                context: ContextID(data[o6 + 8 + i]),
                version: read_i32(data, o7 + 8 + 4 * i),
                priority: data[o8 + 8 + i] as i8,
                owner: read_u16(data, o9 + 8 + 2 * i),
            };
            assert(f == db_row(d, mm, i as int));
            let ghost before = schema;
            let _ = schema.append_fact(&f);
            proof {
                assert(rows.subrange(0, i + 1) =~= rows.subrange(0, i as int).push(f));
                assert forall|k: int| !schema.spec_deleted(k) by {
                    assert(!before.spec_deleted(k));
                }
            }
            i = i + 1;
        }
        assert(rows.subrange(0, m as int) =~= rows);
        Ok(schema)
    }

    /// The BLAKE3 checksum of a file's bytes.
    pub fn compute_checksum(data: &[u8]) -> (r: [u8; 32])
        ensures
            r@ == spec_blake3(data@),
    {
        hash_blake3(data)
    }

    /// The whole file `save` writes: the serialized schema followed by its
    /// 32-byte BLAKE3 checksum.
    pub fn file_bytes(schema: &Schema, created: i64) -> (r: Vec<u8>)
        requires
            schema.wf(),
        ensures
            r@ == db_bytes(schema.rows(), created) + spec_blake3(db_bytes(schema.rows(), created)),
            spec_blake3(db_bytes(schema.rows(), created)).len() == 32,
    {
        let mut out = Self::serialize(schema, created);
        let sum = hash_blake3(out.as_slice());
        let ghost body = out@;
        crate::bytes::push_bytes(&mut out, &sum);
        assert(out@ =~= body + sum@);
        out
    }

    /// Whether the last 32 bytes of the file are the checksum of the bytes
    /// before them; a file under 32 bytes fails.
    pub fn verify(data: &[u8]) -> (r: Result<bool, KcmError>)
        ensures
            r == Ok::<bool, KcmError>(checksum_ok(data@)),
    {
        let n = data.len();
        if n < 32 {
            return Ok(false);
        }
        let body = vstd::slice::slice_subrange(data, 0, n - 32);
        let computed = hash_blake3(body);
        let mut i: usize = 0;
        while i < 32
            invariant
                n == data@.len(),
                n >= 32,
                body@ == data@.subrange(0, n - 32),
                computed@.len() == 32,
                computed@ == spec_blake3(body@),
                i <= 32,
                forall|k: int| 0 <= k < i ==> data@[n - 32 + k] == computed@[k],
            decreases 32 - i,
        {
            if data[n - 32 + i] != computed[i] {
                assert(data@.subrange(n - 32, n as int)[i as int] != computed@[i as int]);
                return Ok(false);
            }
            i = i + 1;
        }
        assert(data@.subrange(n - 32, n as int) =~= computed@);
        Ok(true)
    }
}

/// A file's bytes end in the BLAKE3 checksum of the bytes before it.
pub open spec fn checksum_ok(data: Seq<u8>) -> bool {
    data.len() >= 32 && data.subrange(data.len() - 32, data.len() as int) == spec_blake3(data.subrange(0, data.len() - 32))
}

/// Bytes followed by their own 32-byte checksum pass the check.
pub proof fn law_checksummed_file_verifies(body: Seq<u8>, sum: Seq<u8>)
    requires
        sum.len() == 32,
        sum == spec_blake3(body),
    ensures
        checksum_ok(body + sum),
{
    let d = body + sum;
    assert(d.subrange(0, d.len() - 32) =~= body);
    assert(d.subrange(d.len() - 32, d.len() as int) =~= sum);
}

/// Slot `i` of a column of `m` values of width `w` starting at `start` ends
/// within the column.
proof fn lemma_slot(start: int, w: int, m: int, i: int)
    requires
        0 <= i < m,
        0 < w,
    ensures
        start + w * i + w <= start + w * m,
        w * i >= 0,
{
    assert(w * i + w <= w * m) by (nonlinear_arith)
        requires
            0 <= i < m,
            0 < w,
    ;
    assert(w * i >= 0) by (nonlinear_arith)
        requires
            0 <= i,
            0 < w,
    ;
}

/// Checks the column at `off`: its length field must read `m` and its `m`
/// values of width `w` must follow; gives the offset after it.
fn check_column(data: &[u8], off: usize, m: usize, w: usize) -> (r: Option<usize>)
    requires
        off <= data@.len(),
        1 <= w <= 8,
    ensures
        r is Some <==> (off + 8 <= data@.len() && (u64_at(data@, off as int) as usize) as nat == m && off + 8 + m * w
            <= data@.len()),
        r matches Some(next) ==> next == off + 8 + m * w,
{
    let n = data.len();
    if n - off < 8 {
        return None;
    }
    let len = read_u64(data, off) as usize;
    if len != m {
        return None;
    }
    let room = n - off - 8;
    if room / w < m {
        assert(m * w > room) by (nonlinear_arith)
            requires
                room / w < m,
                1 <= w,
        ;
        return None;
    }
    assert(m * w <= room) by (nonlinear_arith)
        requires
            room / w >= m,
            1 <= w,
    ;
    Some(off + 8 + m * w)
}


/// A column written at `o` reads back: its length, and each value at its
/// slot.
proof fn lemma_column_at<T>(d: Seq<u8>, o: int, vals: Seq<T>, enc: spec_fn(T) -> Seq<u8>, w: nat)
    requires
        forall|x: T| #[trigger] enc(x).len() == w,
        1 <= w,
        0 <= o,
        vals.len() <= u64::MAX,
        o + 8 + w * vals.len() <= d.len(),
        d.subrange(o, o + 8 + w * vals.len()) == column_bytes(vals, enc),
    ensures
        u64_at(d, o) == vals.len() as u64,
        forall|i: int| 0 <= i < vals.len() ==> #[trigger] d.subrange(o + 8 + w * i, o + 8 + w * i + w) == enc(vals[i]),
{
    lemma_le_roundtrips();
    let c = column_bytes(vals, enc);
    let body = concat_map(vals, enc);
    lemma_concat_map_len(vals, enc, w);
    assert(c.len() == 8 + w * vals.len());
    lemma_window(d, o, c, 0, 8);
    assert(c.subrange(0, 8) =~= spec_u64_to_le_bytes(vals.len() as u64));
    assert forall|i: int| 0 <= i < vals.len() implies #[trigger] d.subrange(o + 8 + w * i, o + 8 + w * i + w) == enc(vals[i]) by {
        lemma_concat_map_index(vals, enc, w, i);
        assert(w * i + w <= w * vals.len()) by (nonlinear_arith)
            requires
                0 <= i < vals.len(),
        ;
        assert(w * i >= 0) by (nonlinear_arith)
            requires
                0 <= i,
        ;
        lemma_window(d, o, c, 8 + w * i, 8 + w * i + w);
        assert(c.subrange(8 + w * i, 8 + w * i + w) =~= body.subrange(w * i, w * i + w));
    }
}

/// The columns of a written file sit at their offsets.
#[verifier::rlimit(100)]
proof fn lemma_db_windows(rows: Seq<Fact>, created: i64, tail: Seq<u8>)
    requires
        rows.len() <= usize::MAX,
    ensures
        ({
            let m = rows.len() as int;
            let d = db_bytes(rows, created) + tail;
            let o1 = 31 + 8 + 4 * m;
            let o2 = o1 + 8 + 1 * m;
            let o3 = o2 + 8 + 4 * m;
            let o4 = o3 + 8 + 8 * m;
            let o5 = o4 + 8 + 1 * m;
            let o6 = o5 + 8 + 8 * m;
            let o7 = o6 + 8 + 1 * m;
            let o8 = o7 + 8 + 4 * m;
            let o9 = o8 + 8 + 1 * m;
            let end = o9 + 8 + 2 * m;
            &&& d.len() >= end
            &&& d.subrange(0, 5) == db_magic()
            &&& d[5] == DB_VERSION
            &&& d.subrange(6, 14) == spec_u64_to_le_bytes(m as u64)
            &&& d.subrange(31, o1) == column_bytes(rows.map_values(|f: Fact| f.subject.0), |x: u32| enc_u32(x))
            &&& d.subrange(o1, o2) == column_bytes(rows.map_values(|f: Fact| f.predicate.0), |x: u8| enc_u8(x))
            &&& d.subrange(o2, o3) == column_bytes(rows.map_values(|f: Fact| f.object.0), |x: u32| enc_u32(x))
            &&& d.subrange(o3, o4) == column_bytes(rows.map_values(|f: Fact| f.confidence_bits), |x: u64| enc_u64(x))
            &&& d.subrange(o4, o5) == column_bytes(rows.map_values(|f: Fact| f.evidence.0), |x: u8| enc_u8(x))
            &&& d.subrange(o5, o6) == column_bytes(rows.map_values(|f: Fact| f.timestamp), |x: i64| enc_i64(x))
            &&& d.subrange(o6, o7) == column_bytes(rows.map_values(|f: Fact| f.context.0), |x: u8| enc_u8(x))
            &&& d.subrange(o7, o8) == column_bytes(rows.map_values(|f: Fact| f.version), |x: i32| enc_i32(x))
            &&& d.subrange(o8, o9) == column_bytes(rows.map_values(|f: Fact| f.priority), |x: i8| enc_i8(x))
            &&& d.subrange(o9, end) == column_bytes(rows.map_values(|f: Fact| f.owner), |x: u16| enc_u16(x))
        }),
{
    lemma_le_roundtrips();
    let m = rows.len();
    let c0 = column_bytes(rows.map_values(|f: Fact| f.subject.0), |x: u32| enc_u32(x));
    let c1 = column_bytes(rows.map_values(|f: Fact| f.predicate.0), |x: u8| enc_u8(x));
    let c2 = column_bytes(rows.map_values(|f: Fact| f.object.0), |x: u32| enc_u32(x));
    let c3 = column_bytes(rows.map_values(|f: Fact| f.confidence_bits), |x: u64| enc_u64(x));
    let c4 = column_bytes(rows.map_values(|f: Fact| f.evidence.0), |x: u8| enc_u8(x));
    let c5 = column_bytes(rows.map_values(|f: Fact| f.timestamp), |x: i64| enc_i64(x));
    let c6 = column_bytes(rows.map_values(|f: Fact| f.context.0), |x: u8| enc_u8(x));
    let c7 = column_bytes(rows.map_values(|f: Fact| f.version), |x: i32| enc_i32(x));
    let c8 = column_bytes(rows.map_values(|f: Fact| f.priority), |x: i8| enc_i8(x));
    let c9 = column_bytes(rows.map_values(|f: Fact| f.owner), |x: u16| enc_u16(x));
    lemma_concat_map_len(rows.map_values(|f: Fact| f.subject.0), |x: u32| enc_u32(x), 4);
    lemma_concat_map_len(rows.map_values(|f: Fact| f.predicate.0), |x: u8| enc_u8(x), 1);
    lemma_concat_map_len(rows.map_values(|f: Fact| f.object.0), |x: u32| enc_u32(x), 4);
    lemma_concat_map_len(rows.map_values(|f: Fact| f.confidence_bits), |x: u64| enc_u64(x), 8);
    lemma_concat_map_len(rows.map_values(|f: Fact| f.evidence.0), |x: u8| enc_u8(x), 1);
    lemma_concat_map_len(rows.map_values(|f: Fact| f.timestamp), |x: i64| enc_i64(x), 8);
    lemma_concat_map_len(rows.map_values(|f: Fact| f.context.0), |x: u8| enc_u8(x), 1);
    lemma_concat_map_len(rows.map_values(|f: Fact| f.version), |x: i32| enc_i32(x), 4);
    lemma_concat_map_len(rows.map_values(|f: Fact| f.priority), |x: i8| enc_i8(x), 1);
    lemma_concat_map_len(rows.map_values(|f: Fact| f.owner), |x: u16| enc_u16(x), 2);
    let h = db_magic() + seq![DB_VERSION] + spec_u64_to_le_bytes(m as u64) + seq![11u8] + i64_le(created) + i64_le(created);
    let p1 = c0;
    let p2 = p1 + c1;
    let p3 = p2 + c2;
    let p4 = p3 + c3;
    let p5 = p4 + c4;
    let p6 = p5 + c5;
    let p7 = p6 + c6;
    let p8 = p7 + c7;
    let p9 = p8 + c8;
    let p10 = p9 + c9;
    let d = db_bytes(rows, created) + tail;
    assert(columns_bytes(rows) == p10);
    assert(d == (h + p10) + tail);
    assert(h.len() == 31);
    assert(d.subrange(0, 5) =~= db_magic());
    assert(d.subrange(6, 14) =~= spec_u64_to_le_bytes(m as u64));
    assert(d.subrange(31, 31 + p10.len() as int) =~= p10);
    crate::bytes::lemma_concat_right(p9, c9);
    crate::bytes::lemma_concat_right(p8, c8);
    crate::bytes::lemma_concat_right(p7, c7);
    crate::bytes::lemma_concat_right(p6, c6);
    crate::bytes::lemma_concat_right(p5, c5);
    crate::bytes::lemma_concat_right(p4, c4);
    crate::bytes::lemma_concat_right(p3, c3);
    crate::bytes::lemma_concat_right(p2, c2);
    crate::bytes::lemma_concat_right(p1, c1);
    lemma_window(d, 31, p10, p9.len() as int, p10.len() as int);
    lemma_window(d, 31, p10, 0, p9.len() as int);
    lemma_window(d, 31, p9, p8.len() as int, p9.len() as int);
    lemma_window(d, 31, p9, 0, p8.len() as int);
    lemma_window(d, 31, p8, p7.len() as int, p8.len() as int);
    lemma_window(d, 31, p8, 0, p7.len() as int);
    lemma_window(d, 31, p7, p6.len() as int, p7.len() as int);
    lemma_window(d, 31, p7, 0, p6.len() as int);
    lemma_window(d, 31, p6, p5.len() as int, p6.len() as int);
    lemma_window(d, 31, p6, 0, p5.len() as int);
    lemma_window(d, 31, p5, p4.len() as int, p5.len() as int);
    lemma_window(d, 31, p5, 0, p4.len() as int);
    lemma_window(d, 31, p4, p3.len() as int, p4.len() as int);
    lemma_window(d, 31, p4, 0, p3.len() as int);
    lemma_window(d, 31, p3, p2.len() as int, p3.len() as int);
    lemma_window(d, 31, p3, 0, p2.len() as int);
    lemma_window(d, 31, p2, p1.len() as int, p2.len() as int);
    lemma_window(d, 31, p2, 0, p1.len() as int);
}

/// What `serialize` writes, `parse` reads back: the stored rows, all live
/// (a trailing checksum or anything else after them is ignored).
#[verifier::rlimit(100)]
pub proof fn law_file_roundtrip(rows: Seq<Fact>, created: i64, tail: Seq<u8>)
    requires
        rows.len() <= usize::MAX,
    ensures
        db_header_ok(db_bytes(rows, created) + tail),
        db_row_count(db_bytes(rows, created) + tail) == rows.len(),
        columns_ok(db_bytes(rows, created) + tail, rows.len()),
        db_rows(db_bytes(rows, created) + tail) == rows,
{
    lemma_le_roundtrips();
    lemma_db_windows(rows, created, tail);
    let m = rows.len();
    lemma_col_offsets(m);
    let d = db_bytes(rows, created) + tail;
    let o0 = 31int;
    let o1 = o0 + 8 + 4 * m;
    let o2 = o1 + 8 + 1 * m;
    let o3 = o2 + 8 + 4 * m;
    let o4 = o3 + 8 + 8 * m;
    let o5 = o4 + 8 + 1 * m;
    let o6 = o5 + 8 + 8 * m;
    let o7 = o6 + 8 + 1 * m;
    let o8 = o7 + 8 + 4 * m;
    let o9 = o8 + 8 + 1 * m;
    lemma_column_at(d, o0, rows.map_values(|f: Fact| f.subject.0), |x: u32| enc_u32(x), 4);
    lemma_column_at(d, o1, rows.map_values(|f: Fact| f.predicate.0), |x: u8| enc_u8(x), 1);
    lemma_column_at(d, o2, rows.map_values(|f: Fact| f.object.0), |x: u32| enc_u32(x), 4);
    lemma_column_at(d, o3, rows.map_values(|f: Fact| f.confidence_bits), |x: u64| enc_u64(x), 8);
    lemma_column_at(d, o4, rows.map_values(|f: Fact| f.evidence.0), |x: u8| enc_u8(x), 1);
    lemma_column_at(d, o5, rows.map_values(|f: Fact| f.timestamp), |x: i64| enc_i64(x), 8);
    lemma_column_at(d, o6, rows.map_values(|f: Fact| f.context.0), |x: u8| enc_u8(x), 1);
    lemma_column_at(d, o7, rows.map_values(|f: Fact| f.version), |x: i32| enc_i32(x), 4);
    lemma_column_at(d, o8, rows.map_values(|f: Fact| f.priority), |x: i8| enc_i8(x), 1);
    lemma_column_at(d, o9, rows.map_values(|f: Fact| f.owner), |x: u16| enc_u16(x), 2);
    assert(db_header_ok(d));
    assert(db_row_count(d) == m);
    assert forall|k: nat| k < 10 implies #[trigger] column_ok(d, m, k) by {
        if k == 0 {
            assert(u64_at(d, o0) == m as u64);
        } else if k == 1 {
            assert(u64_at(d, o1) == m as u64);
        } else if k == 2 {
            assert(u64_at(d, o2) == m as u64);
        } else if k == 3 {
            assert(u64_at(d, o3) == m as u64);
        } else if k == 4 {
            assert(u64_at(d, o4) == m as u64);
        } else if k == 5 {
            assert(u64_at(d, o5) == m as u64);
        } else if k == 6 {
            assert(u64_at(d, o6) == m as u64);
        } else if k == 7 {
            assert(u64_at(d, o7) == m as u64);
        } else if k == 8 {
            assert(u64_at(d, o8) == m as u64);
        } else {
            assert(u64_at(d, o9) == m as u64);
        }
    }
    assert forall|i: int| 0 <= i < m implies #[trigger] db_rows(d)[i] == rows[i] by {
        lemma_row_back(d, rows, i, o0, o1, o2, o3, o4, o5, o6, o7, o8, o9);
    }
    assert(db_rows(d) =~= rows);
}

proof fn lemma_row_back(d: Seq<u8>, rows: Seq<Fact>, i: int, o0: int, o1: int, o2: int, o3: int, o4: int, o5: int, o6: int, o7: int, o8: int, o9: int)
    requires
        0 <= i < rows.len(),
        db_row_count(d) == rows.len(),
        o0 == 31,
        o1 == o0 + 8 + 4 * rows.len(),
        o2 == o1 + 8 + 1 * rows.len(),
        o3 == o2 + 8 + 4 * rows.len(),
        o4 == o3 + 8 + 8 * rows.len(),
        o5 == o4 + 8 + 1 * rows.len(),
        o6 == o5 + 8 + 8 * rows.len(),
        o7 == o6 + 8 + 1 * rows.len(),
        o8 == o7 + 8 + 4 * rows.len(),
        o9 == o8 + 8 + 1 * rows.len(),
        o9 + 8 + 2 * rows.len() <= d.len(),
        o0 == col_offset(rows.len(), 0),
        o1 == col_offset(rows.len(), 1),
        o2 == col_offset(rows.len(), 2),
        o3 == col_offset(rows.len(), 3),
        o4 == col_offset(rows.len(), 4),
        o5 == col_offset(rows.len(), 5),
        o6 == col_offset(rows.len(), 6),
        o7 == col_offset(rows.len(), 7),
        o8 == col_offset(rows.len(), 8),
        o9 == col_offset(rows.len(), 9),
        d.subrange(o0 + 8 + 4 * i, o0 + 8 + 4 * i + 4) == enc_u32(rows[i].subject.0),
        d.subrange(o1 + 8 + 1 * i, o1 + 8 + 1 * i + 1) == enc_u8(rows[i].predicate.0),
        d.subrange(o2 + 8 + 4 * i, o2 + 8 + 4 * i + 4) == enc_u32(rows[i].object.0),
        d.subrange(o3 + 8 + 8 * i, o3 + 8 + 8 * i + 8) == enc_u64(rows[i].confidence_bits),
        d.subrange(o4 + 8 + 1 * i, o4 + 8 + 1 * i + 1) == enc_u8(rows[i].evidence.0),
        d.subrange(o5 + 8 + 8 * i, o5 + 8 + 8 * i + 8) == enc_i64(rows[i].timestamp),
        d.subrange(o6 + 8 + 1 * i, o6 + 8 + 1 * i + 1) == enc_u8(rows[i].context.0),
        d.subrange(o7 + 8 + 4 * i, o7 + 8 + 4 * i + 4) == enc_i32(rows[i].version),
        d.subrange(o8 + 8 + 1 * i, o8 + 8 + 1 * i + 1) == enc_i8(rows[i].priority),
        d.subrange(o9 + 8 + 2 * i, o9 + 8 + 2 * i + 2) == enc_u16(rows[i].owner),
    ensures
        db_rows(d)[i] == rows[i],
{
    lemma_le_roundtrips();
    let f = rows[i];
    assert(d[o1 + 8 + i] == d.subrange(o1 + 8 + 1 * i, o1 + 8 + 1 * i + 1)[0]);
    assert(d[o4 + 8 + i] == d.subrange(o4 + 8 + 1 * i, o4 + 8 + 1 * i + 1)[0]);
    assert(d[o6 + 8 + i] == d.subrange(o6 + 8 + 1 * i, o6 + 8 + 1 * i + 1)[0]);
    assert(d[o8 + 8 + i] == d.subrange(o8 + 8 + 1 * i, o8 + 8 + 1 * i + 1)[0]);
    lemma_i8_cast_roundtrip(f.priority);
    assert(val_at(rows.len(), 0, i) == o0 + 8 + 4 * i);
    assert(val_at(rows.len(), 9, i) == o9 + 8 + 2 * i);
    assert(db_row(d, rows.len(), i) == f);
}

} // verus!
