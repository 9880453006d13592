//! The write-ahead-log record format.
//!
//! An insert record is the tag byte 1, a 33-byte payload (subject,
//! predicate, object, confidence, timestamp, context, version, priority,
//! owner, all little-endian) and the CRC-32 of the payload. A delete record
//! is the tag byte 2, the row id (8 bytes) and the CRC-32 of those 8 bytes.
//! The log file is the concatenation of its records.
use crate::bytes::{
    i32_from_le, i32_le, i64_from_le, i64_le, lemma_i8_cast_roundtrip, lemma_le_roundtrips, push_i32,
    push_i64, push_u16, push_u32, push_u64, read_i32, read_i64, read_u16, read_u32, read_u64,
};
use crate::crc::{crc32, spec_crc32};
use crate::fmt::{spec_decimal, spec_hex, spec_hex_fixed, u32_to_hex, u32_to_hex_fixed, u64_to_decimal};
use crate::types::{evidence_unknown, ContextID, EvidenceID, Fact, KcmError, ObjectID, PredicateID, SubjectID};
use vstd::bytes::*;
use vstd::prelude::*;
use vstd::string::*;

verus! {

/// Size in bytes of an insert record.
pub const WAL_INSERT_SIZE: usize = 38;

/// Size in bytes of a delete record.
pub const WAL_DELETE_SIZE: usize = 13;

/// Number of buffered bytes at which the log is written out.
pub const WAL_BUFFER_SIZE: usize = 65536;

/// One logged operation.
#[derive(Clone, Copy, Debug, PartialEq, Eq, Structural)]
pub enum WALEntry {
    Insert {
        subject: SubjectID,
        predicate: PredicateID,
        object: ObjectID,
        confidence_bits: u64,
        timestamp: i64,
        context: ContextID,
        version: i32,
        priority: i8,
        owner: u16,
    },
    Delete { row_id: u64 },
}

/// The insert record that logs `fact` (the evidence is not logged).
pub open spec fn insert_entry_of(fact: Fact) -> WALEntry {
    WALEntry::Insert {
        subject: fact.subject,
        predicate: fact.predicate,
        object: fact.object,
        confidence_bits: fact.confidence_bits,
        timestamp: fact.timestamp,
        context: fact.context,
        version: fact.version,
        priority: fact.priority,
        owner: fact.owner,
    }
}

/// The fact that an entry stands for, if it is an insert.
pub open spec fn spec_to_fact(e: WALEntry) -> Option<Fact> {
    match e {
        WALEntry::Insert { subject, predicate, object, confidence_bits, timestamp, context, version, priority, owner } =>
            Some(Fact { subject, predicate, object, confidence_bits, evidence: evidence_unknown(), timestamp, context, version, priority, owner }),
        WALEntry::Delete { .. } => None,
    }
}

/// The checksummed payload of a record.
pub open spec fn entry_payload(e: WALEntry) -> Seq<u8> {
    match e {
        WALEntry::Insert { subject, predicate, object, confidence_bits, timestamp, context, version, priority, owner } =>
            spec_u32_to_le_bytes(subject.0) + seq![predicate.0] + spec_u32_to_le_bytes(object.0)
                + spec_u64_to_le_bytes(confidence_bits) + i64_le(timestamp) + seq![context.0]
                + i32_le(version) + seq![priority as u8] + spec_u16_to_le_bytes(owner),
        WALEntry::Delete { row_id } => spec_u64_to_le_bytes(row_id),
    }
}

/// The tag byte of a record.
pub open spec fn entry_tag(e: WALEntry) -> u8 {
    match e {
        WALEntry::Insert { .. } => 1u8,
        WALEntry::Delete { .. } => 2u8,
    }
}

/// The bytes of one record.
pub open spec fn spec_encode_entry(e: WALEntry) -> Seq<u8> {
    seq![entry_tag(e)] + entry_payload(e) + spec_u32_to_le_bytes(spec_crc32(entry_payload(e)))
}

/// The bytes of a log holding `es`, in order.
pub open spec fn spec_encode_entries(es: Seq<WALEntry>) -> Seq<u8>
    decreases es.len(),
{
    if es.len() == 0 {
        Seq::empty()
    } else {
        spec_encode_entry(es[0]) + spec_encode_entries(es.drop_first())
    }
}

/// The insert entry held by a 33-byte payload.
pub open spec fn spec_decode_insert(p: Seq<u8>) -> WALEntry {
    WALEntry::Insert {
        subject: SubjectID(spec_u32_from_le_bytes(p.subrange(0, 4))),
        predicate: PredicateID(p[4]),
        object: ObjectID(spec_u32_from_le_bytes(p.subrange(5, 9))),
        confidence_bits: spec_u64_from_le_bytes(p.subrange(9, 17)),
        timestamp: i64_from_le(p.subrange(17, 25)),
        context: ContextID(p[25]),
        version: i32_from_le(p.subrange(26, 30)),
        priority: p[30] as i8,
        owner: spec_u16_from_le_bytes(p.subrange(31, 33)),
    }
}

/// The well-formed record that starts at `off`, with the offset just past it.
pub open spec fn spec_entry_at(data: Seq<u8>, off: int) -> Option<(WALEntry, int)> {
    if off < 0 || off >= data.len() {
        None
    } else if data[off] == 1 && off + 38 <= data.len()
        && spec_u32_from_le_bytes(data.subrange(off + 34, off + 38)) == spec_crc32(data.subrange(off + 1, off + 34)) {
        Some((spec_decode_insert(data.subrange(off + 1, off + 34)), off + 38))
    } else if data[off] == 2 && off + 13 <= data.len()
        && spec_u32_from_le_bytes(data.subrange(off + 9, off + 13)) == spec_crc32(data.subrange(off + 1, off + 9)) {
        Some((WALEntry::Delete { row_id: spec_u64_from_le_bytes(data.subrange(off + 1, off + 9)) }, off + 13))
    } else {
        None
    }
}

/// Replaying the log from `off`: the records read in order, and whether the
/// end of the log was reached without meeting a malformed record.
pub open spec fn spec_replay(data: Seq<u8>, off: int) -> (Seq<WALEntry>, bool)
    decreases data.len() - off,
{
    if off < 0 || off >= data.len() {
        (Seq::empty(), true)
    } else {
        match spec_entry_at(data, off) {
            None => (Seq::empty(), false),
            Some((e, next)) => {
                if next <= off {
                    (Seq::empty(), false)
                } else {
                    let rest = spec_replay(data, next);
                    (seq![e] + rest.0, rest.1)
                }
            },
        }
    }
}

impl WALEntry {
    /// The fact an insert entry stands for; a delete stands for none.
    pub fn to_fact(&self) -> (r: Option<Fact>)
        ensures
            r == spec_to_fact(*self),
    {
        match *self {
            WALEntry::Insert { subject, predicate, object, confidence_bits, timestamp, context, version, priority, owner } =>
                Some(Fact { subject, predicate, object, confidence_bits, evidence: EvidenceID(0), timestamp, context, version, priority, owner }),
            WALEntry::Delete { .. } => None,
        }
    }
}

/// Appends the record of `e` to `buf`.
pub fn push_entry(buf: &mut Vec<u8>, e: &WALEntry)
    ensures
        final(buf)@ == old(buf)@ + spec_encode_entry(*e),
{
    let mut payload: Vec<u8> = Vec::new();
    let tag: u8;
    match *e {
        WALEntry::Insert { subject, predicate, object, confidence_bits, timestamp, context, version, priority, owner } => {
            tag = 1;
            push_u32(&mut payload, subject.0);
            payload.push(predicate.0);
            push_u32(&mut payload, object.0);
            push_u64(&mut payload, confidence_bits);
            push_i64(&mut payload, timestamp);
            payload.push(context.0);
            push_i32(&mut payload, version);
            payload.push(priority as u8);
            push_u16(&mut payload, owner);
        },
        WALEntry::Delete { row_id } => {
            tag = 2;
            push_u64(&mut payload, row_id);
        },
    }
    assert(payload@ =~= entry_payload(*e));
    let checksum = crc32(payload.as_slice());
    let ghost p = payload@;
    buf.push(tag);
    buf.append(&mut payload);
    push_u32(buf, checksum);
    assert(final(buf)@ =~= old(buf)@ + spec_encode_entry(*e)) by {
        assert(spec_encode_entry(*e) =~= seq![tag] + p + spec_u32_to_le_bytes(checksum));
    }
}

/// The record bytes that log the insertion of `fact`.
pub fn encode_fact_entry(fact: &Fact) -> (r: Vec<u8>)
    ensures
        r@ == spec_encode_entry(insert_entry_of(*fact)),
        r@.len() == WAL_INSERT_SIZE,
{
    let e = WALEntry::Insert {
        subject: fact.subject,
        predicate: fact.predicate,
        object: fact.object,
        confidence_bits: fact.confidence_bits,
        timestamp: fact.timestamp,
        context: fact.context,
        version: fact.version,
        priority: fact.priority,
        owner: fact.owner,
    };
    let mut v: Vec<u8> = Vec::new();
    push_entry(&mut v, &e);
    proof {
        lemma_le_roundtrips();
        assert(v@ =~= spec_encode_entry(insert_entry_of(*fact)));
    }
    v
}

/// The record bytes that log the deletion of row `row_id`.
pub fn encode_delete_entry(row_id: u64) -> (r: Vec<u8>)
    ensures
        r@ == spec_encode_entry(WALEntry::Delete { row_id }),
        r@.len() == WAL_DELETE_SIZE,
{
    let mut v: Vec<u8> = Vec::new();
    push_entry(&mut v, &WALEntry::Delete { row_id });
    proof {
        lemma_le_roundtrips();
        assert(v@ =~= spec_encode_entry(WALEntry::Delete { row_id }));
    }
    v
}

/// Records waiting to be written to the log file.
pub struct WalBuffer {
    data: Vec<u8>,
    threshold: usize,
}

impl WalBuffer {
    /// The buffered bytes.
    pub closed spec fn view(&self) -> Seq<u8> {
        self.data@
    }

    /// The size at which the buffer asks to be written out.
    pub closed spec fn spec_threshold(&self) -> nat {
        self.threshold as nat
    }

    /// An empty buffer with the log's default threshold.
    pub fn new() -> (r: WalBuffer)
        ensures
            r@ == Seq::<u8>::empty(),
            r.spec_threshold() == WAL_BUFFER_SIZE,
    {
        WalBuffer { data: Vec::new(), threshold: WAL_BUFFER_SIZE }
    }

    /// Buffers the insert record of `fact`; the result says whether the
    /// buffer has reached its threshold and must be written out.
    pub fn append_fact(&mut self, fact: &Fact) -> (flush: bool)
        ensures
            final(self)@ == old(self)@ + spec_encode_entry(insert_entry_of(*fact)),
            final(self).spec_threshold() == old(self).spec_threshold(),
            flush == (final(self)@.len() >= final(self).spec_threshold()),
    {
        let mut rec = encode_fact_entry(fact);
        self.data.append(&mut rec);
        self.data.len() >= self.threshold
    }

    /// Buffers the delete record of `row_id`; the result says whether the
    /// buffer has reached its threshold and must be written out.
    pub fn append_delete(&mut self, row_id: u64) -> (flush: bool)
        ensures
            final(self)@ == old(self)@ + spec_encode_entry(WALEntry::Delete { row_id }),
            final(self).spec_threshold() == old(self).spec_threshold(),
            flush == (final(self)@.len() >= final(self).spec_threshold()),
    {
        let mut rec = encode_delete_entry(row_id);
        self.data.append(&mut rec);
        self.data.len() >= self.threshold
    }

    /// The buffered bytes, in the order they must reach the file.
    pub fn bytes(&self) -> (r: &[u8])
        ensures
            r@ == self@,
    {
        self.data.as_slice()
    }

    /// Empties the buffer after its bytes were written out.
    pub fn clear(&mut self)
        ensures
            final(self)@ == Seq::<u8>::empty(),
            final(self).spec_threshold() == old(self).spec_threshold(),
    {
        self.data.clear();
    }
}

/// Decodes the record that starts at `off`.
pub fn decode_entry_at(data: &[u8], off: usize) -> (r: Option<(WALEntry, usize)>)
    requires
        off < data@.len(),
    ensures
        r matches Some((e, n)) ==> spec_entry_at(data@, off as int) == Some((e, n as int)),
        r is None ==> spec_entry_at(data@, off as int) is None,
{
    let len = data.len();
    let tag = data[off];
    if tag == 1 {
        if len - off < 38 {
            return None;
        }
        let stored = read_u32(data, off + 34);
        let computed = crc32(slice_subrange_u8(data, off + 1, off + 34));
        if stored != computed {
            return None;
        }
        let ghost p = data@.subrange(off + 1, off + 34);
        let subject = read_u32(data, off + 1);
        let predicate = data[off + 5];
        let object = read_u32(data, off + 6);
        let confidence_bits = read_u64(data, off + 10);
        let timestamp = read_i64(data, off + 18);
        let context = data[off + 26];
        let version = read_i32(data, off + 27);
        let priority = data[off + 31] as i8;
        let owner = read_u16(data, off + 32);
        proof {
            assert(data@.subrange(off + 1, off + 5) =~= p.subrange(0, 4));
            assert(data@.subrange(off + 6, off + 10) =~= p.subrange(5, 9));
            assert(data@.subrange(off + 10, off + 18) =~= p.subrange(9, 17));
            assert(data@.subrange(off + 18, off + 26) =~= p.subrange(17, 25));
            assert(data@.subrange(off + 27, off + 31) =~= p.subrange(26, 30));
            assert(data@.subrange(off + 32, off + 34) =~= p.subrange(31, 33));
        }
        let e = WALEntry::Insert {
            subject: SubjectID(subject),
            predicate: PredicateID(predicate),
            object: ObjectID(object),
            confidence_bits,
            timestamp,
            context: ContextID(context),
            version,
            priority,
            owner,
        };
        Some((e, off + 38))
    } else if tag == 2 {
        if len - off < 13 {
            return None;
        }
        let stored = read_u32(data, off + 9);
        let computed = crc32(slice_subrange_u8(data, off + 1, off + 9));
        if stored != computed {
            return None;
        }
        let row_id = read_u64(data, off + 1);
        Some((WALEntry::Delete { row_id }, off + 13))
    } else {
        None
    }
}

fn slice_subrange_u8(data: &[u8], i: usize, j: usize) -> (r: &[u8])
    requires
        i <= j <= data@.len(),
    ensures
        r@ == data@.subrange(i as int, j as int),
{
    vstd::slice::slice_subrange(data, i, j)
}

/// Where a replay from `off` stops: the offset of the first malformed
/// record, or the end of the log.
pub open spec fn spec_stop(data: Seq<u8>, off: int) -> int
    decreases data.len() - off,
{
    if off < 0 || off >= data.len() {
        data.len() as int
    } else {
        match spec_entry_at(data, off) {
            None => off,
            Some((e, next)) => {
                if next <= off {
                    off
                } else {
                    spec_stop(data, next)
                }
            },
        }
    }
}

/// The CRC stored in the record at `o` whose payload has `n` bytes, and
/// the CRC of that payload.
pub open spec fn stored_crc(data: Seq<u8>, o: int, n: int) -> u32 {
    spec_u32_from_le_bytes(data.subrange(o + 1 + n, o + 5 + n))
}

pub open spec fn computed_crc(data: Seq<u8>, o: int, n: int) -> u32 {
    spec_crc32(data.subrange(o + 1, o + 1 + n))
}

/// The record kind in messages: `insert`/`delete` in replay errors,
/// `INSERT`/`DELETE` in integrity-check errors.
pub open spec fn kind_word(insert: bool, replay: bool) -> Seq<char> {
    if replay {
        if insert { "insert"@ } else { "delete"@ }
    } else {
        if insert { "INSERT"@ } else { "DELETE"@ }
    }
}

/// Payload bytes of an insert (33) or delete (8) record.
pub open spec fn payload_len(insert: bool) -> int {
    if insert { 33 } else { 8 }
}

/// The message for a record of a known kind at `o` that is cut short
/// (`o + payload + 5` past the end) or whose checksum does not match.
pub open spec fn record_message(data: Seq<u8>, o: int, insert: bool, count: nat, replay: bool) -> Seq<char> {
    let n = payload_len(insert);
    let k = kind_word(insert, replay);
    let at = spec_decimal(o as nat);
    let stored = stored_crc(data, o, n) as nat;
    let computed = computed_crc(data, o, n) as nat;
    if o + n + 5 > data.len() {
        if replay {
            "Truncated WAL "@ + k + " entry at offset "@ + at + ": need "@ + spec_decimal((n + 5) as nat) + " bytes, have "@
                + spec_decimal((data.len() - o) as nat)
        } else {
            "Truncated "@ + k + " entry at offset "@ + at
        }
    } else if replay {
        "WAL "@ + k + " checksum mismatch at offset "@ + at + ": expected 0x"@ + spec_hex_fixed(stored, 8) + ", got 0x"@
            + spec_hex_fixed(computed, 8)
    } else {
        "CRC32 mismatch at "@ + k + " entry "@ + spec_decimal(count) + ": stored=0x"@ + spec_hex(stored) + ", computed=0x"@
            + spec_hex(computed)
    }
}

/// The replay error for the malformed record at `o`.
pub open spec fn replay_message(data: Seq<u8>, o: int) -> Seq<char> {
    let t = data[o];
    if t == 1 || t == 2 {
        record_message(data, o, t == 1, 0, true)
    } else {
        "Unknown WAL op type: "@ + spec_decimal(t as nat) + " at offset "@ + spec_decimal(o as nat)
    }
}

/// The integrity-check error for the malformed record at `o`, after
/// `count` well-formed records.
pub open spec fn verify_message(data: Seq<u8>, o: int, count: nat) -> Seq<char> {
    let t = data[o];
    if t == 1 || t == 2 {
        record_message(data, o, t == 1, count, false)
    } else {
        "Unknown op type "@ + spec_decimal(t as nat) + " at offset "@ + spec_decimal(o as nat)
    }
}

/// Reads records until the first malformed one: the records read, and the
/// offset of the malformed record if there is one.
fn scan_entries(data: &[u8]) -> (r: (Vec<WALEntry>, Option<usize>))
    ensures
        r.0@ == spec_replay(data@, 0).0,
        r.1 is None <==> spec_replay(data@, 0).1,
        r.1 matches Some(o) ==> o == spec_stop(data@, 0) && o < data@.len() && spec_entry_at(data@, o as int) is None,
{
    let len = data.len();
    let mut entries: Vec<WALEntry> = Vec::new();
    let mut off: usize = 0;
    while off < len
        invariant
            len == data@.len(),
            off <= len,
            spec_replay(data@, 0).0 == entries@ + spec_replay(data@, off as int).0,
            spec_replay(data@, 0).1 == spec_replay(data@, off as int).1,
            spec_stop(data@, 0) == spec_stop(data@, off as int),
        decreases len - off,
    {
        match decode_entry_at(data, off) {
            Some((e, next)) => {
                proof {
                    let rest = spec_replay(data@, next as int);
                    assert(spec_replay(data@, off as int) == (seq![e] + rest.0, rest.1));
                    assert(entries@.push(e) + rest.0 =~= entries@ + (seq![e] + rest.0));
                }
                entries.push(e);
                off = next;
            },
            None => {
                proof {
                    assert(spec_replay(data@, off as int).0 =~= Seq::<WALEntry>::empty());
                    assert(entries@ + Seq::<WALEntry>::empty() =~= entries@);
                }
                return (entries, Some(off));
            },
        }
    }
    proof {
        assert(entries@ + Seq::<WALEntry>::empty() =~= entries@);
    }
    (entries, None)
}

fn kind_word_str(insert: bool, replay: bool) -> (r: &'static str)
    ensures
        r@ == kind_word(insert, replay),
{
    if replay {
        if insert { "insert" } else { "delete" }
    } else {
        if insert { "INSERT" } else { "DELETE" }
    }
}

/// Builds `record_message` for the record at `o`.
fn record_text(data: &[u8], o: usize, insert: bool, count: usize, replay: bool) -> (r: String)
    requires
        o < data@.len(),
    ensures
        r@ == record_message(data@, o as int, insert, count as nat, replay),
{
    let len = data.len();
    let n: usize = if insert { 33 } else { 8 };
    let k = kind_word_str(insert, replay);
    let at = u64_to_decimal(o as u64);
    if len - o < n + 5 {
        if replay {
            let mut s = String::from_str("Truncated WAL ");
            s.append(k);
            s.append(" entry at offset ");
            s.append(at.as_str());
            s.append(": need ");
            let need = u64_to_decimal((n + 5) as u64);
            s.append(need.as_str());
            s.append(" bytes, have ");
            let have = u64_to_decimal((len - o) as u64);
            s.append(have.as_str());
            s
        } else {
            let mut s = String::from_str("Truncated ");
            s.append(k);
            s.append(" entry at offset ");
            s.append(at.as_str());
            s
        }
    } else {
        let stored = read_u32(data, o + 1 + n);
        let computed = crc32(slice_subrange_u8(data, o + 1, o + 1 + n));
        if replay {
            let mut s = String::from_str("WAL ");
            s.append(k);
            s.append(" checksum mismatch at offset ");
            s.append(at.as_str());
            s.append(": expected 0x");
            let h1 = u32_to_hex_fixed(stored, 8);
            s.append(h1.as_str());
            s.append(", got 0x");
            let h2 = u32_to_hex_fixed(computed, 8);
            s.append(h2.as_str());
            s
        } else {
            let mut s = String::from_str("CRC32 mismatch at ");
            s.append(k);
            s.append(" entry ");
            let c = u64_to_decimal(count as u64);
            s.append(c.as_str());
            s.append(": stored=0x");
            let h1 = u32_to_hex(stored);
            s.append(h1.as_str());
            s.append(", computed=0x");
            let h2 = u32_to_hex(computed);
            s.append(h2.as_str());
            s
        }
    }
}

/// Builds the message for the malformed record at `o`: the replay form, or
/// the integrity-check form after `count` records.
fn malformed_message(data: &[u8], o: usize, count: usize, replay: bool) -> (r: String)
    requires
        o < data@.len(),
    ensures
        replay ==> r@ == replay_message(data@, o as int),
        !replay ==> r@ == verify_message(data@, o as int, count as nat),
{
    let t = data[o];
    if t == 1 || t == 2 {
        record_text(data, o, t == 1, if replay { 0 } else { count }, replay)
    } else {
        let mut s = String::from_str(if replay { "Unknown WAL op type: " } else { "Unknown op type " });
        let d = u64_to_decimal(t as u64);
        s.append(d.as_str());
        s.append(" at offset ");
        let at = u64_to_decimal(o as u64);
        s.append(at.as_str());
        s
    }
}

/// Replays a log: the records read before the first malformed one, and
/// the corruption error that stopped the replay, if one did.
pub fn replay_entries(data: &[u8]) -> (r: (Vec<WALEntry>, Option<KcmError>))
    ensures
        r.0@ == spec_replay(data@, 0).0,
        r.1 is None <==> spec_replay(data@, 0).1,
        r.1 matches Some(err) ==> err matches KcmError::Corrupted(m) && m@ == replay_message(data@, spec_stop(data@, 0)),
{
    let (entries, stop) = scan_entries(data);
    match stop {
        None => (entries, None),
        Some(o) => {
            let m = malformed_message(data, o, entries.len(), true);
            (entries, Some(KcmError::Corrupted(m)))
        },
    }
}

/// Checks every record of a log: `Ok` exactly when the whole log is a
/// sequence of well-formed records; otherwise the error names the first
/// malformed record.
pub fn verify_wal_bytes(data: &[u8]) -> (r: Result<(), KcmError>)
    ensures
        r is Ok <==> spec_replay(data@, 0).1,
        r matches Err(err) ==> err matches KcmError::Corrupted(m) && m@ == verify_message(
            data@,
            spec_stop(data@, 0),
            spec_replay(data@, 0).0.len(),
        ),
{
    let (entries, stop) = scan_entries(data);
    match stop {
        None => Ok(()),
        Some(o) => Err(KcmError::Corrupted(malformed_message(data, o, entries.len(), false))),
    }
}

// ---------------------------------------------------------------------
// Laws: replaying what was logged gives it back.
// ---------------------------------------------------------------------

proof fn lemma_decode_entry(pre: Seq<u8>, e: WALEntry, post: Seq<u8>)
    ensures
        spec_entry_at(pre + spec_encode_entry(e) + post, pre.len() as int)
            == Some((e, (pre.len() + spec_encode_entry(e).len()) as int)),
        spec_encode_entry(e).len() > 0,
{
    lemma_le_roundtrips();
    let data = pre + spec_encode_entry(e) + post;
    let o = pre.len() as int;
    let p = entry_payload(e);
    let enc = spec_encode_entry(e);
    match e {
        WALEntry::Insert { subject, predicate, object, confidence_bits, timestamp, context, version, priority, owner } => {
            assert(p.len() == 33);
            assert(enc.len() == 38);
            assert(data.subrange(o + 1, o + 34) =~= p);
            assert(data.subrange(o + 34, o + 38) =~= spec_u32_to_le_bytes(spec_crc32(p)));
            assert(data[o] == 1u8);
            assert(p.subrange(0, 4) =~= spec_u32_to_le_bytes(subject.0));
            assert(p[4] == predicate.0);
            assert(p.subrange(5, 9) =~= spec_u32_to_le_bytes(object.0));
            assert(p.subrange(9, 17) =~= spec_u64_to_le_bytes(confidence_bits));
            assert(p.subrange(17, 25) =~= i64_le(timestamp));
            assert(p[25] == context.0);
            assert(p.subrange(26, 30) =~= i32_le(version));
            assert(p[30] == priority as u8);
            assert(p.subrange(31, 33) =~= spec_u16_to_le_bytes(owner));
            lemma_i8_cast_roundtrip(priority);
            assert(spec_decode_insert(p) == e);
        },
        WALEntry::Delete { row_id } => {
            assert(p.len() == 8);
            assert(enc.len() == 13);
            assert(data.subrange(o + 1, o + 9) =~= p);
            assert(data.subrange(o + 9, o + 13) =~= spec_u32_to_le_bytes(spec_crc32(p)));
            assert(data[o] == 2u8);
        },
    }
}

proof fn lemma_replay_suffix(pre: Seq<u8>, es: Seq<WALEntry>)
    ensures
        spec_replay(pre + spec_encode_entries(es), pre.len() as int) == (es, true),
    decreases es.len(),
{
    let data = pre + spec_encode_entries(es);
    if es.len() == 0 {
        assert(data =~= pre);
        assert(es =~= Seq::<WALEntry>::empty());
    } else {
        let e = es[0];
        let rest = es.drop_first();
        let enc = spec_encode_entry(e);
        let tail = spec_encode_entries(rest);
        assert(data =~= pre + enc + tail);
        lemma_decode_entry(pre, e, tail);
        let pre2 = pre + enc;
        assert(data =~= pre2 + tail);
        lemma_replay_suffix(pre2, rest);
        assert(seq![e] + rest =~= es);
    }
}

/// Replaying a log made of the records of `es` reads back exactly `es`,
/// in order, and meets no malformed record.
pub proof fn law_replay_returns_logged_entries(es: Seq<WALEntry>)
    ensures
        spec_replay(spec_encode_entries(es), 0) == (es, true),
{
    lemma_replay_suffix(Seq::empty(), es);
    assert(Seq::<u8>::empty() + spec_encode_entries(es) =~= spec_encode_entries(es));
}

proof fn lemma_entry_at_shift(pre: Seq<u8>, tail: Seq<u8>)
    requires
        tail.len() > 0,
    ensures
        spec_entry_at(pre + tail, pre.len() as int) is None <==> spec_entry_at(tail, 0) is None,
{
    let data = pre + tail;
    let o = pre.len() as int;
    assert(data[o] == tail[0]);
    if tail.len() >= 38 {
        assert(data.subrange(o + 1, o + 34) =~= tail.subrange(1, 34));
        assert(data.subrange(o + 34, o + 38) =~= tail.subrange(34, 38));
    }
    if tail.len() >= 13 {
        assert(data.subrange(o + 1, o + 9) =~= tail.subrange(1, 9));
        assert(data.subrange(o + 9, o + 13) =~= tail.subrange(9, 13));
    }
}

proof fn lemma_replay_bad_tail(pre: Seq<u8>, es: Seq<WALEntry>, tail: Seq<u8>)
    requires
        tail.len() > 0,
        spec_entry_at(tail, 0) is None,
    ensures
        spec_replay(pre + spec_encode_entries(es) + tail, pre.len() as int) == (es, false),
        spec_stop(pre + spec_encode_entries(es) + tail, pre.len() as int) == pre.len() + spec_encode_entries(es).len(),
    decreases es.len(),
{
    let data = pre + spec_encode_entries(es) + tail;
    if es.len() == 0 {
        assert(spec_encode_entries(es) =~= Seq::<u8>::empty());
        assert(data =~= pre + tail);
        lemma_entry_at_shift(pre, tail);
        assert(es =~= Seq::<WALEntry>::empty());
    } else {
        let e = es[0];
        let rest = es.drop_first();
        let enc = spec_encode_entry(e);
        let more = spec_encode_entries(rest);
        assert(spec_encode_entries(es) == enc + more);
        assert(data =~= pre + enc + (more + tail));
        lemma_decode_entry(pre, e, more + tail);
        let pre2 = pre + enc;
        assert(data =~= pre2 + more + tail);
        lemma_replay_bad_tail(pre2, rest, tail);
        assert(seq![e] + rest =~= es);
    }
}

/// Replaying a log whose well-formed records `es` are followed by a
/// malformed one reads back exactly `es`, in order, reports the log as
/// corrupt, and stops where the malformed record starts.
pub proof fn law_replay_stops_at_malformed(es: Seq<WALEntry>, tail: Seq<u8>)
    requires
        tail.len() > 0,
        spec_entry_at(tail, 0) is None,
    ensures
        spec_replay(spec_encode_entries(es) + tail, 0) == (es, false),
        spec_stop(spec_encode_entries(es) + tail, 0) == spec_encode_entries(es).len(),
{
    lemma_replay_bad_tail(Seq::empty(), es, tail);
    assert(Seq::<u8>::empty() + spec_encode_entries(es) + tail =~= spec_encode_entries(es) + tail);
}

/// Logging a fact and replaying the record gives back the fact, with its
/// evidence reset to unknown.
pub proof fn law_logged_fact_roundtrip(fact: Fact)
    ensures
        spec_replay(spec_encode_entry(insert_entry_of(fact)), 0).0 == seq![insert_entry_of(fact)],
        spec_to_fact(insert_entry_of(fact)) == Some(Fact { evidence: evidence_unknown(), ..fact }),
{
    let es = seq![insert_entry_of(fact)];
    law_replay_returns_logged_entries(es);
    assert(es.drop_first() =~= Seq::<WALEntry>::empty());
    assert(spec_encode_entries(es.drop_first()) == Seq::<u8>::empty());
    assert(es[0] == insert_entry_of(fact));
    assert(spec_encode_entries(es) =~= spec_encode_entry(insert_entry_of(fact)));
}

} // verus!
