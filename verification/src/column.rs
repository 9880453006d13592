//! Columnar storage: fixed-capacity typed columns and the ten-column fact
//! schema with row tombstones.
use crate::bitmap::{
    bit_of, count_true, lemma_count_true_all_false, lemma_count_true_bounds, lemma_count_true_prefix_zero,
    lemma_count_true_update, popcount, Bitmap,
};
use crate::codec::{spec_rle_decode_lenient, spec_rle_encode};
use crate::colcodec::ColumnValue;
use crate::compress::{
    spec_lz4_compress, spec_lz4_decompress, spec_zstd_compress, spec_zstd_decompress, Compressor, Lz4Compressor, NoopCompressor,
    RleCompressor, ZstdCompressor,
};
use crate::fmt::{u128_to_decimal, u64_to_decimal};
use crate::types::{ContextID, EvidenceID, Fact, KcmError, ObjectID, PredicateID, SubjectID};
use vstd::prelude::*;
use vstd::string::*;

verus! {

/// How a column's values are encoded before compression.
#[derive(Clone, Copy, Debug, PartialEq, Eq, Structural)]
pub enum ColumnEncoding {
    Identity,
    Dictionary,
    Delta,
    Rle,
    Gorilla,
}

/// Which compressor a column uses.
#[derive(Clone, Copy, Debug, PartialEq, Eq, Structural)]
pub enum CompressionCodec {
    Uncompressed,
    Zstd,
    Lz4,
    Rle,
}

/// The error for an index at or past the end of `len` rows:
/// `Index {idx} out of bounds (len {len})`.
pub fn index_error(idx: usize, len: usize) -> (r: KcmError)
    ensures
        r matches KcmError::InvalidArgument(m) && m@ == crate::errors::converted_index_text(idx, len),
{
    let mut s = String::from_str("Index ");
    let a = u64_to_decimal(idx as u64);
    s.append(a.as_str());
    s.append(" out of bounds (len ");
    let b = u64_to_decimal(len as u64);
    s.append(b.as_str());
    s.append(")");
    KcmError::InvalidArgument(s)
}

/// A column of at most `capacity` values of one type.
#[derive(Clone)]
pub struct Column<T: Copy> {
    data: Vec<T>,
    capacity: usize,
    encoding: ColumnEncoding,
    compression: CompressionCodec,
    raw_bytes: Vec<u8>,
    compressed: bool,
}

impl<T: Copy> Column<T> {
    /// The stored values, in row order.
    pub closed spec fn view(&self) -> Seq<T> {
        self.data@
    }

    /// The most values the column can hold.
    pub closed spec fn spec_capacity(&self) -> nat {
        self.capacity as nat
    }

    pub closed spec fn spec_encoding(&self) -> ColumnEncoding {
        self.encoding
    }

    pub closed spec fn spec_compression(&self) -> CompressionCodec {
        self.compression
    }

    /// The compressed bytes kept by the last compression.
    pub closed spec fn spec_raw(&self) -> Seq<u8> {
        self.raw_bytes@
    }

    /// Whether the compressed bytes are current.
    pub closed spec fn spec_compressed(&self) -> bool {
        self.compressed
    }

    /// An empty column; a capacity of zero is refused.
    pub fn new(capacity: usize, encoding: ColumnEncoding, compression: CompressionCodec) -> (r: Result<Self, KcmError>)
        ensures
            capacity == 0 <==> r is Err,
            r matches Err(e) ==> e is InvalidArgument,
            r matches Ok(c) ==> c@ == Seq::<T>::empty() && c.spec_capacity() == capacity
                && c.spec_encoding() == encoding && c.spec_compression() == compression
                && c.spec_raw() == Seq::<u8>::empty() && !c.spec_compressed(),
    {
        if capacity == 0 {
            return Err(KcmError::InvalidArgument(String::from_str("Column capacity must be positive")));
        }
        Ok(Column { data: Vec::new(), capacity, encoding, compression, raw_bytes: Vec::new(), compressed: false })
    }

    /// Appends a value; a full column refuses it.
    pub fn append(&mut self, value: T) -> (r: Result<(), KcmError>)
        ensures
            final(self).spec_capacity() == old(self).spec_capacity(),
            final(self).spec_encoding() == old(self).spec_encoding(),
            final(self).spec_compression() == old(self).spec_compression(),
            old(self)@.len() < old(self).spec_capacity() ==> r is Ok && final(self)@ == old(self)@.push(value),
            old(self)@.len() >= old(self).spec_capacity() ==> (r matches Err(KcmError::OutOfMemory)) && final(self)@ == old(self)@,
    {
        if self.data.len() >= self.capacity {
            return Err(KcmError::OutOfMemory);
        }
        self.data.push(value);
        Ok(())
    }

    /// The value at `idx`, if there is one.
    pub fn get(&self, idx: usize) -> (r: Option<T>)
        ensures
            idx < self@.len() ==> r == Some(self@[idx as int]),
            idx >= self@.len() ==> r is None,
    {
        if idx >= self.data.len() {
            return None;
        }
        Some(self.data[idx])
    }

    /// Overwrites the value at `idx`.
    pub fn set(&mut self, idx: usize, value: T) -> (r: Result<(), KcmError>)
        ensures
            final(self).spec_capacity() == old(self).spec_capacity(),
            final(self).spec_encoding() == old(self).spec_encoding(),
            final(self).spec_compression() == old(self).spec_compression(),
            idx < old(self)@.len() ==> r is Ok && final(self)@ == old(self)@.update(idx as int, value),
            idx >= old(self)@.len() ==> (r matches Err(KcmError::InvalidArgument(_))) && final(self)@ == old(self)@,
    {
        if idx >= self.data.len() {
            return Err(index_error(idx, self.data.len()));
        }
        self.data.set(idx, value);
        Ok(())
    }

    pub fn len(&self) -> (r: usize)
        ensures
            r == self@.len(),
    {
        self.data.len()
    }

    pub fn is_empty(&self) -> (r: bool)
        ensures
            r == (self@.len() == 0),
    {
        self.data.len() == 0
    }

    pub fn as_slice(&self) -> (r: &[T])
        ensures
            r@ == self@,
    {
        self.data.as_slice()
    }

    pub fn encoding(&self) -> (r: ColumnEncoding)
        ensures
            r == self.spec_encoding(),
    {
        self.encoding
    }

    pub fn compression(&self) -> (r: CompressionCodec)
        ensures
            r == self.spec_compression(),
    {
        self.compression
    }

    /// The capacity the column was made with.
    pub fn capacity(&self) -> (r: usize)
        ensures
            r == self.spec_capacity(),
    {
        self.capacity
    }
}

/// The bytes a codec makes of `bytes` (zstd at level 3).
pub open spec fn codec_compress(codec: CompressionCodec, bytes: Seq<u8>) -> Seq<u8> {
    match codec {
        CompressionCodec::Uncompressed => bytes,
        CompressionCodec::Zstd => spec_zstd_compress(bytes, 3),
        CompressionCodec::Lz4 => spec_lz4_compress(bytes),
        CompressionCodec::Rle => spec_rle_encode(bytes),
    }
}

/// What a codec gives back for `bytes` (LZ4 told to expect `size` bytes),
/// or nothing when it fails.
pub open spec fn codec_decompress(codec: CompressionCodec, bytes: Seq<u8>, size: usize) -> Option<Seq<u8>> {
    match codec {
        CompressionCodec::Uncompressed => Some(bytes),
        CompressionCodec::Zstd => spec_zstd_decompress(bytes),
        CompressionCodec::Lz4 => spec_lz4_decompress(bytes, size as i32),
        CompressionCodec::Rle => Some(spec_rle_decode_lenient(bytes)),
    }
}

/// Compresses with the column's codec (zstd at its default level).
pub fn compress_with(codec: CompressionCodec, data: &[u8]) -> (r: Result<Vec<u8>, KcmError>)
    ensures
        r matches Ok(v) ==> v@ == codec_compress(codec, data@),
        r matches Ok(v) ==> !(codec is Lz4) ==> codec_decompress(codec, v@, 0) == Some(data@),
        r matches Err(e) ==> e is Io,
        codec is Uncompressed || codec is Rle ==> r is Ok,
{
    proof {
        crate::compress::law_compress_roundtrip(data@);
    }
    match codec {
        CompressionCodec::Uncompressed => NoopCompressor.compress(data),
        CompressionCodec::Zstd => ZstdCompressor::default_level().compress(data),
        CompressionCodec::Lz4 => Lz4Compressor::default_level().compress(data),
        CompressionCodec::Rle => RleCompressor.compress(data),
    }
}

/// Decompresses with the column's codec.
pub fn decompress_with(codec: CompressionCodec, data: &[u8], expected_size: usize) -> (r: Result<Vec<u8>, KcmError>)
    ensures
        r is Ok <==> codec_decompress(codec, data@, expected_size) is Some,
        r matches Ok(v) ==> codec_decompress(codec, data@, expected_size) == Some(v@),
        r matches Err(e) ==> e is Io,
{
    match codec {
        CompressionCodec::Uncompressed => NoopCompressor.decompress(data, expected_size),
        CompressionCodec::Zstd => ZstdCompressor::default_level().decompress(data, expected_size),
        CompressionCodec::Lz4 => Lz4Compressor::default_level().decompress(data, expected_size),
        CompressionCodec::Rle => RleCompressor.decompress(data, expected_size),
    }
}

/// The values `decompress_data` puts back into a column holding `n`
/// values: the codec must give bytes back, they must decode, and they must
/// be at least as many as `n` plain values take; otherwise nothing.
pub open spec fn unpacked<T: ColumnValue>(codec: CompressionCodec, enc: ColumnEncoding, raw: Seq<u8>, n: nat) -> Option<Seq<T>> {
    match codec_decompress(codec, raw, 0) {
        None => None,
        Some(b) => match T::spec_decode(b, n, enc) {
            None => None,
            Some(vals) => if b.len() < T::spec_width() * vals.len() {
                None
            } else {
                Some(vals)
            },
        },
    }
}

/// The column keeps its values encoded with its encoding and compressed
/// with its codec.
pub open spec fn packed<T: ColumnValue>(c: Column<T>) -> bool {
    &&& c.spec_compressed()
    &&& c.spec_raw() == codec_compress(c.spec_compression(), T::spec_encode(c.view(), c.spec_encoding()))
}

/// Whether `decompress_data` succeeds on the column.
pub open spec fn unpack_ok<T: ColumnValue>(c: Column<T>) -> bool {
    !c.spec_compressed() || c.spec_raw().len() == 0 || unpacked::<T>(
        c.spec_compression(),
        c.spec_encoding(),
        c.spec_raw(),
        c.view().len(),
    ) is Some
}

/// The values of the column after a successful `decompress_data`.
pub open spec fn after_unpack<T: ColumnValue>(c: Column<T>) -> Seq<T> {
    if !c.spec_compressed() || c.spec_raw().len() == 0 {
        c.view()
    } else {
        unpacked::<T>(c.spec_compression(), c.spec_encoding(), c.spec_raw(), c.view().len()).unwrap()
    }
}

impl<T: ColumnValue> Column<T> {
    /// Encodes the values with the column's encoding and keeps them
    /// compressed with its codec; the values stay as they are.
    pub fn compress_data(&mut self) -> (r: Result<(), KcmError>)
        ensures
            final(self)@ == old(self)@,
            final(self).spec_capacity() == old(self).spec_capacity(),
            final(self).spec_encoding() == old(self).spec_encoding(),
            final(self).spec_compression() == old(self).spec_compression(),
            r is Ok ==> final(self).spec_compressed() && final(self).spec_raw() == codec_compress(
                old(self).spec_compression(),
                T::spec_encode(old(self)@, old(self).spec_encoding()),
            ),
            r is Ok && !(old(self).spec_compression() is Lz4) ==> codec_decompress(
                old(self).spec_compression(),
                final(self).spec_raw(),
                0,
            ) == Some(T::spec_encode(old(self)@, old(self).spec_encoding())),
            r matches Err(e) ==> e is Io && final(self).spec_raw() == old(self).spec_raw() && final(self).spec_compressed()
                == old(self).spec_compressed(),
            old(self).spec_compression() is Uncompressed || old(self).spec_compression() is Rle ==> r is Ok,
    {
        let encoded = T::encode_values(self.data.as_slice(), self.encoding);
        let packed = compress_with(self.compression, encoded.as_slice())?;
        self.raw_bytes = packed;
        self.compressed = true;
        Ok(())
    }

    /// Puts back the values kept compressed, when there are any: they are
    /// decompressed (LZ4 told to expect no size), decoded, and checked to
    /// take at least as many bytes as plain values would. A failed codec is
    /// an I/O error, the rest are corrupt; on any error the column is left
    /// as it was.
    pub fn decompress_data(&mut self) -> (r: Result<(), KcmError>)
        ensures
            final(self).spec_capacity() == old(self).spec_capacity(),
            final(self).spec_encoding() == old(self).spec_encoding(),
            final(self).spec_compression() == old(self).spec_compression(),
            final(self)@.len() == old(self)@.len(),
            !old(self).spec_compressed() || old(self).spec_raw().len() == 0 ==> r is Ok && final(self)@ == old(self)@
                && final(self).spec_raw() == old(self).spec_raw() && final(self).spec_compressed() == old(
                self,
            ).spec_compressed(),
            old(self).spec_compressed() && old(self).spec_raw().len() > 0 ==> match unpacked::<T>(
                old(self).spec_compression(),
                old(self).spec_encoding(),
                old(self).spec_raw(),
                old(self)@.len(),
            ) {
                Some(vals) => r is Ok && final(self)@ == vals && !final(self).spec_compressed() && final(self).spec_raw()
                    == Seq::<u8>::empty(),
                None => r is Err && final(self)@ == old(self)@ && final(self).spec_raw() == old(self).spec_raw()
                    && final(self).spec_compressed() == old(self).spec_compressed(),
            },
            r matches Err(e) ==> (e is Io <==> codec_decompress(old(self).spec_compression(), old(self).spec_raw(), 0) is None),
            r matches Err(e) ==> e is Io || e is Corrupted,
    {
        if !self.compressed || self.raw_bytes.len() == 0 {
            return Ok(());
        }
        let decompressed = decompress_with(self.compression, self.raw_bytes.as_slice(), 0)?;
        let n = self.data.len();
        let values = T::decode_values(decompressed.as_slice(), n, self.encoding)?;
        proof {
            T::lemma_decode_len(decompressed@, n as nat, self.encoding);
        }
        let w = T::width();
        if decompressed.len() / w < values.len() {
            assert(decompressed@.len() < w * values@.len()) by (nonlinear_arith)
                requires
                    (decompressed@.len() as int) / (w as int) < values@.len(),
                    w >= 1,
            ;
            let mut m = String::from_str("Decompression size mismatch: got ");
            let got = u64_to_decimal(decompressed.len() as u64);
            m.append(got.as_str());
            m.append(" bytes, expected ");
            let c: u128 = values.len() as u128;
            let wide: u128 = w as u128;
            assert(c * wide <= 0xffff_ffff_ffff_ffff_u128 * 8) by (nonlinear_arith)
                requires
                    c <= 0xffff_ffff_ffff_ffff_u128,
                    wide <= 8,
            ;
            let expected = u128_to_decimal(c * wide);
            m.append(expected.as_str());
            m.append(" bytes");
            return Err(KcmError::Corrupted(m));
        }
        assert(decompressed@.len() >= w * values@.len()) by (nonlinear_arith)
            requires
                (decompressed@.len() as int) / (w as int) >= values@.len(),
                w >= 1,
        ;
        self.data = values;
        self.compressed = false;
        self.raw_bytes.clear();
        Ok(())
    }
}

/// `decompress_data` on one column, in the terms the schema speaks of.
fn unpack_column<T: ColumnValue>(c: &mut Column<T>) -> (r: Result<(), KcmError>)
    ensures
        final(c).spec_capacity() == old(c).spec_capacity(),
        final(c)@.len() == old(c)@.len(),
        r is Ok <==> unpack_ok(*old(c)),
        r is Ok ==> final(c)@ == after_unpack(*old(c)),
        r matches Err(e) ==> e is Io || e is Corrupted,
{
    c.decompress_data()
}

/// After a successful compression, decompressing gives the values back,
/// for every codec but LZ4 and whenever the encoded bytes take at least as
/// many bytes as the plain values (always so for the plain and delta
/// encodings).
pub proof fn law_column_compress_roundtrip<T: ColumnValue>(v: Seq<T>, enc: ColumnEncoding, codec: CompressionCodec, raw: Seq<u8>)
    requires
        !(codec is Lz4),
        codec_decompress(codec, raw, 0) == Some(T::spec_encode(v, enc)),
        T::spec_encode(v, enc).len() >= T::spec_width() * v.len(),
    ensures
        unpacked::<T>(codec, enc, raw, v.len()) == Some(v),
{
    T::lemma_roundtrip(v, enc);
}

pub type SubjectColumn = Column<u32>;
pub type ObjectColumn = Column<u32>;
pub type PredicateColumn = Column<u8>;
pub type ContextColumn = Column<u8>;
pub type EvidenceColumn = Column<u8>;
pub type ConfidenceColumn = Column<u64>;
pub type TimestampColumn = Column<i64>;
pub type VersionColumn = Column<i32>;
pub type PriorityColumn = Column<i8>;
pub type OwnerColumn = Column<u16>;

/// The ten-column fact table with a tombstone per row.
#[derive(Clone)]
pub struct Schema {
    pub subject_col: SubjectColumn,
    pub predicate_col: PredicateColumn,
    pub object_col: ObjectColumn,
    pub confidence_col: ConfidenceColumn,
    pub evidence_col: EvidenceColumn,
    pub timestamp_col: TimestampColumn,
    pub context_col: ContextColumn,
    pub version_col: VersionColumn,
    pub priority_col: PriorityColumn,
    pub owner_col: OwnerColumn,
    tombstones: Bitmap,
}

/// The rows of `s` that are not deleted, with their indices, in row order,
/// among the first `n` rows.
pub open spec fn active_prefix(rows: Seq<Fact>, dead: Seq<bool>, n: int) -> Seq<(usize, Fact)>
    decreases n,
{
    if n <= 0 {
        Seq::empty()
    } else {
        let prev = active_prefix(rows, dead, n - 1);
        if n - 1 < dead.len() && dead[n - 1] {
            prev
        } else {
            prev.push(((n - 1) as usize, rows[n - 1]))
        }
    }
}

/// The (encoding, compression) a new schema gives its columns, in the
/// order of `Schema::column_formats`.
pub open spec fn default_formats() -> Seq<(ColumnEncoding, CompressionCodec)> {
    seq![
        (ColumnEncoding::Dictionary, CompressionCodec::Zstd),
        (ColumnEncoding::Dictionary, CompressionCodec::Rle),
        (ColumnEncoding::Dictionary, CompressionCodec::Zstd),
        (ColumnEncoding::Gorilla, CompressionCodec::Zstd),
        (ColumnEncoding::Dictionary, CompressionCodec::Rle),
        (ColumnEncoding::Delta, CompressionCodec::Zstd),
        (ColumnEncoding::Dictionary, CompressionCodec::Rle),
        (ColumnEncoding::Delta, CompressionCodec::Lz4),
        (ColumnEncoding::Identity, CompressionCodec::Rle),
        (ColumnEncoding::Dictionary, CompressionCodec::Zstd),
    ]
}

impl Schema {
    /// The tombstone bits.
    pub closed spec fn tombstone_view(&self) -> Seq<bool> {
        self.tombstones@
    }

    /// The fact stored in row `i`.
    pub closed spec fn spec_fact_at(&self, i: int) -> Fact {
        Fact {
            subject: SubjectID(self.subject_col@[i]),
            predicate: PredicateID(self.predicate_col@[i]),
            object: ObjectID(self.object_col@[i]),
            confidence_bits: self.confidence_col@[i],
            evidence: EvidenceID(self.evidence_col@[i]),
            timestamp: self.timestamp_col@[i],
            context: ContextID(self.context_col@[i]),
            version: self.version_col@[i],
            priority: self.priority_col@[i],
            owner: self.owner_col@[i],
        }
    }

    /// All stored rows, deleted or not.
    pub closed spec fn rows(&self) -> Seq<Fact> {
        Seq::new(self.subject_col@.len(), |i: int| self.spec_fact_at(i))
    }

    /// The (encoding, compression) of each column, in the order subject,
    /// predicate, object, confidence, evidence, timestamp, context,
    /// version, priority, owner.
    pub closed spec fn column_formats(&self) -> Seq<(ColumnEncoding, CompressionCodec)> {
        seq![
            (self.subject_col.spec_encoding(), self.subject_col.spec_compression()),
            (self.predicate_col.spec_encoding(), self.predicate_col.spec_compression()),
            (self.object_col.spec_encoding(), self.object_col.spec_compression()),
            (self.confidence_col.spec_encoding(), self.confidence_col.spec_compression()),
            (self.evidence_col.spec_encoding(), self.evidence_col.spec_compression()),
            (self.timestamp_col.spec_encoding(), self.timestamp_col.spec_compression()),
            (self.context_col.spec_encoding(), self.context_col.spec_compression()),
            (self.version_col.spec_encoding(), self.version_col.spec_compression()),
            (self.priority_col.spec_encoding(), self.priority_col.spec_compression()),
            (self.owner_col.spec_encoding(), self.owner_col.spec_compression()),
        ]
    }

    /// Whether every column keeps its values encoded and compressed.
    pub closed spec fn columns_packed(&self) -> bool {
        &&& packed(self.subject_col)
        &&& packed(self.predicate_col)
        &&& packed(self.object_col)
        &&& packed(self.confidence_col)
        &&& packed(self.evidence_col)
        &&& packed(self.timestamp_col)
        &&& packed(self.context_col)
        &&& packed(self.version_col)
        &&& packed(self.priority_col)
        &&& packed(self.owner_col)
    }

    /// Whether every column's compressed values can be put back.
    pub closed spec fn columns_unpack_ok(&self) -> bool {
        &&& unpack_ok(self.subject_col)
        &&& unpack_ok(self.predicate_col)
        &&& unpack_ok(self.object_col)
        &&& unpack_ok(self.confidence_col)
        &&& unpack_ok(self.evidence_col)
        &&& unpack_ok(self.timestamp_col)
        &&& unpack_ok(self.context_col)
        &&& unpack_ok(self.version_col)
        &&& unpack_ok(self.priority_col)
        &&& unpack_ok(self.owner_col)
    }

    /// The rows once every column's compressed values are put back.
    pub closed spec fn rows_after_unpack(&self) -> Seq<Fact> {
        Seq::new(
            self.subject_col@.len(),
            |i: int|
                Fact {
                    subject: SubjectID(after_unpack(self.subject_col)[i]),
                    predicate: PredicateID(after_unpack(self.predicate_col)[i]),
                    object: ObjectID(after_unpack(self.object_col)[i]),
                    confidence_bits: after_unpack(self.confidence_col)[i],
                    evidence: EvidenceID(after_unpack(self.evidence_col)[i]),
                    timestamp: after_unpack(self.timestamp_col)[i],
                    context: ContextID(after_unpack(self.context_col)[i]),
                    version: after_unpack(self.version_col)[i],
                    priority: after_unpack(self.priority_col)[i],
                    owner: after_unpack(self.owner_col)[i],
                },
        )
    }

    /// The capacity shared by all columns.
    pub closed spec fn spec_capacity(&self) -> nat {
        self.subject_col.spec_capacity()
    }

    /// Whether row `i` is deleted.
    pub open spec fn spec_deleted(&self, i: int) -> bool {
        0 <= i < self.tombstone_view().len() && self.tombstone_view()[i]
    }

    /// What `get_fact(i)` answers.
    pub open spec fn spec_get(&self, i: int) -> Option<Fact> {
        if self.spec_deleted(i) || i < 0 || i >= self.rows().len() {
            None
        } else {
            Some(self.rows()[i])
        }
    }

    /// The live rows with their indices, in row order.
    pub open spec fn spec_active(&self) -> Seq<(usize, Fact)> {
        active_prefix(self.rows(), self.tombstone_view(), self.rows().len() as int)
    }

    /// The well-formedness of a schema: ten columns of equal length and
    /// capacity, and a tombstone per possible row, set only on stored rows.
    pub closed spec fn wf(&self) -> bool {
        let n = self.subject_col@.len();
        let c = self.subject_col.spec_capacity();
        &&& c > 0
        &&& n <= c
        &&& self.predicate_col@.len() == n && self.predicate_col.spec_capacity() == c
        &&& self.object_col@.len() == n && self.object_col.spec_capacity() == c
        &&& self.confidence_col@.len() == n && self.confidence_col.spec_capacity() == c
        &&& self.evidence_col@.len() == n && self.evidence_col.spec_capacity() == c
        &&& self.timestamp_col@.len() == n && self.timestamp_col.spec_capacity() == c
        &&& self.context_col@.len() == n && self.context_col.spec_capacity() == c
        &&& self.version_col@.len() == n && self.version_col.spec_capacity() == c
        &&& self.priority_col@.len() == n && self.priority_col.spec_capacity() == c
        &&& self.owner_col@.len() == n && self.owner_col.spec_capacity() == c
        &&& self.tombstone_view().len() == c
        &&& forall|i: int| n <= i < c ==> !self.tombstone_view()[i]
    }

    /// An empty schema for up to `capacity` facts; zero is refused.
    pub fn new(capacity: usize) -> (r: Result<Schema, KcmError>)
        ensures
            capacity == 0 <==> r is Err,
            r matches Err(e) ==> e is InvalidArgument,
            r matches Ok(s) ==> s.wf() && s.rows() == Seq::<Fact>::empty() && s.spec_capacity() == capacity
                && (forall|i: int| !s.spec_deleted(i)) && s.column_formats() == default_formats(),
    {
        let subject_col = SubjectColumn::new(capacity, ColumnEncoding::Dictionary, CompressionCodec::Zstd)?;
        let predicate_col = PredicateColumn::new(capacity, ColumnEncoding::Dictionary, CompressionCodec::Rle)?;
        let object_col = ObjectColumn::new(capacity, ColumnEncoding::Dictionary, CompressionCodec::Zstd)?;
        let confidence_col = ConfidenceColumn::new(capacity, ColumnEncoding::Gorilla, CompressionCodec::Zstd)?;
        let evidence_col = EvidenceColumn::new(capacity, ColumnEncoding::Dictionary, CompressionCodec::Rle)?;
        let timestamp_col = TimestampColumn::new(capacity, ColumnEncoding::Delta, CompressionCodec::Zstd)?;
        let context_col = ContextColumn::new(capacity, ColumnEncoding::Dictionary, CompressionCodec::Rle)?;
        let version_col = VersionColumn::new(capacity, ColumnEncoding::Delta, CompressionCodec::Lz4)?;
        let priority_col = PriorityColumn::new(capacity, ColumnEncoding::Identity, CompressionCodec::Rle)?;
        let owner_col = OwnerColumn::new(capacity, ColumnEncoding::Dictionary, CompressionCodec::Zstd)?;
        let tombstones = Bitmap::new(capacity);
        let s = Schema {
            subject_col,
            predicate_col,
            object_col,
            confidence_col,
            evidence_col,
            timestamp_col,
            context_col,
            version_col,
            priority_col,
            owner_col,
            tombstones,
        };
        assert(s.rows() =~= Seq::<Fact>::empty());
        Ok(s)
    }

    /// Appends a fact as a new live row; a full schema refuses it.
    pub fn append_fact(&mut self, fact: &Fact) -> (r: Result<(), KcmError>)
        requires
            old(self).wf(),
        ensures
            final(self).wf(),
            final(self).spec_capacity() == old(self).spec_capacity(),
            final(self).tombstone_view() == old(self).tombstone_view(),
            old(self).rows().len() < old(self).spec_capacity() ==> r is Ok && final(self).rows() == old(self).rows().push(*fact),
            old(self).rows().len() >= old(self).spec_capacity() ==> (r matches Err(KcmError::OutOfMemory)) && final(self).rows() == old(self).rows(),
    {
        if self.subject_col.len() >= self.subject_col.capacity() {
            return Err(KcmError::OutOfMemory);
        }
        let _ = self.subject_col.append(fact.subject.0);
        let _ = self.predicate_col.append(fact.predicate.0);
        let _ = self.object_col.append(fact.object.0);
        let _ = self.confidence_col.append(fact.confidence_bits);
        let _ = self.evidence_col.append(fact.evidence.0);
        let _ = self.timestamp_col.append(fact.timestamp);
        let _ = self.context_col.append(fact.context.0);
        let _ = self.version_col.append(fact.version);
        let _ = self.priority_col.append(fact.priority);
        let _ = self.owner_col.append(fact.owner);
        assert(self.rows() =~= old(self).rows().push(*fact));
        Ok(())
    }

    /// The number of stored rows, deleted or not.
    pub fn len(&self) -> (r: usize)
        requires
            self.wf(),
        ensures
            r == self.rows().len(),
    {
        self.subject_col.len()
    }

    pub fn is_empty(&self) -> (r: bool)
        requires
            self.wf(),
        ensures
            r == (self.rows().len() == 0),
    {
        self.subject_col.is_empty()
    }

    /// The number of live rows.
    pub fn active_count(&self) -> (r: usize)
        requires
            self.wf(),
        ensures
            r == self.rows().len() - count_true(self.tombstone_view(), self.rows().len() as int),
            r == self.spec_active().len(),
    {
        let n = self.subject_col.len();
        let ones = self.tombstones.count_ones();
        proof {
            let t = self.tombstone_view();
            lemma_count_true_prefix_zero(t, n as int, t.len() as int);
            lemma_count_true_bounds(t, n as int);
            self.lemma_active_len(n as int);
        }
        n - ones
    }

    /// What well-formedness tells about sizes and tombstones.
    pub proof fn lemma_wf(&self)
        requires
            self.wf(),
        ensures
            0 < self.spec_capacity(),
            self.rows().len() <= self.spec_capacity(),
            self.tombstone_view().len() == self.spec_capacity(),
            forall|i: int| self.rows().len() <= i ==> !#[trigger] self.spec_deleted(i),
    {
    }

    proof fn lemma_active_len(&self, k: int)
        requires
            self.wf(),
            0 <= k <= self.rows().len(),
        ensures
            active_prefix(self.rows(), self.tombstone_view(), k).len() == k - count_true(self.tombstone_view(), k),
        decreases k,
    {
        if k > 0 {
            self.lemma_active_len(k - 1);
        }
    }

    /// The fact in row `idx`, unless the row is deleted or does not exist.
    pub fn get_fact(&self, idx: usize) -> (r: Option<Fact>)
        requires
            self.wf(),
        ensures
            r == self.spec_get(idx as int),
    {
        if self.tombstones.get(idx) {
            return None;
        }
        if idx >= self.subject_col.len() {
            return None;
        }
        Some(Fact {
            subject: SubjectID(self.subject_col.get(idx).unwrap()),
            predicate: PredicateID(self.predicate_col.get(idx).unwrap()),
            object: ObjectID(self.object_col.get(idx).unwrap()),
            confidence_bits: self.confidence_col.get(idx).unwrap(),
            evidence: EvidenceID(self.evidence_col.get(idx).unwrap()),
            timestamp: self.timestamp_col.get(idx).unwrap(),
            context: ContextID(self.context_col.get(idx).unwrap()),
            version: self.version_col.get(idx).unwrap(),
            priority: self.priority_col.get(idx).unwrap(),
            owner: self.owner_col.get(idx).unwrap(),
        })
    }

    /// The fact stored in row `idx`, deleted or not.
    pub fn fact_at(&self, idx: usize) -> (r: Fact)
        requires
            self.wf(),
            idx < self.rows().len(),
        ensures
            r == self.rows()[idx as int],
    {
        Fact {
            subject: SubjectID(self.subject_col.get(idx).unwrap()),
            predicate: PredicateID(self.predicate_col.get(idx).unwrap()),
            object: ObjectID(self.object_col.get(idx).unwrap()),
            confidence_bits: self.confidence_col.get(idx).unwrap(),
            evidence: EvidenceID(self.evidence_col.get(idx).unwrap()),
            timestamp: self.timestamp_col.get(idx).unwrap(),
            context: ContextID(self.context_col.get(idx).unwrap()),
            version: self.version_col.get(idx).unwrap(),
            priority: self.priority_col.get(idx).unwrap(),
            owner: self.owner_col.get(idx).unwrap(),
        }
    }

    /// Marks row `idx` deleted.
    pub fn delete_fact(&mut self, idx: usize) -> (r: Result<(), KcmError>)
        requires
            old(self).wf(),
        ensures
            final(self).wf(),
            final(self).rows() == old(self).rows(),
            final(self).spec_capacity() == old(self).spec_capacity(),
            idx < old(self).rows().len() ==> r is Ok && final(self).tombstone_view() == old(self).tombstone_view().update(idx as int, true),
            idx >= old(self).rows().len() ==> (r matches Err(KcmError::InvalidArgument(_))) && final(self).tombstone_view() == old(self).tombstone_view(),
    {
        let n = self.subject_col.len();
        if idx >= n {
            return Err(index_error(idx, n));
        }
        self.tombstones.set(idx);
        Ok(())
    }

    /// Overwrites row `idx` with `fact`, deleted or not.
    pub fn update_fact(&mut self, idx: usize, fact: &Fact) -> (r: Result<(), KcmError>)
        requires
            old(self).wf(),
        ensures
            final(self).wf(),
            final(self).tombstone_view() == old(self).tombstone_view(),
            final(self).spec_capacity() == old(self).spec_capacity(),
            idx < old(self).rows().len() ==> r is Ok && final(self).rows() == old(self).rows().update(idx as int, *fact),
            idx >= old(self).rows().len() ==> (r matches Err(KcmError::InvalidArgument(_))) && final(self).rows() == old(self).rows(),
    {
        let n = self.subject_col.len();
        if idx >= n {
            return Err(index_error(idx, n));
        }
        let _ = self.subject_col.set(idx, fact.subject.0);
        let _ = self.predicate_col.set(idx, fact.predicate.0);
        let _ = self.object_col.set(idx, fact.object.0);
        let _ = self.confidence_col.set(idx, fact.confidence_bits);
        let _ = self.evidence_col.set(idx, fact.evidence.0);
        let _ = self.timestamp_col.set(idx, fact.timestamp);
        let _ = self.context_col.set(idx, fact.context.0);
        let _ = self.version_col.set(idx, fact.version);
        let _ = self.priority_col.set(idx, fact.priority);
        let _ = self.owner_col.set(idx, fact.owner);
        assert(self.rows() =~= old(self).rows().update(idx as int, *fact));
        Ok(())
    }

    /// Whether row `idx` is deleted.
    pub fn is_deleted(&self, idx: usize) -> (r: bool)
        ensures
            r == self.spec_deleted(idx as int),
    {
        self.tombstones.get(idx)
    }

    /// Clears the tombstone of row `idx`.
    pub fn clear_tombstone(&mut self, idx: usize) -> (r: Result<(), KcmError>)
        requires
            old(self).wf(),
        ensures
            final(self).wf(),
            final(self).rows() == old(self).rows(),
            final(self).spec_capacity() == old(self).spec_capacity(),
            idx < old(self).rows().len() ==> r is Ok && final(self).tombstone_view() == old(self).tombstone_view().update(idx as int, false),
            idx >= old(self).rows().len() ==> (r matches Err(KcmError::InvalidArgument(_))) && final(self).tombstone_view() == old(self).tombstone_view(),
    {
        let n = self.subject_col.len();
        if idx >= n {
            return Err(index_error(idx, n));
        }
        self.tombstones.clear(idx);
        Ok(())
    }

    /// The tombstone bits, packed eight to a byte.
    pub fn tombstone_bytes(&self) -> (r: Vec<u8>)
        ensures
            r@.len() == (self.tombstone_view().len() + 7) / 8,
            forall|i: int| 0 <= i < self.tombstone_view().len() ==> #[trigger] bit_of(r@, i) == self.tombstone_view()[i],
    {
        self.tombstones.to_bytes()
    }

    /// The number of tombstone bits.
    pub fn tombstone_len(&self) -> (r: usize)
        ensures
            r == self.tombstone_view().len(),
    {
        self.tombstones.len()
    }

    /// Replaces the tombstones by `len` bits read from `bytes`.
    pub fn restore_tombstones(&mut self, bytes: &[u8], len: usize)
        requires
            old(self).wf(),
            len == old(self).spec_capacity(),
            forall|i: int| old(self).rows().len() <= i < len ==> !(i / 8 < bytes@.len() && #[trigger] bit_of(bytes@, i)),
        ensures
            final(self).wf(),
            final(self).rows() == old(self).rows(),
            final(self).spec_capacity() == old(self).spec_capacity(),
            final(self).tombstone_view().len() == len,
            forall|i: int| 0 <= i < len ==> #[trigger] final(self).tombstone_view()[i] == (i / 8 < bytes@.len() && bit_of(bytes@, i)),
    {
        self.tombstones = Bitmap::from_bytes(bytes, len);
    }

    /// The live rows with their indices, in row order.
    pub fn iter_active(&self) -> (r: Vec<(usize, Fact)>)
        requires
            self.wf(),
        ensures
            r@ == self.spec_active(),
    {
        let n = self.subject_col.len();
        let mut out: Vec<(usize, Fact)> = Vec::new();
        let mut idx: usize = 0;
        while idx < n
            invariant
                self.wf(),
                n == self.rows().len(),
                idx <= n,
                out@ == active_prefix(self.rows(), self.tombstone_view(), idx as int),
            decreases n - idx,
        {
            if !self.tombstones.get(idx) {
                let f = self.get_fact(idx).unwrap();
                out.push((idx, f));
            }
            idx = idx + 1;
        }
        out
    }

    /// Compresses every column, stopping at the first codec error; the
    /// rows stay as they are, and on success every column keeps its values
    /// encoded with its encoding and compressed with its codec.
    pub fn compress_all_columns(&mut self) -> (r: Result<(), KcmError>)
        requires
            old(self).wf(),
        ensures
            final(self).wf(),
            final(self).rows() == old(self).rows(),
            final(self).tombstone_view() == old(self).tombstone_view(),
            final(self).spec_capacity() == old(self).spec_capacity(),
            r matches Err(e) ==> e is Io,
            r is Ok ==> final(self).columns_packed(),
    {
        self.subject_col.compress_data()?;
        self.predicate_col.compress_data()?;
        self.object_col.compress_data()?;
        self.confidence_col.compress_data()?;
        self.evidence_col.compress_data()?;
        self.timestamp_col.compress_data()?;
        self.context_col.compress_data()?;
        self.version_col.compress_data()?;
        self.priority_col.compress_data()?;
        self.owner_col.compress_data()?;
        Ok(())
    }

    /// Puts back every column's compressed values, stopping at the first
    /// error.
    #[verifier::spinoff_prover]
    #[verifier::rlimit(100)]
    pub fn decompress_all_columns(&mut self) -> (r: Result<(), KcmError>)
        requires
            old(self).wf(),
        ensures
            final(self).wf(),
            final(self).rows().len() == old(self).rows().len(),
            final(self).tombstone_view() == old(self).tombstone_view(),
            final(self).spec_capacity() == old(self).spec_capacity(),
            r is Ok <==> old(self).columns_unpack_ok(),
            r is Ok ==> final(self).rows() == old(self).rows_after_unpack(),
            r matches Err(e) ==> e is Io || e is Corrupted,
    {
        let r0 = unpack_column(&mut self.subject_col);
        if r0.is_err() {
            return r0;
        }
        let r1 = unpack_column(&mut self.predicate_col);
        if r1.is_err() {
            return r1;
        }
        let r2 = unpack_column(&mut self.object_col);
        if r2.is_err() {
            return r2;
        }
        let r3 = unpack_column(&mut self.confidence_col);
        if r3.is_err() {
            return r3;
        }
        let r4 = unpack_column(&mut self.evidence_col);
        if r4.is_err() {
            return r4;
        }
        let r5 = unpack_column(&mut self.timestamp_col);
        if r5.is_err() {
            return r5;
        }
        let r6 = unpack_column(&mut self.context_col);
        if r6.is_err() {
            return r6;
        }
        let r7 = unpack_column(&mut self.version_col);
        if r7.is_err() {
            return r7;
        }
        let r8 = unpack_column(&mut self.priority_col);
        if r8.is_err() {
            return r8;
        }
        let r9 = unpack_column(&mut self.owner_col);
        if r9.is_err() {
            return r9;
        }
        assert(self.rows() =~= old(self).rows_after_unpack());
        Ok(())
    }

    /// A new schema holding only the live rows, in order, with capacity for
    /// exactly them (at least one).
    pub fn compact(&self) -> (r: Result<Schema, KcmError>)
        requires
            self.wf(),
        ensures
            r matches Ok(s) && s.wf()
                && s.rows() == self.spec_active().map_values(|p: (usize, Fact)| p.1)
                && s.spec_capacity() == (if self.spec_active().len() > 0 { self.spec_active().len() } else { 1 })
                && (forall|i: int| !s.spec_deleted(i)),
    {
        let active_count = self.active_count();
        let cap = if active_count > 1 { active_count } else { 1 };
        let mut new_schema = Schema::new(cap).unwrap();
        let actives = self.iter_active();
        let k = actives.len();
        let mut j: usize = 0;
        while j < k
            invariant
                k == actives@.len(),
                actives@ == self.spec_active(),
                cap == (if k > 0 { k } else { 1 }),
                j <= k,
                new_schema.wf(),
                new_schema.spec_capacity() == cap,
                new_schema.rows() == actives@.subrange(0, j as int).map_values(|p: (usize, Fact)| p.1),
                forall|i: int| !new_schema.spec_deleted(i),
            decreases k - j,
        {
            let (_, f) = actives[j];
            let ghost before = new_schema;
            let _ = new_schema.append_fact(&f);
            proof {
                assert(new_schema.tombstone_view() == before.tombstone_view());
                assert forall|i: int| !new_schema.spec_deleted(i) by {
                    assert(!before.spec_deleted(i));
                }
                assert(actives@.subrange(0, j + 1).map_values(|p: (usize, Fact)| p.1)
                    =~= actives@.subrange(0, j as int).map_values(|p: (usize, Fact)| p.1).push(f));
            }
            j = j + 1;
        }
        proof {
            assert(actives@.subrange(0, k as int) =~= actives@);
        }
        Ok(new_schema)
    }
}

// ---------------------------------------------------------------------
// Laws of the fact table.
// ---------------------------------------------------------------------

/// A fact appended to a schema that has room reads back from the new row.
pub proof fn law_append_then_get(before: Schema, after: Schema, fact: Fact)
    requires
        before.wf(),
        after.wf(),
        after.rows() == before.rows().push(fact),
        after.tombstone_view() == before.tombstone_view(),
    ensures
        after.spec_get(before.rows().len() as int) == Some(fact),
{
}

/// A deleted row reads back as absent.
pub proof fn law_delete_then_get(after: Schema, idx: int)
    requires
        after.wf(),
        0 <= idx < after.rows().len(),
        after.spec_deleted(idx),
    ensures
        after.spec_get(idx) is None,
{
}

/// An overwritten live row reads back the new fact; other rows are unchanged.
pub proof fn law_update_then_get(before: Schema, after: Schema, idx: int, fact: Fact)
    requires
        before.wf(),
        after.wf(),
        0 <= idx < before.rows().len(),
        after.rows() == before.rows().update(idx, fact),
        after.tombstone_view() == before.tombstone_view(),
    ensures
        !before.spec_deleted(idx) ==> after.spec_get(idx) == Some(fact),
        forall|j: int| j != idx ==> after.spec_get(j) == before.spec_get(j),
{
}

/// The live count is the number of stored rows minus the deleted ones, and
/// deleting a live row lowers it by one.
pub proof fn law_delete_lowers_active_count(before: Schema, after: Schema, idx: int)
    requires
        before.wf(),
        after.wf(),
        0 <= idx < before.rows().len(),
        !before.spec_deleted(idx),
        after.rows() == before.rows(),
        after.tombstone_view() == before.tombstone_view().update(idx, true),
    ensures
        after.spec_active().len() + 1 == before.spec_active().len(),
{
    let n = before.rows().len() as int;
    before.lemma_active_len(n);
    after.lemma_active_len(n);
    lemma_count_true_update(before.tombstone_view(), idx, true, n);
}

} // verus!
