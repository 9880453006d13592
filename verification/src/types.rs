//! Core value types of the knowledge store: identifiers, facts and errors.
//!
//! A fact's confidence is a 64-bit IEEE-754 number; the library carries it
//! as its bit pattern (`confidence_bits`), which is exactly what every
//! storage, encoding and comparison routine of the library needs.
use vstd::prelude::*;

verus! {

/// Dictionary-encoded subject identifier.
#[derive(Clone, Copy, Debug, PartialEq, Eq, Structural)]
pub struct SubjectID(pub u32);

/// Dictionary-encoded predicate identifier.
#[derive(Clone, Copy, Debug, PartialEq, Eq, Structural)]
pub struct PredicateID(pub u8);

/// Dictionary-encoded object identifier.
#[derive(Clone, Copy, Debug, PartialEq, Eq, Structural)]
pub struct ObjectID(pub u32);

/// Evidence identifier.
#[derive(Clone, Copy, Debug, PartialEq, Eq, Structural)]
pub struct EvidenceID(pub u8);

/// Context identifier.
#[derive(Clone, Copy, Debug, PartialEq, Eq, Structural)]
pub struct ContextID(pub u8);

/// Row identifier inside a schema.
#[derive(Clone, Copy, Debug, PartialEq, Eq, Structural)]
pub struct RowID(pub u64);

/// Bit pattern of the IEEE-754 number 1.0.
pub const ONE_BITS: u64 = 0x3FF0_0000_0000_0000;

/// Bit pattern of the IEEE-754 number -0.0.
pub const NEG_ZERO_BITS: u64 = 0x8000_0000_0000_0000;

/// The evidence identifier used when nothing is known of the evidence.
pub open spec fn evidence_unknown() -> EvidenceID {
    EvidenceID(0)
}

/// A confidence bit pattern denotes a number in `[0.0, 1.0]`: the
/// non-negative numbers up to 1.0 have the patterns `0 ..= ONE_BITS`
/// (the order of non-negative IEEE-754 numbers is the order of their
/// patterns), and -0.0 compares equal to 0.0.
pub open spec fn valid_confidence_bits(bits: u64) -> bool {
    bits <= ONE_BITS || bits == NEG_ZERO_BITS
}

/// One knowledge fact: ten physical columns of one row.
#[derive(Clone, Copy, Debug, PartialEq, Eq, Structural)]
pub struct Fact {
    pub subject: SubjectID,
    pub predicate: PredicateID,
    pub object: ObjectID,
    pub confidence_bits: u64,
    pub evidence: EvidenceID,
    pub timestamp: i64,
    pub context: ContextID,
    pub version: i32,
    pub priority: i8,
    pub owner: u16,
}

/// The fact that `Fact::new` builds from its four arguments.
pub open spec fn spec_new_fact(subject: SubjectID, predicate: PredicateID, object: ObjectID, confidence_bits: u64) -> Fact {
    Fact {
        subject,
        predicate,
        object,
        confidence_bits,
        evidence: evidence_unknown(),
        timestamp: 0,
        context: ContextID(0),
        version: 0,
        priority: 0,
        owner: 0,
    }
}

/// Errors of the knowledge store.
#[derive(Clone, Debug, PartialEq, Eq)]
pub enum KcmError {
    Io(String),
    Corrupted(String),
    InvalidArgument(String),
    NotFound(String),
    OutOfMemory,
    TransactionAborted,
}

impl Fact {
    /// Builds a fact with default evidence, timestamp, context, version,
    /// priority and owner; the confidence must lie in `[0.0, 1.0]`.
    pub fn new(subject: SubjectID, predicate: PredicateID, object: ObjectID, confidence_bits: u64) -> (r: Result<Fact, KcmError>)
        ensures
            valid_confidence_bits(confidence_bits) ==> r == Ok::<Fact, KcmError>(spec_new_fact(subject, predicate, object, confidence_bits)),
            !valid_confidence_bits(confidence_bits) ==> r matches Err(KcmError::InvalidArgument(_)),
    {
        if confidence_bits <= ONE_BITS || confidence_bits == NEG_ZERO_BITS {
            Ok(Fact {
                subject,
                predicate,
                object,
                confidence_bits,
                evidence: EvidenceID(0),
                timestamp: 0,
                context: ContextID(0),
                version: 0,
                priority: 0,
                owner: 0,
            })
        } else {
            Err(KcmError::InvalidArgument(String::from_str("Confidence must be within [0.0, 1.0]")))
        }
    }
}

impl RowID {
    /// The row identifier as an index (truncated where `usize` is narrower).
    pub fn as_usize(&self) -> (r: usize)
        ensures
            r == self.0 as usize,
    {
        self.0 as usize
    }
}

} // verus!
