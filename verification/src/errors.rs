//! Errors of the storage layer, their messages, and how they map onto the
//! store's own error type.
use crate::fmt::{spec_decimal, u64_to_decimal};
use crate::types::KcmError;
use vstd::prelude::*;
use vstd::string::*;

verus! {

#[verifier::external_type_specification]
#[verifier::external_body]
pub struct ExIoError(std::io::Error);

/// The text of an I/O error, as `std::io::Error`'s `Display` writes it.
/// Nothing is promised of the text.
#[verifier::external_body]
fn io_error_text(e: &std::io::Error) -> String {
    e.to_string()
}

#[derive(Debug)]
pub enum StorageError {
    Io(std::io::Error),
    Compression(String),
    Corrupted(String),
    ColumnFull { capacity: usize, current: usize },
    IndexOutOfBounds { index: usize, len: usize },
    InvalidEncoding(String),
    HashMismatch { expected: String, actual: String },
}

/// The message of an index that lies past the end.
pub open spec fn out_of_bounds_text(index: usize, len: usize) -> Seq<char> {
    "Index out of bounds: "@ + spec_decimal(index as nat) + " >= "@ + spec_decimal(len as nat)
}

/// The text an index error carries once converted.
pub open spec fn converted_index_text(index: usize, len: usize) -> Seq<char> {
    "Index "@ + spec_decimal(index as nat) + " out of bounds (len "@ + spec_decimal(len as nat) + ")"@
}

/// The text a hash mismatch carries once converted, and its message.
pub open spec fn mismatch_text(expected: Seq<char>, actual: Seq<char>) -> Seq<char> {
    "Hash mismatch: expected "@ + expected + ", got "@ + actual
}

impl StorageError {
    /// The error's message.
    pub fn message(&self) -> (r: String)
        ensures
            match self {
                StorageError::Io(_) => exists|t: Seq<char>| r@ == "IO error: "@ + t,
                StorageError::Compression(s) => r@ == "Compression error: "@ + s@,
                StorageError::Corrupted(s) => r@ == "Corruption detected: "@ + s@,
                StorageError::ColumnFull { capacity, current } => r@ == "Column full: capacity "@ + spec_decimal(
                    *capacity as nat,
                ) + ", current "@ + spec_decimal(*current as nat),
                StorageError::IndexOutOfBounds { index, len } => r@ == out_of_bounds_text(*index, *len),
                StorageError::InvalidEncoding(s) => r@ == "Invalid encoding: "@ + s@,
                StorageError::HashMismatch { expected, actual } => r@ == mismatch_text(expected@, actual@),
            },
    {
        match self {
            StorageError::Io(e) => {
                let t = io_error_text(e);
                let mut s = String::from_str("IO error: ");
                s.append(t.as_str());
                s
            },
            StorageError::Compression(m) => {
                let mut s = String::from_str("Compression error: ");
                s.append(m.as_str());
                s
            },
            StorageError::Corrupted(m) => {
                let mut s = String::from_str("Corruption detected: ");
                s.append(m.as_str());
                s
            },
            StorageError::ColumnFull { capacity, current } => {
                let mut s = String::from_str("Column full: capacity ");
                let a = u64_to_decimal(*capacity as u64);
                s.append(a.as_str());
                s.append(", current ");
                let b = u64_to_decimal(*current as u64);
                s.append(b.as_str());
                s
            },
            StorageError::IndexOutOfBounds { index, len } => {
                let mut s = String::from_str("Index out of bounds: ");
                let a = u64_to_decimal(*index as u64);
                s.append(a.as_str());
                s.append(" >= ");
                let b = u64_to_decimal(*len as u64);
                s.append(b.as_str());
                s
            },
            StorageError::InvalidEncoding(m) => {
                let mut s = String::from_str("Invalid encoding: ");
                s.append(m.as_str());
                s
            },
            StorageError::HashMismatch { expected, actual } => {
                let mut s = String::from_str("Hash mismatch: expected ");
                s.append(expected.as_str());
                s.append(", got ");
                s.append(actual.as_str());
                s
            },
        }
    }

    /// The store's error for this one: I/O and compression failures become
    /// `Io`, corruption and hash mismatches `Corrupted`, a full column
    /// `OutOfMemory`, and bad indexes and encodings `InvalidArgument`.
    pub fn to_kcm_error(self) -> (r: KcmError)
        ensures
            match self {
                StorageError::Io(_) => r is Io,
                StorageError::Compression(s) => r == KcmError::Io(s),
                StorageError::Corrupted(s) => r == KcmError::Corrupted(s),
                StorageError::ColumnFull { .. } => r == KcmError::OutOfMemory,
                StorageError::IndexOutOfBounds { index, len } => r matches KcmError::InvalidArgument(m) && m@
                    == converted_index_text(index, len),
                StorageError::InvalidEncoding(s) => r == KcmError::InvalidArgument(s),
                StorageError::HashMismatch { expected, actual } => r matches KcmError::Corrupted(m) && m@ == mismatch_text(
                    expected@,
                    actual@,
                ),
            },
    {
        match self {
            StorageError::Io(e) => KcmError::Io(io_error_text(&e)),
            StorageError::Compression(s) => KcmError::Io(s),
            StorageError::Corrupted(s) => KcmError::Corrupted(s),
            StorageError::ColumnFull { .. } => KcmError::OutOfMemory,
            StorageError::IndexOutOfBounds { index, len } => {
                let mut s = String::from_str("Index ");
                let a = u64_to_decimal(index as u64);
                s.append(a.as_str());
                s.append(" out of bounds (len ");
                let b = u64_to_decimal(len as u64);
                s.append(b.as_str());
                s.append(")");
                KcmError::InvalidArgument(s)
            },
            StorageError::InvalidEncoding(s) => KcmError::InvalidArgument(s),
            StorageError::HashMismatch { expected, actual } => {
                let mut s = String::from_str("Hash mismatch: expected ");
                s.append(expected.as_str());
                s.append(", got ");
                s.append(actual.as_str());
                KcmError::Corrupted(s)
            },
        }
    }
}

} // verus!
