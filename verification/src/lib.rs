//! A columnar knowledge store: fact storage, codecs, write-ahead log,
//! indexes, dictionaries, access control and audit trail.
pub mod assoc;
pub mod audit;
pub mod bitmap;
pub mod bytes;
pub mod codec;
pub mod colcodec;
pub mod column;
pub mod compress;
pub mod crc;
pub mod database;
pub mod dict;
pub mod encryption;
pub mod errors;
pub mod file_format;
pub mod fmt;
pub mod hash;
pub mod health;
pub mod index;
mod key_seal;
pub mod logging;
pub mod metrics;
pub mod query;
pub mod recovery;
pub mod secrets;
pub mod server;
pub mod rbac;
pub mod robin_hood;
pub mod transaction;
pub mod types;
pub mod wal;
pub mod wal_state;
