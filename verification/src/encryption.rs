//! Keys derived from passwords or drawn at random, AES-256-GCM sealing of
//! byte strings (nonce first), and a store of keys sealed under a master key.
use crate::assoc::{assoc_map, keys_unique, lemma_assoc_absent, lemma_assoc_index, lemma_assoc_push, lemma_assoc_remove, lemma_assoc_update};
use crate::hash::{blake3_derive_key, spec_blake3_derive_key};
use crate::fmt::{spec_decimal, u64_to_decimal};
use crate::logging::unix_time_secs;
use crate::bytes::{copy_range, i64_from_le, i64_le, lemma_le_roundtrips, lemma_window, push_bytes, push_i64, push_u32, read_i64, read_u32};
use crate::types::KcmError;
use aes_gcm::aead::rand_core::RngCore;
use aes_gcm::aead::{Aead, KeyInit, OsRng};
use aes_gcm::{Aes256Gcm, Nonce};
use vstd::prelude::*;
use vstd::slice::slice_subrange;
use vstd::bytes::{spec_u32_from_le_bytes, spec_u32_to_le_bytes};
use vstd::string::*;
use vstd::utf8::{decode_utf8, encode_utf8, encode_utf8_decode_utf8, encode_utf8_valid_utf8, valid_utf8};

verus! {

pub const KEY_SIZE: usize = 32;
pub const NONCE_SIZE: usize = 12;
pub const MIN_PASSWORD_LENGTH: usize = 8;
pub const MAX_PASSWORD_LENGTH: usize = 1024;
pub const MAX_KEY_NAME_LENGTH: usize = 256;

/// The longest plaintext AES-GCM seals, in bytes.
pub const AES_GCM_P_MAX: u64 = 68719476736;

#[verifier::external_type_specification]
#[verifier::external_body]
pub struct ExGetrandomError(getrandom::Error);

#[verifier::external_type_specification]
#[verifier::external_body]
pub struct ExRandCoreError(aes_gcm::aead::rand_core::Error);

/// The AES-256-GCM sealing (ciphertext with its 16-byte tag appended) of a
/// plaintext under a key and nonce, with no associated data; `None` when the
/// plaintext is too long.
pub uninterp spec fn spec_aes_gcm_seal(key: Seq<u8>, nonce: Seq<u8>, plaintext: Seq<u8>) -> Option<Seq<u8>>;

/// The AES-256-GCM opening of a sealed text: `None` when the tag does not
/// authenticate it under the key and nonce.
pub uninterp spec fn spec_aes_gcm_open(key: Seq<u8>, nonce: Seq<u8>, sealed: Seq<u8>) -> Option<Seq<u8>>;

/// Calls `Aead::encrypt` of `aes_gcm::Aes256Gcm`. Its result is named
/// `spec_aes_gcm_seal`; the crate fails only on plaintexts longer than
/// 2^36 bytes, appends a 16-byte tag, and what it seals opens again to the
/// plaintext under the same key and nonce. On failure it gives the text of
/// `aead::Error`, whose `Display` writes `aead::Error`.
#[verifier::external_body]
fn aes_gcm_seal(key: &[u8; 32], nonce: &[u8; 12], plaintext: &[u8]) -> (r: Result<Vec<u8>, String>)
    ensures
        match r {
            Ok(c) => spec_aes_gcm_seal(key@, nonce@, plaintext@) == Some(c@),
            Err(m) => spec_aes_gcm_seal(key@, nonce@, plaintext@) is None && m@ == "aead::Error"@,
        },
        plaintext@.len() <= AES_GCM_P_MAX ==> r is Ok,
        r matches Ok(c) ==> c@.len() == plaintext@.len() + 16 && spec_aes_gcm_open(key@, nonce@, c@) == Some(plaintext@),
{
    let cipher = Aes256Gcm::new(key.into());
    match cipher.encrypt(Nonce::from_slice(nonce), plaintext) {
        Ok(c) => Ok(c),
        Err(e) => Err(e.to_string()),
    }
}

/// Calls `Aead::decrypt` of `aes_gcm::Aes256Gcm`; its result is named
/// `spec_aes_gcm_open`. On failure it gives the text of `aead::Error`,
/// whose `Display` writes `aead::Error`.
#[verifier::external_body]
fn aes_gcm_open(key: &[u8; 32], nonce: &[u8], sealed: &[u8]) -> (r: Result<Vec<u8>, String>)
    requires
        nonce@.len() == 12,
    ensures
        match r {
            Ok(p) => spec_aes_gcm_open(key@, nonce@, sealed@) == Some(p@),
            Err(m) => spec_aes_gcm_open(key@, nonce@, sealed@) is None && m@ == "aead::Error"@,
        },
{
    let cipher = Aes256Gcm::new(key.into());
    match cipher.decrypt(Nonce::from_slice(nonce), sealed) {
        Ok(p) => Ok(p),
        Err(e) => Err(e.to_string()),
    }
}

/// The error text of a failed opening of `n` bytes.
pub open spec fn decrypt_error_text(n: nat) -> Seq<char> {
    if n < NONCE_SIZE {
        "Encrypted data too short: "@ + spec_decimal(n) + " bytes (minimum 12)"@
    } else {
        "Decryption failed: "@ + "aead::Error"@
    }
}

/// Calls `getrandom::getrandom` on 32 bytes; what comes back is chance.
#[verifier::external_body]
fn os_random_key() -> (r: Result<[u8; 32], getrandom::Error>) {
    let mut key = [0u8; 32];
    getrandom::getrandom(&mut key)?;
    Ok(key)
}

/// The text of a `getrandom::Error`, as its `Display` writes it; nothing
/// is promised of the text.
#[verifier::external_body]
fn getrandom_error_text(e: &getrandom::Error) -> String {
    e.to_string()
}

/// Calls `RngCore::try_fill_bytes` of `OsRng` on 12 bytes; what comes back
/// is chance.
#[verifier::external_body]
fn os_random_nonce() -> (r: Result<[u8; 12], aes_gcm::aead::rand_core::Error>) {
    let mut nonce = [0u8; 12];
    OsRng.try_fill_bytes(&mut nonce)?;
    Ok(nonce)
}

/// What `decrypt` gives back for a nonce-prefixed sealed text.
pub open spec fn spec_decrypt(key: Seq<u8>, encrypted: Seq<u8>) -> Option<Seq<u8>> {
    if encrypted.len() < NONCE_SIZE {
        None
    } else {
        spec_aes_gcm_open(key, encrypted.subrange(0, 12), encrypted.subrange(12, encrypted.len() as int))
    }
}

/// The material a password key is derived from: the password's bytes, then
/// the salt.
pub open spec fn password_material(password: &str, salt: Seq<u8>) -> Seq<u8> {
    password.spec_bytes() + salt
}

/// A 32-byte symmetric key.
pub struct EncryptionKey {
    key: [u8; 32],
}

impl View for EncryptionKey {
    type V = Seq<u8>;

    closed spec fn view(&self) -> Seq<u8> {
        self.key@
    }
}

impl EncryptionKey {
    /// The BLAKE3 key derived under "kcm-encryption-v1" from the password's
    /// bytes followed by the salt; the password must be 8 to 1024 bytes.
    pub fn from_password(password: &str, salt: &[u8; 32]) -> (r: Result<EncryptionKey, KcmError>)
        ensures
            r is Ok <==> MIN_PASSWORD_LENGTH <= password.len() <= MAX_PASSWORD_LENGTH,
            r matches Err(e) ==> e is InvalidArgument,
            r matches Ok(k) ==> k@ == spec_blake3_derive_key("kcm-encryption-v1"@, password_material(password, salt@)),
    {
        if password.len() < MIN_PASSWORD_LENGTH {
            return Err(KcmError::InvalidArgument(String::from_str("Password must be at least 8 characters")));
        }
        if password.len() > MAX_PASSWORD_LENGTH {
            return Err(KcmError::InvalidArgument(String::from_str("Password must not exceed 1024 characters")));
        }
        let bytes = password.as_bytes();
        let mut material: Vec<u8> = Vec::new();
        let n = bytes.len();
        let mut i: usize = 0;
        while i < n
            invariant
                n == bytes@.len(),
                i <= n,
                material@ == bytes@.subrange(0, i as int),
            decreases n - i,
        {
            material.push(bytes[i]);
            assert(material@ =~= bytes@.subrange(0, i + 1));
            i = i + 1;
        }
        let mut j: usize = 0;
        while j < 32
            invariant
                j <= 32,
                material@ == bytes@ + salt@.subrange(0, j as int),
            decreases 32 - j,
        {
            material.push(salt[j]);
            assert(material@ =~= bytes@ + salt@.subrange(0, j + 1));
            j = j + 1;
        }
        assert(bytes@.subrange(0, n as int) =~= bytes@);
        assert(salt@.subrange(0, 32) =~= salt@);
        let derived = blake3_derive_key("kcm-encryption-v1", material.as_slice());
        Ok(EncryptionKey { key: derived })
    }

    /// A key drawn from the operating system's random source; a failure of
    /// the source is `CSPRNG failure: {its message}`.
    pub fn random() -> (r: Result<EncryptionKey, KcmError>)
        ensures
            r matches Err(e) ==> e matches KcmError::Io(m) && exists|t: Seq<char>| m@ == "CSPRNG failure: "@ + t,
    {
        match os_random_key() {
            Ok(key) => Ok(EncryptionKey { key }),
            Err(e) => {
                let t = getrandom_error_text(&e);
                let mut m = String::from_str("CSPRNG failure: ");
                m.append(t.as_str());
                Err(KcmError::Io(m))
            },
        }
    }

    pub fn as_bytes(&self) -> (r: &[u8; 32])
        ensures
            r@ == self@,
    {
        &self.key
    }

    /// Compares two keys byte by byte without stopping early.
    pub fn constant_time_eq(&self, other: &EncryptionKey) -> (r: bool)
        ensures
            r == (self@ == other@),
    {
        let mut acc: u8 = 0;
        let mut i: usize = 0;
        while i < 32
            invariant
                i <= 32,
                self.key@.len() == 32,
                other.key@.len() == 32,
                (acc == 0) <==> forall|k: int| 0 <= k < i ==> self.key@[k] == other.key@[k],
            decreases 32 - i,
        {
            let a = self.key[i];
            let b = other.key[i];
            let next = acc | (a ^ b);
            assert((next == 0) <==> (acc == 0 && a == b)) by (bit_vector)
                requires
                    next == acc | (a ^ b),
            ;
            acc = next;
            i = i + 1;
        }
        if acc == 0 {
            assert(self.key@ =~= other.key@);
        }
        acc == 0
    }
}

/// AES-256-GCM sealing with a fresh random nonce stored in front.
pub struct EncryptedStorage;

impl EncryptedStorage {
    /// Seals a non-empty plaintext under `key` with a random nonce; the
    /// result is the nonce followed by the sealed text.
    pub fn encrypt(plaintext: &[u8], key: &EncryptionKey) -> (r: Result<Vec<u8>, KcmError>)
        ensures
            plaintext@.len() == 0 ==> r matches Err(KcmError::InvalidArgument(_)),
            plaintext@.len() > 0 ==> (r is Ok || r matches Err(KcmError::Io(_))),
            r matches Ok(v) ==> v@.len() == NONCE_SIZE + plaintext@.len() + 16
                && spec_aes_gcm_seal(key@, v@.subrange(0, 12), plaintext@) == Some(v@.subrange(12, v@.len() as int))
                && spec_decrypt(key@, v@) == Some(plaintext@),
    {
        if plaintext.len() == 0 {
            return Err(KcmError::InvalidArgument(String::from_str("Plaintext cannot be empty")));
        }
        let nonce = match os_random_nonce() {
            Ok(n) => n,
            Err(_) => return Err(KcmError::Io(String::from_str("CSPRNG failure"))),
        };
        let r = Self::encrypt_with_nonce(plaintext, key, &nonce);
        r
    }

    /// Seals a non-empty plaintext under `key` and `nonce`; the result is the
    /// nonce followed by the sealed text.
    pub fn encrypt_with_nonce(plaintext: &[u8], key: &EncryptionKey, nonce: &[u8; 12]) -> (r: Result<Vec<u8>, KcmError>)
        ensures
            plaintext@.len() == 0 ==> r matches Err(KcmError::InvalidArgument(_)),
            plaintext@.len() > 0 && spec_aes_gcm_seal(key@, nonce@, plaintext@) is None ==> (r matches Err(KcmError::Io(m))
                && m@ == "Encryption failed: "@ + "aead::Error"@),
            plaintext@.len() > 0 && plaintext@.len() <= AES_GCM_P_MAX ==> r is Ok,
            plaintext@.len() > 0 ==> (r is Ok <==> spec_aes_gcm_seal(key@, nonce@, plaintext@) is Some),
            r matches Ok(v) ==> spec_aes_gcm_seal(key@, nonce@, plaintext@) == Some(v@.subrange(12, v@.len() as int))
                && v@.subrange(0, 12) == nonce@ && v@.len() == NONCE_SIZE + plaintext@.len() + 16
                && spec_decrypt(key@, v@) == Some(plaintext@),
    {
        if plaintext.len() == 0 {
            return Err(KcmError::InvalidArgument(String::from_str("Plaintext cannot be empty")));
        }
        let sealed = match aes_gcm_seal(&key.key, nonce, plaintext) {
            Ok(c) => c,
            Err(e) => {
                let mut m = String::from_str("Encryption failed: ");
                m.append(e.as_str());
                return Err(KcmError::Io(m));
            },
        };
        let mut out: Vec<u8> = Vec::new();
        let mut i: usize = 0;
        while i < 12
            invariant
                i <= 12,
                out@ == nonce@.subrange(0, i as int),
            decreases 12 - i,
        {
            out.push(nonce[i]);
            assert(out@ =~= nonce@.subrange(0, i + 1));
            i = i + 1;
        }
        let n = sealed.len();
        let mut j: usize = 0;
        while j < n
            invariant
                n == sealed@.len(),
                j <= n,
                out@ == nonce@ + sealed@.subrange(0, j as int),
            decreases n - j,
        {
            out.push(sealed[j]);
            assert(out@ =~= nonce@ + sealed@.subrange(0, j + 1));
            j = j + 1;
        }
        assert(sealed@.subrange(0, n as int) =~= sealed@);
        assert(out@.subrange(0, 12) =~= nonce@);
        assert(out@.subrange(12, out@.len() as int) =~= sealed@);
        Ok(out)
    }

    /// Opens a nonce-prefixed sealed text under `key`.
    pub fn decrypt(encrypted: &[u8], key: &EncryptionKey) -> (r: Result<Vec<u8>, KcmError>)
        ensures
            match r {
                Ok(p) => spec_decrypt(key@, encrypted@) == Some(p@),
                Err(e) => spec_decrypt(key@, encrypted@) is None && (e matches KcmError::Corrupted(m) && m@
                    == decrypt_error_text(encrypted@.len())),
            },
    {
        let n = encrypted.len();
        if n < NONCE_SIZE {
            let mut m = String::from_str("Encrypted data too short: ");
            let d = u64_to_decimal(n as u64);
            m.append(d.as_str());
            m.append(" bytes (minimum 12)");
            return Err(KcmError::Corrupted(m));
        }
        let nonce = slice_subrange(encrypted, 0, 12);
        let sealed = slice_subrange(encrypted, 12, n);
        match aes_gcm_open(&key.key, nonce, sealed) {
            Ok(p) => Ok(p),
            Err(e) => {
                let mut m = String::from_str("Decryption failed: ");
                m.append(e.as_str());
                Err(KcmError::Corrupted(m))
            },
        }
    }

    /// Replaces the buffer by its sealing; on failure the buffer is left
    /// empty.
    pub fn encrypt_in_place(buffer: &mut Vec<u8>, key: &EncryptionKey) -> (r: Result<(), KcmError>)
        ensures
            old(buffer)@.len() == 0 ==> r matches Err(KcmError::InvalidArgument(_)),
            old(buffer)@.len() > 0 ==> (r is Ok || r matches Err(KcmError::Io(_))),
            r is Ok ==> spec_decrypt(key@, final(buffer)@) == Some(old(buffer)@)
                && final(buffer)@.len() == NONCE_SIZE + old(buffer)@.len() + 16,
            r is Err ==> final(buffer)@.len() == 0,
    {
        let mut plaintext: Vec<u8> = Vec::new();
        std::mem::swap(buffer, &mut plaintext);
        match Self::encrypt(plaintext.as_slice(), key) {
            Ok(v) => {
                *buffer = v;
                Ok(())
            },
            Err(e) => Err(e),
        }
    }

    /// Replaces the buffer by its opening; on failure the buffer is left
    /// empty.
    pub fn decrypt_in_place(buffer: &mut Vec<u8>, key: &EncryptionKey) -> (r: Result<(), KcmError>)
        ensures
            r is Ok <==> spec_decrypt(key@, old(buffer)@) is Some,
            r is Ok ==> spec_decrypt(key@, old(buffer)@) == Some(final(buffer)@),
            r matches Err(e) ==> (e matches KcmError::Corrupted(m) && m@ == decrypt_error_text(old(buffer)@.len()))
                && final(buffer)@.len() == 0,
    {
        let mut encrypted: Vec<u8> = Vec::new();
        std::mem::swap(buffer, &mut encrypted);
        match Self::decrypt(encrypted.as_slice(), key) {
            Ok(v) => {
                *buffer = v;
                Ok(())
            },
            Err(e) => Err(e),
        }
    }
}

/// A sealed text opens, under the key it was sealed with, to its plaintext.
pub proof fn law_sealed_text_opens(key: Seq<u8>, nonce: Seq<u8>, plaintext: Seq<u8>, sealed: Seq<u8>)
    requires
        nonce.len() == NONCE_SIZE,
        spec_aes_gcm_open(key, nonce, sealed) == Some(plaintext),
    ensures
        spec_decrypt(key, nonce + sealed) == Some(plaintext),
{
    assert((nonce + sealed).subrange(0, 12) =~= nonce);
    assert((nonce + sealed).subrange(12, (nonce + sealed).len() as int) =~= sealed);
}


/// The text of `FromUtf8Error` for bytes that are not UTF-8 (where the
/// invalid sequence starts and how long it is).
pub uninterp spec fn spec_utf8_error_text(bytes: Seq<u8>) -> Seq<char>;

/// Calls `String::from_utf8`: a string exactly when the bytes are UTF-8,
/// holding the characters they encode; otherwise the error's text.
#[verifier::external_body]
fn string_from_utf8(bytes: Vec<u8>) -> (r: Result<String, String>)
    ensures
        r is Ok <==> valid_utf8(bytes@),
        r matches Ok(s) ==> s@ == decode_utf8(bytes@),
        r matches Err(t) ==> t@ == spec_utf8_error_text(bytes@),
{
    match String::from_utf8(bytes) {
        Ok(s) => Ok(s),
        Err(e) => Err(e.to_string()),
    }
}

/// A key of the store, sealed under the master key.
#[derive(Clone, Debug)]
pub struct KeyEntry {
    pub name: String,
    pub encrypted_key: Vec<u8>,
    pub created_at: i64,
    pub rotated_at: Option<i64>,
    pub version: u32,
}

/// An entry as plain values: sealed key, creation time, rotation time,
/// version.
pub open spec fn entry_view(e: KeyEntry) -> (Seq<u8>, i64, Option<i64>, u32) {
    (e.encrypted_key@, e.created_at, e.rotated_at, e.version)
}

/// The first four bytes of a saved store: "KSK1".
pub open spec fn keystore_magic() -> Seq<u8> {
    seq![0x4Bu8, 0x53u8, 0x4Bu8, 0x31u8]
}

/// The bytes of one saved entry: name length and name, sealed-key length
/// and sealed key, creation time, rotation time (0 for none), version.
pub open spec fn entry_bytes(e: KeyEntry) -> Seq<u8> {
    spec_u32_to_le_bytes(encode_utf8(e.name@).len() as u32) + encode_utf8(e.name@) + spec_u32_to_le_bytes(
        e.encrypted_key@.len() as u32,
    ) + e.encrypted_key@ + i64_le(e.created_at) + i64_le(
        match e.rotated_at {
            Some(t) => t,
            None => 0,
        },
    ) + spec_u32_to_le_bytes(e.version)
}

pub open spec fn entries_bytes(es: Seq<KeyEntry>) -> Seq<u8>
    decreases es.len(),
{
    if es.len() == 0 {
        Seq::empty()
    } else {
        entries_bytes(es.drop_last()) + entry_bytes(es.last())
    }
}

/// The bytes of a saved store.
pub open spec fn store_bytes(es: Seq<KeyEntry>) -> Seq<u8> {
    keystore_magic() + spec_u32_to_le_bytes(es.len() as u32) + entries_bytes(es)
}

pub open spec fn u32_at(d: Seq<u8>, off: int) -> u32 {
    spec_u32_from_le_bytes(d.subrange(off, off + 4))
}

pub open spec fn i64_at(d: Seq<u8>, off: int) -> i64 {
    i64_from_le(d.subrange(off, off + 8))
}

/// The entry saved at `off`, with the offset after it, if it is whole.
pub open spec fn parse_key_entry(d: Seq<u8>, off: int) -> Option<((Seq<char>, (Seq<u8>, i64, Option<i64>, u32)), int)> {
    if off + 4 > d.len() {
        None
    } else {
        let o1 = off + 4;
        let o2 = o1 + u32_at(d, off) as int;
        if o2 > d.len() || !valid_utf8(d.subrange(o1, o2)) || o2 + 4 > d.len() {
            None
        } else {
            let o3 = o2 + 4;
            let o4 = o3 + u32_at(d, o2) as int;
            if o4 + 20 > d.len() {
                None
            } else {
                let raw = i64_at(d, o4 + 8);
                Some(
                    (
                        (
                            decode_utf8(d.subrange(o1, o2)),
                            (d.subrange(o3, o4), i64_at(d, o4), if raw == 0 { None } else { Some(raw) }, u32_at(d, o4 + 16)),
                        ),
                        o4 + 20,
                    ),
                )
            }
        }
    }
}

/// The `count` entries saved from `off` on, if they are whole.
pub open spec fn parse_key_entries(d: Seq<u8>, off: int, count: nat) -> Option<Seq<(Seq<char>, (Seq<u8>, i64, Option<i64>, u32))>>
    decreases count,
{
    if count == 0 {
        Some(Seq::empty())
    } else {
        match parse_key_entry(d, off) {
            None => None,
            Some((e, next)) => match parse_key_entries(d, next, (count - 1) as nat) {
                None => None,
                Some(rest) => Some(seq![e] + rest),
            },
        }
    }
}

/// The entries of a saved store, in file order, if it is well formed.
pub open spec fn parse_keystore(d: Seq<u8>) -> Option<Seq<(Seq<char>, (Seq<u8>, i64, Option<i64>, u32))>> {
    if d.len() < 8 || d.subrange(0, 4) != keystore_magic() {
        None
    } else {
        parse_key_entries(d, 8, u32_at(d, 4) as nat)
    }
}

/// Keys sealed under a master key, by name.
pub struct EncryptedKeyStore {
    keys: Vec<KeyEntry>,
    master_key: EncryptionKey,
}

impl EncryptedKeyStore {
    pub closed spec fn key_pairs(&self) -> Seq<(Seq<char>, (Seq<u8>, i64, Option<i64>, u32))> {
        self.keys@.map_values(|e: KeyEntry| (e.name@, entry_view(e)))
    }

    /// Each key name with its entry.
    pub open spec fn keys_view(&self) -> Map<Seq<char>, (Seq<u8>, i64, Option<i64>, u32)> {
        assoc_map(self.key_pairs())
    }

    /// The entries in the order they are saved.
    pub closed spec fn entries(&self) -> Seq<KeyEntry> {
        self.keys@
    }

    pub closed spec fn master(&self) -> Seq<u8> {
        self.master_key@
    }

    /// No name occurs twice.
    pub closed spec fn wf(&self) -> bool {
        keys_unique(self.key_pairs())
    }

    pub fn new(master_key: EncryptionKey) -> (r: EncryptedKeyStore)
        ensures
            r.wf(),
            r.keys_view() == Map::<Seq<char>, (Seq<u8>, i64, Option<i64>, u32)>::empty(),
            r.master() == master_key@,
    {
        let r = EncryptedKeyStore { keys: Vec::new(), master_key };
        assert(r.key_pairs() =~= Seq::empty());
        r
    }

    fn find_key(&self, name: &str) -> (r: Option<usize>)
        requires
            self.wf(),
        ensures
            r matches Some(i) ==> i < self.keys@.len() && self.keys@[i as int].name@ == name@
                && self.keys_view().contains_key(name@) && self.keys_view()[name@] == entry_view(self.keys@[i as int]),
            r is None ==> !self.keys_view().contains_key(name@)
                && forall|k: int| 0 <= k < self.keys@.len() ==> (#[trigger] self.keys@[k]).name@ != name@,
    {
        let mut i: usize = 0;
        while i < self.keys.len()
            invariant
                self.wf(),
                i <= self.keys@.len(),
                forall|k: int| 0 <= k < i ==> (#[trigger] self.keys@[k]).name@ != name@,
            decreases self.keys@.len() - i,
        {
            if crate::rbac::str_eq(self.keys[i].name.as_str(), name) {
                proof {
                    lemma_assoc_index(self.key_pairs(), i as int);
                }
                return Some(i);
            }
            i = i + 1;
        }
        proof {
            assert forall|k: int| 0 <= k < self.key_pairs().len() implies #[trigger] self.key_pairs()[k].0 != name@ by {
                assert(self.keys@[k].name@ != name@);
            }
            lemma_assoc_absent(self.key_pairs(), name@);
        }
        None
    }

    /// Stores the entry under its name, replacing any entry of that name.
    fn put_entry(&mut self, entry: KeyEntry)
        requires
            old(self).wf(),
        ensures
            final(self).wf(),
            final(self).keys_view() == old(self).keys_view().insert(entry.name@, entry_view(entry)),
            final(self).master() == old(self).master(),
    {
        let ghost old_pairs = self.key_pairs();
        let ghost old_keys = self.keys@;
        let ghost ev = entry;
        match self.find_key(entry.name.as_str()) {
            Some(i) => {
                self.keys.set(i, entry);
                proof {
                    lemma_assoc_update(old_pairs, i as int, entry_view(ev));
                    assert(self.key_pairs() =~= old_pairs.update(i as int, (old_pairs[i as int].0, entry_view(ev))));
                }
            },
            None => {
                proof {
                    assert forall|k: int| 0 <= k < old_pairs.len() implies #[trigger] old_pairs[k].0 != ev.name@ by {
                        assert(old_keys[k].name@ != ev.name@);
                    }
                    lemma_assoc_push(old_pairs, ev.name@, entry_view(ev));
                }
                self.keys.push(entry);
                assert(self.key_pairs() =~= old_pairs.push((ev.name@, entry_view(ev))));
            },
        }
    }

    /// Draws a fresh key, seals it under the master key and stores it as
    /// version 1 under `name` (at most 256 bytes), replacing any key of
    /// that name.
    pub fn generate_key(&mut self, name: &str) -> (r: Result<(), KcmError>)
        requires
            old(self).wf(),
        ensures
            final(self).wf(),
            final(self).master() == old(self).master(),
            name.len() > MAX_KEY_NAME_LENGTH ==> r matches Err(KcmError::InvalidArgument(_)),
            name.len() <= MAX_KEY_NAME_LENGTH ==> (r is Ok || r matches Err(KcmError::Io(_))),
            r matches Err(e) ==> (e is InvalidArgument || e is Io) && final(self).keys_view() == old(self).keys_view(),
            r is Ok ==> name.len() <= MAX_KEY_NAME_LENGTH
                && final(self).keys_view() == old(self).keys_view().insert(name@, final(self).keys_view()[name@])
                && final(self).keys_view()[name@].2 is None && final(self).keys_view()[name@].3 == 1
                && (exists|k: Seq<u8>| k.len() == KEY_SIZE && #[trigger] spec_decrypt(old(self).master(), final(self).keys_view()[name@].0) == Some(k)),
    {
        if name.len() > MAX_KEY_NAME_LENGTH {
            return Err(KcmError::InvalidArgument(String::from_str("Key name cannot exceed 256 characters")));
        }
        let key = EncryptionKey::random()?;
        let nonce = match os_random_nonce() {
            Ok(n) => n,
            Err(_) => return Err(KcmError::Io(String::from_str("CSPRNG failure"))),
        };
        let now = unix_time_secs() as i64;
        let r = self.generate_key_with(name, &key.key, &nonce, now);
        proof {
            if r is Ok {
                let v = self.keys_view()[name@].0;
                assert(spec_decrypt(old(self).master(), v) == Some(key.key@));
                assert(key.key@.len() == KEY_SIZE);
            }
        }
        r
    }

    /// Seals `key` under the master key with `nonce` and stores it as
    /// version 1 under `name` (at most 256 bytes), created at `created_at`.
    pub fn generate_key_with(&mut self, name: &str, key: &[u8; 32], nonce: &[u8; 12], created_at: i64) -> (r: Result<
        (),
        KcmError,
    >)
        requires
            old(self).wf(),
        ensures
            final(self).wf(),
            final(self).master() == old(self).master(),
            r is Ok <==> name.len() <= MAX_KEY_NAME_LENGTH,
            r matches Err(e) ==> e is InvalidArgument && final(self).keys_view() == old(self).keys_view(),
            r is Ok ==> spec_aes_gcm_seal(old(self).master(), nonce@, key@) is Some && final(self).keys_view()
                == old(self).keys_view().insert(
                name@,
                (nonce@ + spec_aes_gcm_seal(old(self).master(), nonce@, key@).unwrap(), created_at, None, 1u32),
            ),
            r is Ok ==> spec_decrypt(old(self).master(), final(self).keys_view()[name@].0) == Some(key@),
    {
        if name.len() > MAX_KEY_NAME_LENGTH {
            return Err(KcmError::InvalidArgument(String::from_str("Key name cannot exceed 256 characters")));
        }
        let sealed = EncryptedStorage::encrypt_with_nonce(key, &self.master_key, nonce);
        let encrypted = match sealed {
            Ok(v) => v,
            Err(e) => return Err(e),
        };
        proof {
            assert(encrypted@ =~= nonce@ + encrypted@.subrange(12, encrypted@.len() as int));
        }
        let entry = KeyEntry { name: String::from_str(name), encrypted_key: encrypted, created_at, rotated_at: None, version: 1 };
        self.put_entry(entry);
        Ok(())
    }

    /// Opens the named key under the master key.
    pub fn get_key(&self, name: &str) -> (r: Result<EncryptionKey, KcmError>)
        requires
            self.wf(),
        ensures
            !self.keys_view().contains_key(name@) ==> r matches Err(KcmError::NotFound(_)),
            self.keys_view().contains_key(name@) ==> match spec_decrypt(self.master(), self.keys_view()[name@].0) {
                Some(k) => if k.len() == KEY_SIZE {
                    r matches Ok(key) && key@ == k
                } else {
                    r matches Err(KcmError::Corrupted(_))
                },
                None => r matches Err(KcmError::Corrupted(_)),
            },
    {
        let i = match self.find_key(name) {
            Some(i) => i,
            None => return Err(KcmError::NotFound(String::from_str("Key not found"))),
        };
        let decrypted = EncryptedStorage::decrypt(self.keys[i].encrypted_key.as_slice(), &self.master_key)?;
        if decrypted.len() != KEY_SIZE {
            return Err(KcmError::Corrupted(String::from_str("Decrypted key has invalid size")));
        }
        let mut key = [0u8; 32];
        let mut j: usize = 0;
        while j < 32
            invariant
                j <= 32,
                decrypted@.len() == 32,
                key@.len() == 32,
                forall|k: int| 0 <= k < j ==> key@[k] == decrypted@[k],
            decreases 32 - j,
        {
            key[j] = decrypted[j];
            j = j + 1;
        }
        assert(key@ =~= decrypted@);
        Ok(EncryptionKey { key })
    }

    /// Seals a fresh key for an existing name, stamping the rotation time
    /// and raising the version.
    pub fn rotate_key(&mut self, name: &str) -> (r: Result<(), KcmError>)
        requires
            old(self).wf(),
            old(self).keys_view().contains_key(name@) ==> old(self).keys_view()[name@].3 < u32::MAX,
        ensures
            final(self).wf(),
            final(self).master() == old(self).master(),
            !old(self).keys_view().contains_key(name@) ==> r is Err,
            old(self).keys_view().contains_key(name@) ==> (r is Ok || r matches Err(KcmError::Io(_))),
            r matches Err(e) ==> (e is NotFound || e is Io) && final(self).keys_view() == old(self).keys_view(),
            r is Ok ==> old(self).keys_view().contains_key(name@) && ({
                let before = old(self).keys_view()[name@];
                let after = final(self).keys_view()[name@];
                &&& final(self).keys_view() == old(self).keys_view().insert(name@, after)
                &&& after.1 == before.1
                &&& after.2 is Some
                &&& after.3 == before.3 + 1
                &&& exists|k: Seq<u8>| k.len() == KEY_SIZE && #[trigger] spec_decrypt(old(self).master(), after.0) == Some(k)
            }),
    {
        let key = EncryptionKey::random()?;
        let nonce = match os_random_nonce() {
            Ok(n) => n,
            Err(_) => return Err(KcmError::Io(String::from_str("CSPRNG failure"))),
        };
        let now = unix_time_secs() as i64;
        let r = self.rotate_key_with(name, &key.key, &nonce, now);
        proof {
            if r is Ok {
                let v = self.keys_view()[name@].0;
                assert(spec_decrypt(old(self).master(), v) == Some(key.key@));
                assert(key.key@.len() == KEY_SIZE);
            }
        }
        r
    }

    /// Seals `key` with `nonce` for an existing name, stamping `rotated_at`
    /// and raising the version.
    pub fn rotate_key_with(&mut self, name: &str, key: &[u8; 32], nonce: &[u8; 12], rotated_at: i64) -> (r: Result<
        (),
        KcmError,
    >)
        requires
            old(self).wf(),
            old(self).keys_view().contains_key(name@) ==> old(self).keys_view()[name@].3 < u32::MAX,
        ensures
            final(self).wf(),
            final(self).master() == old(self).master(),
            r is Ok <==> old(self).keys_view().contains_key(name@),
            r matches Err(e) ==> e is NotFound && final(self).keys_view() == old(self).keys_view(),
            r is Ok ==> spec_aes_gcm_seal(old(self).master(), nonce@, key@) is Some && final(self).keys_view()
                == old(self).keys_view().insert(
                name@,
                (
                    nonce@ + spec_aes_gcm_seal(old(self).master(), nonce@, key@).unwrap(),
                    old(self).keys_view()[name@].1,
                    Some(rotated_at),
                    (old(self).keys_view()[name@].3 + 1) as u32,
                ),
            ),
            r is Ok ==> spec_decrypt(old(self).master(), final(self).keys_view()[name@].0) == Some(key@),
    {
        let sealed = EncryptedStorage::encrypt_with_nonce(key, &self.master_key, nonce);
        let encrypted = match sealed {
            Ok(v) => v,
            Err(e) => return Err(e),
        };
        let i = match self.find_key(name) {
            Some(i) => i,
            None => return Err(KcmError::NotFound(String::from_str("Key not found"))),
        };
        proof {
            assert(encrypted@ =~= nonce@ + encrypted@.subrange(12, encrypted@.len() as int));
        }
        let entry = KeyEntry {
            name: String::from_str(name),
            encrypted_key: encrypted,
            created_at: self.keys[i].created_at,
            rotated_at: Some(rotated_at),
            version: self.keys[i].version + 1,
        };
        self.put_entry(entry);
        Ok(())
    }

    /// Removes the named key.
    pub fn delete_key(&mut self, name: &str) -> (r: Result<(), KcmError>)
        requires
            old(self).wf(),
        ensures
            final(self).wf(),
            final(self).master() == old(self).master(),
            r is Ok <==> old(self).keys_view().contains_key(name@),
            r matches Err(e) ==> e is NotFound,
            final(self).keys_view() == old(self).keys_view().remove(name@),
    {
        let i = match self.find_key(name) {
            Some(i) => i,
            None => {
                assert(self.keys_view().remove(name@) =~= self.keys_view());
                return Err(KcmError::NotFound(String::from_str("Key not found")));
            },
        };
        let ghost old_pairs = self.key_pairs();
        self.keys.remove(i);
        proof {
            assert(self.key_pairs() =~= old_pairs.remove(i as int));
            lemma_assoc_remove(old_pairs, i as int);
        }
        Ok(())
    }

    /// The key names, each once, in no particular order.
    pub fn list_keys(&self) -> (r: Vec<String>)
        requires
            self.wf(),
        ensures
            r@.map_values(|s: String| s@).to_set() == self.keys_view().dom(),
            r@.map_values(|s: String| s@).no_duplicates(),
    {
        let mut out: Vec<String> = Vec::new();
        let mut i: usize = 0;
        while i < self.keys.len()
            invariant
                self.wf(),
                i <= self.keys@.len(),
                out@.map_values(|s: String| s@) == self.key_pairs().subrange(0, i as int).map_values(
                    |p: (Seq<char>, (Seq<u8>, i64, Option<i64>, u32))| p.0,
                ),
            decreases self.keys@.len() - i,
        {
            let ghost before = out@;
            out.push(self.keys[i].name.clone());
            proof {
                let pairs = self.key_pairs();
                assert(out@ == before.push(self.keys@[i as int].name));
                assert(out@.map_values(|s: String| s@) =~= before.map_values(|s: String| s@).push(self.keys@[i as int].name@));
                assert(pairs.subrange(0, i + 1) =~= pairs.subrange(0, i as int).push(pairs[i as int]));
                assert(pairs.subrange(0, i + 1).map_values(|p: (Seq<char>, (Seq<u8>, i64, Option<i64>, u32))| p.0)
                    =~= pairs.subrange(0, i as int).map_values(|p: (Seq<char>, (Seq<u8>, i64, Option<i64>, u32))| p.0).push(pairs[i as int].0));
            }
            i = i + 1;
        }
        proof {
            let names = out@.map_values(|s: String| s@);
            let pairs = self.key_pairs();
            assert(pairs.subrange(0, pairs.len() as int) =~= pairs);
            assert forall|a: int, b: int| 0 <= a < names.len() && 0 <= b < names.len() && a != b implies names[a] != names[b] by {
                assert(names[a] == pairs[a].0 && names[b] == pairs[b].0);
            }
            assert forall|x: Seq<char>| #[trigger] names.to_set().contains(x) <==> self.keys_view().dom().contains(x) by {
                if names.contains(x) {
                    let a = choose|a: int| 0 <= a < names.len() && names[a] == x;
                    assert(pairs[a].0 == x);
                    lemma_assoc_index(pairs, a);
                }
                if self.keys_view().dom().contains(x) {
                    crate::assoc::lemma_assoc_dom(pairs, x);
                    let a = choose|a: int| 0 <= a < pairs.len() && #[trigger] pairs[a].0 == x;
                    assert(names[a] == x);
                }
            }
            assert(names.to_set() =~= self.keys_view().dom());
        }
        out
    }

    pub fn key_exists(&self, name: &str) -> (r: bool)
        requires
            self.wf(),
        ensures
            r == self.keys_view().contains_key(name@),
    {
        self.find_key(name).is_some()
    }

    /// The bytes `save` writes: magic, entry count, then each entry in
    /// store order.
    pub fn serialize(&self) -> (r: Vec<u8>)
        ensures
            r@ == store_bytes(self.entries()),
    {
        let mut data: Vec<u8> = Vec::new();
        data.push(0x4Bu8);
        data.push(0x53u8);
        data.push(0x4Bu8);
        data.push(0x31u8);
        push_u32(&mut data, self.keys.len() as u32);
        let ghost head = keystore_magic() + spec_u32_to_le_bytes(self.keys@.len() as u32);
        assert(data@ =~= head + entries_bytes(self.keys@.subrange(0, 0)));
        let mut i: usize = 0;
        while i < self.keys.len()
            invariant
                i <= self.keys@.len(),
                head == keystore_magic() + spec_u32_to_le_bytes(self.keys@.len() as u32),
                data@ == head + entries_bytes(self.keys@.subrange(0, i as int)),
            decreases self.keys@.len() - i,
        {
            let e = &self.keys[i];
            let ghost before = data@;
            let nb = e.name.as_str().as_bytes();
            push_u32(&mut data, nb.len() as u32);
            push_bytes(&mut data, nb);
            push_u32(&mut data, e.encrypted_key.len() as u32);
            push_bytes(&mut data, e.encrypted_key.as_slice());
            push_i64(&mut data, e.created_at);
            let rot = match e.rotated_at {
                Some(t) => t,
                None => 0,
            };
            push_i64(&mut data, rot);
            push_u32(&mut data, e.version);
            proof {
                let es = self.keys@.subrange(0, i + 1);
                assert(es.drop_last() =~= self.keys@.subrange(0, i as int));
                assert(es.last() == self.keys@[i as int]);
                assert(data@ =~= before + entry_bytes(*e));
                assert(data@ =~= head + entries_bytes(es));
            }
            i = i + 1;
        }
        assert(self.keys@.subrange(0, self.keys@.len() as int) =~= self.keys@);
        data
    }

    /// Reads a saved store (what `load` reads from its file), keeping the
    /// last entry of each name.
    pub fn parse(data: &[u8], master_key: EncryptionKey) -> (r: Result<EncryptedKeyStore, KcmError>)
        ensures
            r is Ok <==> parse_keystore(data@) is Some,
            r matches Err(e) ==> e is Corrupted,
            r matches Ok(st) ==> st.wf() && st.master() == master_key@ && st.keys_view() == assoc_map(
                parse_keystore(data@).unwrap(),
            ),
    {
        let n = data.len();
        if n < 8 {
            return Err(KcmError::Corrupted(String::from_str("Keystore file too small")));
        }
        if !(data[0] == 0x4Bu8 && data[1] == 0x53u8 && data[2] == 0x4Bu8 && data[3] == 0x31u8) {
            assert(data@.subrange(0, 4) != keystore_magic()) by {
                assert(data@.subrange(0, 4)[0] == data@[0]);
                assert(data@.subrange(0, 4)[1] == data@[1]);
                assert(data@.subrange(0, 4)[2] == data@[2]);
                assert(data@.subrange(0, 4)[3] == data@[3]);
            }
            return Err(KcmError::Corrupted(String::from_str("Invalid keystore magic")));
        }
        assert(data@.subrange(0, 4) =~= keystore_magic());
        let count = read_u32(data, 4);
        let ghost d = data@;
        let mut store = EncryptedKeyStore::new(master_key);
        let ghost mut prefix: Seq<(Seq<char>, (Seq<u8>, i64, Option<i64>, u32))> = Seq::empty();
        let mut off: usize = 8;
        let mut i: u32 = 0;
        assert(prefix + Seq::<(Seq<char>, (Seq<u8>, i64, Option<i64>, u32))>::empty() =~= prefix);
        while i < count
            invariant
                d == data@,
                n == d.len(),
                8 <= off <= n,
                i <= count,
                count == u32_at(d, 4),
                store.wf(),
                store.master() == master_key@,
                store.keys_view() == assoc_map(prefix),
                parse_key_entries(d, 8, count as nat) == (match parse_key_entries(d, off as int, (count - i) as nat) {
                    Some(rest) => Some(prefix + rest),
                    None => None,
                }),
            decreases count - i,
        {
            let ghost c = (count - i) as nat;
            if n - off < 4 {
                return Err(KcmError::Corrupted(String::from_str("Truncated keystore entry")));
            }
            let name_len = read_u32(data, off) as usize;
            let o1 = off + 4;
            if name_len > n - o1 {
                return Err(KcmError::Corrupted(String::from_str("Truncated key name")));
            }
            let o2 = o1 + name_len;
            let name_bytes = copy_range(data, o1, o2);
            let name = match string_from_utf8(name_bytes) {
                Ok(s) => s,
                Err(t) => {
                    let mut m = String::from_str("Invalid key name UTF-8: ");
                    m.append(t.as_str());
                    return Err(KcmError::Corrupted(m));
                },
            };
            if n - o2 < 4 {
                return Err(KcmError::Corrupted(String::from_str("Truncated key data length")));
            }
            let key_len = read_u32(data, o2) as usize;
            let o3 = o2 + 4;
            if key_len > n - o3 {
                return Err(KcmError::Corrupted(String::from_str("Truncated key data")));
            }
            let o4 = o3 + key_len;
            let encrypted_key = copy_range(data, o3, o4);
            if n - o4 < 20 {
                return Err(KcmError::Corrupted(String::from_str("Truncated key metadata")));
            }
            let created_at = read_i64(data, o4);
            let raw = read_i64(data, o4 + 8);
            let version = read_u32(data, o4 + 16);
            let rotated_at = if raw == 0 {
                None
            } else {
                Some(raw)
            };
            let entry = KeyEntry { name, encrypted_key, created_at, rotated_at, version };
            let ghost item = (entry.name@, entry_view(entry));
            proof {
                assert(parse_key_entry(d, off as int) == Some((item, o4 + 20)));
                let rest = parse_key_entries(d, (o4 + 20) as int, (c - 1) as nat);
                assert(parse_key_entries(d, off as int, c) == match rest {
                    Some(r2) => Some(seq![item] + r2),
                    None => None,
                });
                if let Some(r2) = rest {
                    assert(prefix + (seq![item] + r2) =~= prefix.push(item) + r2);
                }
                assert(prefix.push(item).drop_last() =~= prefix);
            }
            store.put_entry(entry);
            proof {
                prefix = prefix.push(item);
            }
            off = o4 + 20;
            i = i + 1;
        }
        assert(prefix + Seq::<(Seq<char>, (Seq<u8>, i64, Option<i64>, u32))>::empty() =~= prefix);
        Ok(store)
    }
}


/// An entry survives saving and loading unchanged when its lengths fit in
/// 32 bits and its rotation time, if any, is not 0.
pub open spec fn entry_saveable(e: KeyEntry) -> bool {
    encode_utf8(e.name@).len() <= u32::MAX && e.encrypted_key@.len() <= u32::MAX && e.rotated_at != Some(0i64)
}

/// The (name, entry) pairs of a sequence of entries.
pub open spec fn entry_pairs(es: Seq<KeyEntry>) -> Seq<(Seq<char>, (Seq<u8>, i64, Option<i64>, u32))> {
    es.map_values(|e: KeyEntry| (e.name@, entry_view(e)))
}

proof fn lemma_entries_bytes_front(es: Seq<KeyEntry>)
    requires
        es.len() > 0,
    ensures
        entries_bytes(es) == entry_bytes(es[0]) + entries_bytes(es.drop_first()),
    decreases es.len(),
{
    if es.len() == 1 {
        assert(es.drop_last() =~= Seq::<KeyEntry>::empty());
        assert(es.drop_first() =~= Seq::<KeyEntry>::empty());
        assert(entries_bytes(es) =~= entry_bytes(es[0]) + entries_bytes(es.drop_first()));
    } else {
        lemma_entries_bytes_front(es.drop_last());
        assert(es.drop_last().drop_first() =~= es.drop_first().drop_last());
        assert(es.drop_first().last() == es.last());
        assert(entries_bytes(es) =~= entry_bytes(es[0]) + entries_bytes(es.drop_first()));
    }
}

proof fn lemma_parse_entry_bytes(d: Seq<u8>, off: int, e: KeyEntry)
    requires
        entry_saveable(e),
        0 <= off,
        off + entry_bytes(e).len() <= d.len(),
        d.subrange(off, off + entry_bytes(e).len()) == entry_bytes(e),
    ensures
        parse_key_entry(d, off) == Some(((e.name@, entry_view(e)), off + entry_bytes(e).len())),
{
    lemma_le_roundtrips();
    encode_utf8_valid_utf8(e.name@);
    encode_utf8_decode_utf8(e.name@);
    let w = entry_bytes(e);
    let nb = encode_utf8(e.name@);
    let nl = nb.len() as int;
    let key = e.encrypted_key@;
    let kl = key.len() as int;
    let rot = match e.rotated_at {
        Some(t) => t,
        None => 0,
    };
    assert(spec_u32_to_le_bytes(nl as u32).len() == 4);
    assert((nl as u32) as int == nl);
    assert((kl as u32) as int == kl);
    assert(w.subrange(0, 4) =~= spec_u32_to_le_bytes(nl as u32));
    assert(w.subrange(4, 4 + nl) =~= nb);
    assert(w.subrange(4 + nl, 8 + nl) =~= spec_u32_to_le_bytes(kl as u32));
    assert(w.subrange(8 + nl, 8 + nl + kl) =~= key);
    assert(w.subrange(8 + nl + kl, 16 + nl + kl) =~= i64_le(e.created_at));
    assert(w.subrange(16 + nl + kl, 24 + nl + kl) =~= i64_le(rot));
    assert(w.subrange(24 + nl + kl, 28 + nl + kl) =~= spec_u32_to_le_bytes(e.version));
    lemma_window(d, off, w, 0, 4);
    lemma_window(d, off, w, 4, 4 + nl);
    lemma_window(d, off, w, 4 + nl, 8 + nl);
    lemma_window(d, off, w, 8 + nl, 8 + nl + kl);
    lemma_window(d, off, w, 8 + nl + kl, 16 + nl + kl);
    lemma_window(d, off, w, 16 + nl + kl, 24 + nl + kl);
    lemma_window(d, off, w, 24 + nl + kl, 28 + nl + kl);
}

proof fn lemma_parse_entries_bytes(d: Seq<u8>, off: int, es: Seq<KeyEntry>)
    requires
        forall|i: int| 0 <= i < es.len() ==> entry_saveable(#[trigger] es[i]),
        0 <= off,
        off + entries_bytes(es).len() <= d.len(),
        d.subrange(off, off + entries_bytes(es).len()) == entries_bytes(es),
    ensures
        parse_key_entries(d, off, es.len()) == Some(entry_pairs(es)),
    decreases es.len(),
{
    if es.len() == 0 {
        assert(entry_pairs(es) =~= Seq::empty());
    } else {
        lemma_entries_bytes_front(es);
        let w = entries_bytes(es);
        let first = entry_bytes(es[0]);
        let rest = es.drop_first();
        assert(entry_saveable(es[0]));
        lemma_window(d, off, w, 0, first.len() as int);
        assert(w.subrange(0, first.len() as int) =~= first);
        lemma_parse_entry_bytes(d, off, es[0]);
        lemma_window(d, off, w, first.len() as int, w.len() as int);
        assert(w.subrange(first.len() as int, w.len() as int) =~= entries_bytes(rest));
        assert forall|i: int| 0 <= i < rest.len() implies entry_saveable(#[trigger] rest[i]) by {
            assert(rest[i] == es[i + 1]);
        }
        lemma_parse_entries_bytes(d, off + first.len(), rest);
        assert(entry_pairs(es) =~= seq![(es[0].name@, entry_view(es[0]))] + entry_pairs(rest));
    }
}

/// What `serialize` writes, `parse` reads back: the same entries, in order,
/// as long as every entry is saveable and their number fits in 32 bits.
pub proof fn law_keystore_roundtrip(es: Seq<KeyEntry>)
    requires
        es.len() <= u32::MAX,
        forall|i: int| 0 <= i < es.len() ==> entry_saveable(#[trigger] es[i]),
    ensures
        parse_keystore(store_bytes(es)) == Some(entry_pairs(es)),
{
    lemma_le_roundtrips();
    let d = store_bytes(es);
    let w = entries_bytes(es);
    assert(d.subrange(0, 4) =~= keystore_magic());
    assert(d.subrange(4, 8) =~= spec_u32_to_le_bytes(es.len() as u32));
    assert(d.subrange(8, 8 + w.len() as int) =~= w);
    lemma_parse_entries_bytes(d, 8, es);
}

/// A saved store of saveable entries loads with the same keys.
pub proof fn law_store_roundtrip(st: EncryptedKeyStore)
    requires
        st.entries().len() <= u32::MAX,
        forall|i: int| 0 <= i < st.entries().len() ==> entry_saveable(#[trigger] st.entries()[i]),
    ensures
        parse_keystore(store_bytes(st.entries())) is Some,
        assoc_map(parse_keystore(store_bytes(st.entries())).unwrap()) == st.keys_view(),
{
    law_keystore_roundtrip(st.entries());
    assert(entry_pairs(st.entries()) =~= st.key_pairs());
}

} // verus!
