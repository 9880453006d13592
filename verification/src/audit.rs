//! A bounded, hash-chained audit trail: each event carries the BLAKE3 hash
//! of its predecessor's hash and of its own fields.
use crate::fmt::{i64_to_decimal, lemma_ascii_str_len, lemma_decimal_ascii, lemma_decimal_u64_len, spec_decimal, spec_decimal_i64, u64_to_decimal};
use crate::hash::{hash_blake3, spec_blake3};
use crate::logging::unix_time_secs;
use crate::types::KcmError;
use std::collections::VecDeque;
use vstd::prelude::*;
use vstd::string::*;
use vstd::utf8::{encode_utf8, is_ascii_chars};

verus! {

pub const MAX_EVENTS: usize = 100_000;
pub const MAX_USER_ID_LENGTH: usize = 256;
pub const MAX_CONTEXT_LENGTH: usize = 4096;
pub const MAX_DETAILS_LENGTH: usize = 8192;

#[derive(Clone, Copy, Debug, PartialEq, Eq, Structural)]
pub enum AuditEventType {
    QueryExecuted,
    FactInserted,
    FactDeleted,
    RuleExecuted,
    PermissionDenied,
    EncryptionOperation,
    KeyDerivation,
    AccessControlCheck,
}

/// The snake-case name of an event type.
pub open spec fn event_type_name(t: AuditEventType) -> Seq<char> {
    match t {
        AuditEventType::QueryExecuted => "query_executed"@,
        AuditEventType::FactInserted => "fact_inserted"@,
        AuditEventType::FactDeleted => "fact_deleted"@,
        AuditEventType::RuleExecuted => "rule_executed"@,
        AuditEventType::PermissionDenied => "permission_denied"@,
        AuditEventType::EncryptionOperation => "encryption_operation"@,
        AuditEventType::KeyDerivation => "key_derivation"@,
        AuditEventType::AccessControlCheck => "access_control_check"@,
    }
}

/// The variant name of an event type, as hashed into events.
pub open spec fn variant_name(t: AuditEventType) -> Seq<char> {
    match t {
        AuditEventType::QueryExecuted => "QueryExecuted"@,
        AuditEventType::FactInserted => "FactInserted"@,
        AuditEventType::FactDeleted => "FactDeleted"@,
        AuditEventType::RuleExecuted => "RuleExecuted"@,
        AuditEventType::PermissionDenied => "PermissionDenied"@,
        AuditEventType::EncryptionOperation => "EncryptionOperation"@,
        AuditEventType::KeyDerivation => "KeyDerivation"@,
        AuditEventType::AccessControlCheck => "AccessControlCheck"@,
    }
}

impl AuditEventType {
    pub fn name(&self) -> (r: &'static str)
        ensures
            r@ == event_type_name(*self),
    {
        match self {
            AuditEventType::QueryExecuted => "query_executed",
            AuditEventType::FactInserted => "fact_inserted",
            AuditEventType::FactDeleted => "fact_deleted",
            AuditEventType::RuleExecuted => "rule_executed",
            AuditEventType::PermissionDenied => "permission_denied",
            AuditEventType::EncryptionOperation => "encryption_operation",
            AuditEventType::KeyDerivation => "key_derivation",
            AuditEventType::AccessControlCheck => "access_control_check",
        }
    }

    fn variant(&self) -> (r: &'static str)
        ensures
            r@ == variant_name(*self),
    {
        match self {
            AuditEventType::QueryExecuted => "QueryExecuted",
            AuditEventType::FactInserted => "FactInserted",
            AuditEventType::FactDeleted => "FactDeleted",
            AuditEventType::RuleExecuted => "RuleExecuted",
            AuditEventType::PermissionDenied => "PermissionDenied",
            AuditEventType::EncryptionOperation => "EncryptionOperation",
            AuditEventType::KeyDerivation => "KeyDerivation",
            AuditEventType::AccessControlCheck => "AccessControlCheck",
        }
    }
}

#[derive(Clone, Debug)]
pub struct AuditEvent {
    pub event_type: AuditEventType,
    pub user_id: String,
    pub context: String,
    pub timestamp: i64,
    pub details: String,
    pub prev_hash: [u8; 32],
    pub event_hash: [u8; 32],
}

/// An event as plain values: type, user, context, time, details, previous
/// hash, own hash.
pub open spec fn event_view(e: AuditEvent) -> (AuditEventType, Seq<char>, Seq<char>, i64, Seq<char>, Seq<u8>, Seq<u8>) {
    (e.event_type, e.user_id@, e.context@, e.timestamp, e.details@, e.prev_hash@, e.event_hash@)
}

/// The events as plain values.
pub open spec fn events_view(s: Seq<AuditEvent>) -> Seq<(AuditEventType, Seq<char>, Seq<char>, i64, Seq<char>, Seq<u8>, Seq<u8>)> {
    s.map_values(|e: AuditEvent| event_view(e))
}

/// The hash that marks the start of the chain.
pub open spec fn zero_hash() -> Seq<u8> {
    Seq::new(32, |i: int| 0u8)
}

/// The text hashed for an event after its predecessor's hash:
/// `Type|user|context|timestamp|details`.
pub open spec fn event_message(e: AuditEvent) -> Seq<char> {
    variant_name(e.event_type) + "|"@ + e.user_id@ + "|"@ + e.context@ + "|"@ + spec_decimal_i64(e.timestamp) + "|"@
        + e.details@
}

/// The hash an event should carry.
pub open spec fn hash_of(e: AuditEvent) -> Seq<u8> {
    spec_blake3(e.prev_hash@ + encode_utf8(event_message(e)))
}

/// The fields an event is created with.
pub open spec fn event_fields(e: AuditEvent) -> (AuditEventType, Seq<char>, Seq<char>, i64, Seq<char>) {
    (e.event_type, e.user_id@, e.context@, e.timestamp, e.details@)
}

/// A chain is intact when the first event names the anchor `a` (the zero
/// hash until events are dropped), each later event names its
/// predecessor's hash, and every hash is right.
pub open spec fn chain_ok(s: Seq<AuditEvent>, a: Seq<u8>) -> bool {
    &&& s.len() > 0 ==> s[0].prev_hash@ == a
    &&& forall|i: int| 1 <= i < s.len() ==> #[trigger] links_back(s, i)
    &&& forall|i: int| 0 <= i < s.len() ==> #[trigger] hash_right(s, i)
}

/// Event `i` names the hash of event `i - 1`.
pub open spec fn links_back(s: Seq<AuditEvent>, i: int) -> bool {
    s[i].prev_hash@ == s[i - 1].event_hash@
}

/// Event `i` carries the hash of its own contents.
pub open spec fn hash_right(s: Seq<AuditEvent>, i: int) -> bool {
    s[i].event_hash@ == hash_of(s[i])
}

pub open spec fn valid_event_user(u: &str) -> bool {
    u@.len() > 0 && u.len() <= MAX_USER_ID_LENGTH
}

/// Whether an event with these texts can be created.
pub open spec fn valid_event_texts(user_id: &str, context: &str, details: &str) -> bool {
    valid_event_user(user_id) && context.len() <= MAX_CONTEXT_LENGTH && details.len() <= MAX_DETAILS_LENGTH
}

impl AuditEvent {
    /// An event stamped with the current time; its hashes are zero until it
    /// is logged.
    pub fn new(event_type: AuditEventType, user_id: &str, context: &str, details: &str) -> (r: Result<AuditEvent, KcmError>)
        ensures
            r is Ok <==> valid_event_texts(user_id, context, details),
            r matches Err(e) ==> e is InvalidArgument,
            r matches Ok(e) ==> e.event_type == event_type && e.user_id@ == user_id@ && e.context@ == context@
                && e.details@ == details@ && e.prev_hash@ == zero_hash() && e.event_hash@ == zero_hash(),
    {
        let now = Self::now();
        Self::new_at(event_type, user_id, context, details, now)
    }

    /// An event with the given timestamp; its hashes are zero until it is
    /// logged.
    pub fn new_at(event_type: AuditEventType, user_id: &str, context: &str, details: &str, timestamp: i64) -> (r: Result<
        AuditEvent,
        KcmError,
    >)
        ensures
            r is Ok <==> valid_event_texts(user_id, context, details),
            r matches Err(e) ==> e is InvalidArgument,
            r matches Ok(e) ==> e.event_type == event_type && e.user_id@ == user_id@ && e.context@ == context@
                && e.details@ == details@ && e.timestamp == timestamp && e.prev_hash@ == zero_hash()
                && e.event_hash@ == zero_hash(),
    {
        if user_id.is_empty() {
            return Err(KcmError::InvalidArgument(String::from_str("Audit event user_id cannot be empty")));
        }
        if user_id.len() > MAX_USER_ID_LENGTH {
            return Err(KcmError::InvalidArgument(String::from_str("Audit event user_id cannot exceed 256 characters")));
        }
        if context.len() > MAX_CONTEXT_LENGTH {
            return Err(KcmError::InvalidArgument(String::from_str("Audit event context cannot exceed 4096 characters")));
        }
        if details.len() > MAX_DETAILS_LENGTH {
            return Err(KcmError::InvalidArgument(String::from_str("Audit event details cannot exceed 8192 characters")));
        }
        let e = AuditEvent {
            event_type,
            user_id: String::from_str(user_id),
            context: String::from_str(context),
            timestamp,
            details: String::from_str(details),
            prev_hash: [0u8; 32],
            event_hash: [0u8; 32],
        };
        assert(e.prev_hash@ =~= zero_hash());
        Ok(e)
    }

    /// Seconds since the Unix epoch, as the clock gives them.
    fn now() -> i64 {
        unix_time_secs() as i64
    }

    fn message(&self) -> (r: String)
        ensures
            r@ == event_message(*self),
    {
        let mut s = String::from_str(self.event_type.variant());
        s.append("|");
        s.append(self.user_id.as_str());
        s.append("|");
        s.append(self.context.as_str());
        s.append("|");
        let ts = i64_to_decimal(self.timestamp);
        s.append(ts.as_str());
        s.append("|");
        s.append(self.details.as_str());
        s
    }

    /// The BLAKE3 hash of the previous hash followed by the event's text.
    pub fn compute_hash(&self) -> (r: [u8; 32])
        ensures
            r@ == hash_of(*self),
    {
        let msg = self.message();
        let bytes = msg.as_str().as_bytes();
        let mut buf: Vec<u8> = Vec::new();
        let mut i: usize = 0;
        while i < 32
            invariant
                i <= 32,
                buf@ == self.prev_hash@.subrange(0, i as int),
            decreases 32 - i,
        {
            buf.push(self.prev_hash[i]);
            assert(buf@ =~= self.prev_hash@.subrange(0, i + 1));
            i = i + 1;
        }
        let n = bytes.len();
        let mut j: usize = 0;
        while j < n
            invariant
                n == bytes@.len(),
                j <= n,
                buf@ == self.prev_hash@ + bytes@.subrange(0, j as int),
            decreases n - j,
        {
            buf.push(bytes[j]);
            assert(buf@ =~= self.prev_hash@ + bytes@.subrange(0, j + 1));
            j = j + 1;
        }
        assert(bytes@.subrange(0, n as int) =~= bytes@);
        hash_blake3(buf.as_slice())
    }
}

/// A copy of an event, field by field.
fn copy_event(e: &AuditEvent) -> (r: AuditEvent)
    ensures
        event_view(r) == event_view(*e),
{
    AuditEvent {
        event_type: e.event_type,
        user_id: e.user_id.clone(),
        context: e.context.clone(),
        timestamp: e.timestamp,
        details: e.details.clone(),
        prev_hash: e.prev_hash,
        event_hash: e.event_hash,
    }
}

/// The result of logging `e` onto the trail `t` (its events and anchor)
/// with capacity `cap`, giving `u`: the event is appended, linked to the
/// last event (or to the anchor when there is none) and hashed; the oldest
/// events beyond the capacity are dropped and the hash of the last one
/// dropped becomes the anchor; the events kept stay as they were.
pub open spec fn log_step(t: (Seq<AuditEvent>, Seq<u8>), u: (Seq<AuditEvent>, Seq<u8>), e: AuditEvent, cap: nat) -> bool {
    let s = t.0;
    let m = u.0;
    let n = s.len() + 1;
    let k = n - m.len();
    &&& m.len() == (if n > cap { cap } else { n })
    &&& forall|i: int| 0 <= i < m.len() ==> event_fields(#[trigger] m[i]) == (if i + k < s.len() { event_fields(s[i + k]) } else { event_fields(e) })
    &&& forall|i: int| 0 <= i < m.len() && i + k < s.len() ==> #[trigger] m[i] == s[i + k]
    &&& m.len() > 0 ==> m[m.len() - 1].prev_hash@ == (if s.len() > 0 { s[s.len() - 1].event_hash@ } else { t.1 })
    &&& m.len() > 0 ==> hash_right(m, m.len() - 1)
    &&& k == 0 ==> u.1 == t.1
    &&& 0 < k <= s.len() ==> u.1 == s[k - 1].event_hash@
}

/// Whether an event satisfies a filter of `AuditLog`.
pub open spec fn since(ts: i64) -> spec_fn((AuditEventType, Seq<char>, Seq<char>, i64, Seq<char>, Seq<u8>, Seq<u8>)) -> bool {
    |v: (AuditEventType, Seq<char>, Seq<char>, i64, Seq<char>, Seq<u8>, Seq<u8>)| v.3 >= ts
}

pub open spec fn of_type(t: AuditEventType) -> spec_fn((AuditEventType, Seq<char>, Seq<char>, i64, Seq<char>, Seq<u8>, Seq<u8>)) -> bool {
    |v: (AuditEventType, Seq<char>, Seq<char>, i64, Seq<char>, Seq<u8>, Seq<u8>)| v.0 == t
}

pub open spec fn by_user(u: Seq<char>) -> spec_fn((AuditEventType, Seq<char>, Seq<char>, i64, Seq<char>, Seq<u8>, Seq<u8>)) -> bool {
    |v: (AuditEventType, Seq<char>, Seq<char>, i64, Seq<char>, Seq<u8>, Seq<u8>)| v.1 == u
}

/// The audit trail: at most `max_events` events, oldest first, and the
/// anchor the first of them names: the zero hash, or once events were
/// dropped, the hash of the last one dropped.
pub struct AuditLog {
    events: VecDeque<AuditEvent>,
    max_events: usize,
    anchor: [u8; 32],
}

/// Whether `a` and `b` hold the same 32 bytes.
fn hash_eq(a: &[u8; 32], b: &[u8; 32]) -> (r: bool)
    ensures
        r == (a@ == b@),
{
    let mut i: usize = 0;
    while i < 32
        invariant
            i <= 32,
            a@.len() == 32,
            b@.len() == 32,
            forall|k: int| 0 <= k < i ==> a@[k] == b@[k],
        decreases 32 - i,
    {
        if a[i] != b[i] {
            return false;
        }
        i = i + 1;
    }
    assert(a@ =~= b@);
    true
}

impl AuditLog {
    pub closed spec fn spec_events(&self) -> Seq<AuditEvent> {
        self.events@
    }

    pub closed spec fn spec_capacity(&self) -> nat {
        self.max_events as nat
    }

    /// The hash the first event names.
    pub closed spec fn spec_anchor(&self) -> Seq<u8> {
        self.anchor@
    }

    /// The events and the anchor.
    pub open spec fn spec_trail(&self) -> (Seq<AuditEvent>, Seq<u8>) {
        (self.spec_events(), self.spec_anchor())
    }

    /// An empty trail holding up to 100000 events.
    pub fn new() -> (r: AuditLog)
        ensures
            r.spec_events() == Seq::<AuditEvent>::empty(),
            r.spec_capacity() == MAX_EVENTS,
            r.spec_anchor() == zero_hash(),
    {
        let anchor = [0u8; 32];
        assert(anchor@ =~= zero_hash());
        AuditLog { events: VecDeque::new(), max_events: MAX_EVENTS, anchor }
    }

    /// An empty trail holding up to `max_events` events.
    pub fn with_capacity(max_events: usize) -> (r: AuditLog)
        ensures
            r.spec_events() == Seq::<AuditEvent>::empty(),
            r.spec_capacity() == max_events,
            r.spec_anchor() == zero_hash(),
    {
        let anchor = [0u8; 32];
        assert(anchor@ =~= zero_hash());
        AuditLog { events: VecDeque::new(), max_events, anchor }
    }

    /// Links the event to the last one (or to the anchor), appends it, and
    /// drops the oldest events beyond the capacity, keeping the hash of the
    /// last one dropped as the anchor.
    pub fn log(&mut self, event: AuditEvent)
        ensures
            log_step(old(self).spec_trail(), final(self).spec_trail(), event, old(self).spec_capacity()),
            final(self).spec_capacity() == old(self).spec_capacity(),
    {
        let ghost s = self.events@;
        let ghost a = self.anchor@;
        let cap = self.max_events;
        let mut event = event;
        let ghost e0 = event;
        let n = self.events.len();
        if n > 0 {
            event.prev_hash = self.events[n - 1].event_hash;
        } else {
            event.prev_hash = self.anchor;
        }
        event.event_hash = event.compute_hash();
        let ghost linked = event;
        self.events.push_back(event);
        let ghost pushed = self.events@;
        let total = self.events.len();
        assert(pushed == s.push(linked));
        let mut removed: usize = 0;
        while self.events.len() > self.max_events
            invariant
                pushed == s.push(linked),
                pushed.len() == total,
                self.max_events == cap,
                removed <= pushed.len(),
                self.events@ == pushed.subrange(removed as int, pushed.len() as int),
                removed > 0 ==> self.events@.len() >= self.max_events,
                pushed.len() > self.max_events ==> self.events@.len() >= self.max_events,
                removed == 0 ==> self.anchor@ == a,
                removed > 0 ==> self.anchor@ == pushed[removed - 1].event_hash@,
            decreases self.events@.len(),
        {
            assert(self.events@.len() == pushed.len() - removed);
            let front = self.events.pop_front();
            if let Some(f) = front {
                self.anchor = f.event_hash;
            }
            removed = removed + 1;
            assert(self.events@ =~= pushed.subrange(removed as int, pushed.len() as int));
        }
        proof {
            let m = self.events@;
            let k = s.len() + 1 - m.len();
            assert(removed == k);
            assert forall|i: int| 0 <= i < m.len() implies event_fields(#[trigger] m[i]) == (if i + k < s.len() {
                event_fields(s[i + k])
            } else {
                event_fields(e0)
            }) by {
                assert(m[i] == pushed[i + k]);
            }
            assert forall|i: int| 0 <= i < m.len() && i + k < s.len() implies #[trigger] m[i] == s[i + k] by {
                assert(m[i] == pushed[i + k]);
            }
            if m.len() > 0 {
                assert(m[m.len() - 1] == linked);
            }
        }
    }

    fn log_new(&mut self, event_type: AuditEventType, user_id: &str, context: &str, details: &str) -> (r: Result<(), KcmError>)
        ensures
            r is Ok <==> valid_event_texts(user_id, context, details),
            r matches Err(e) ==> e is InvalidArgument,
            r is Ok ==> exists|e: AuditEvent|
                e.event_type == event_type && e.user_id@ == user_id@ && e.context@ == context@ && e.details@ == details@
                    && #[trigger] log_step(old(self).spec_trail(), final(self).spec_trail(), e, old(self).spec_capacity()),
            r is Err ==> final(self).spec_events() == old(self).spec_events(),
            final(self).spec_capacity() == old(self).spec_capacity(),
    {
        let event = AuditEvent::new(event_type, user_id, context, details)?;
        let ghost e = event;
        self.log(event);
        assert(log_step(old(self).spec_trail(), self.spec_trail(), e, old(self).spec_capacity()));
        Ok(())
    }

    /// Records an executed query, the query text as context.
    pub fn log_query(&mut self, user_id: &str, query: &str) -> (r: Result<(), KcmError>)
        ensures
            r is Ok <==> valid_event_texts(user_id, query, "Query executed"),
            r matches Err(e) ==> e is InvalidArgument,
            r is Ok ==> exists|e: AuditEvent|
                e.event_type == AuditEventType::QueryExecuted && e.user_id@ == user_id@ && e.context@ == query@
                    && e.details@ == "Query executed"@
                    && #[trigger] log_step(old(self).spec_trail(), final(self).spec_trail(), e, old(self).spec_capacity()),
            r is Err ==> final(self).spec_events() == old(self).spec_events(),
            final(self).spec_capacity() == old(self).spec_capacity(),
    {
        self.log_new(AuditEventType::QueryExecuted, user_id, query, "Query executed")
    }

    /// Records an inserted fact, with context `row_id=<id>`.
    pub fn log_insert(&mut self, user_id: &str, row_id: u64) -> (r: Result<(), KcmError>)
        ensures
            r is Ok <==> valid_event_user(user_id),
            r matches Err(e) ==> e is InvalidArgument,
            r is Ok ==> exists|e: AuditEvent|
                e.event_type == AuditEventType::FactInserted && e.user_id@ == user_id@
                    && e.context@ == "row_id="@ + spec_decimal(row_id as nat) && e.details@ == "Fact inserted"@
                    && #[trigger] log_step(old(self).spec_trail(), final(self).spec_trail(), e, old(self).spec_capacity()),
            r is Err ==> final(self).spec_events() == old(self).spec_events(),
            final(self).spec_capacity() == old(self).spec_capacity(),
    {
        let ctx = id_context("row_id=", row_id);
        let c = ctx.as_str();
        proof {
            reveal_strlit("row_id=");
            reveal_strlit("rule_id=");
            reveal_strlit("Fact inserted");
            assert(is_ascii_chars("Fact inserted"@));
            lemma_ascii_str_len("Fact inserted");
            lemma_ascii_str_len(c);
        }
        self.log_new(AuditEventType::FactInserted, user_id, c, "Fact inserted")
    }

    /// Records a deleted fact, with context `row_id=<id>`.
    pub fn log_delete(&mut self, user_id: &str, row_id: u64) -> (r: Result<(), KcmError>)
        ensures
            r is Ok <==> valid_event_user(user_id),
            r matches Err(e) ==> e is InvalidArgument,
            r is Ok ==> exists|e: AuditEvent|
                e.event_type == AuditEventType::FactDeleted && e.user_id@ == user_id@
                    && e.context@ == "row_id="@ + spec_decimal(row_id as nat) && e.details@ == "Fact deleted"@
                    && #[trigger] log_step(old(self).spec_trail(), final(self).spec_trail(), e, old(self).spec_capacity()),
            r is Err ==> final(self).spec_events() == old(self).spec_events(),
            final(self).spec_capacity() == old(self).spec_capacity(),
    {
        let ctx = id_context("row_id=", row_id);
        let c = ctx.as_str();
        proof {
            reveal_strlit("row_id=");
            reveal_strlit("rule_id=");
            reveal_strlit("Fact deleted");
            assert(is_ascii_chars("Fact deleted"@));
            lemma_ascii_str_len("Fact deleted");
            lemma_ascii_str_len(c);
        }
        self.log_new(AuditEventType::FactDeleted, user_id, c, "Fact deleted")
    }

    /// Records a denied access, the resource as context.
    pub fn log_permission_denied(&mut self, user_id: &str, resource: &str) -> (r: Result<(), KcmError>)
        ensures
            r is Ok <==> valid_event_texts(user_id, resource, "Permission denied"),
            r matches Err(e) ==> e is InvalidArgument,
            r is Ok ==> exists|e: AuditEvent|
                e.event_type == AuditEventType::PermissionDenied && e.user_id@ == user_id@ && e.context@ == resource@
                    && e.details@ == "Permission denied"@
                    && #[trigger] log_step(old(self).spec_trail(), final(self).spec_trail(), e, old(self).spec_capacity()),
            r is Err ==> final(self).spec_events() == old(self).spec_events(),
            final(self).spec_capacity() == old(self).spec_capacity(),
    {
        self.log_new(AuditEventType::PermissionDenied, user_id, resource, "Permission denied")
    }

    /// Records an executed rule, with context `rule_id=<id>`.
    pub fn log_rule(&mut self, user_id: &str, rule_id: u32) -> (r: Result<(), KcmError>)
        ensures
            r is Ok <==> valid_event_user(user_id),
            r matches Err(e) ==> e is InvalidArgument,
            r is Ok ==> exists|e: AuditEvent|
                e.event_type == AuditEventType::RuleExecuted && e.user_id@ == user_id@
                    && e.context@ == "rule_id="@ + spec_decimal(rule_id as nat) && e.details@ == "Rule executed"@
                    && #[trigger] log_step(old(self).spec_trail(), final(self).spec_trail(), e, old(self).spec_capacity()),
            r is Err ==> final(self).spec_events() == old(self).spec_events(),
            final(self).spec_capacity() == old(self).spec_capacity(),
    {
        let ctx = id_context("rule_id=", rule_id as u64);
        let c = ctx.as_str();
        proof {
            reveal_strlit("row_id=");
            reveal_strlit("rule_id=");
            reveal_strlit("Rule executed");
            assert(is_ascii_chars("Rule executed"@));
            lemma_ascii_str_len("Rule executed");
            lemma_ascii_str_len(c);
        }
        self.log_new(AuditEventType::RuleExecuted, user_id, c, "Rule executed")
    }

    /// Records an encryption operation, the operation as context.
    pub fn log_encryption(&mut self, user_id: &str, operation: &str) -> (r: Result<(), KcmError>)
        ensures
            r is Ok <==> valid_event_texts(user_id, operation, "Encryption operation"),
            r matches Err(e) ==> e is InvalidArgument,
            r is Ok ==> exists|e: AuditEvent|
                e.event_type == AuditEventType::EncryptionOperation && e.user_id@ == user_id@ && e.context@ == operation@
                    && e.details@ == "Encryption operation"@
                    && #[trigger] log_step(old(self).spec_trail(), final(self).spec_trail(), e, old(self).spec_capacity()),
            r is Err ==> final(self).spec_events() == old(self).spec_events(),
            final(self).spec_capacity() == old(self).spec_capacity(),
    {
        self.log_new(AuditEventType::EncryptionOperation, user_id, operation, "Encryption operation")
    }

    /// Records an access check and whether it was granted.
    pub fn log_access_check(&mut self, user_id: &str, resource: &str, granted: bool) -> (r: Result<(), KcmError>)
        ensures
            r is Ok <==> valid_event_texts(user_id, resource, "Access granted"),
            r matches Err(e) ==> e is InvalidArgument,
            r is Ok ==> exists|e: AuditEvent|
                e.event_type == AuditEventType::AccessControlCheck && e.user_id@ == user_id@ && e.context@ == resource@
                    && e.details@ == (if granted { "Access granted"@ } else { "Access denied"@ })
                    && #[trigger] log_step(old(self).spec_trail(), final(self).spec_trail(), e, old(self).spec_capacity()),
            r is Err ==> final(self).spec_events() == old(self).spec_events(),
            final(self).spec_capacity() == old(self).spec_capacity(),
    {
        proof {
            reveal_strlit("Access granted");
            reveal_strlit("Access denied");
            assert(is_ascii_chars("Access granted"@));
            assert(is_ascii_chars("Access denied"@));
            lemma_ascii_str_len("Access granted");
            lemma_ascii_str_len("Access denied");
        }
        let details = if granted { "Access granted" } else { "Access denied" };
        self.log_new(AuditEventType::AccessControlCheck, user_id, resource, details)
    }

    /// Copies of the events, oldest first.
    pub fn get_events(&self) -> (r: Vec<AuditEvent>)
        ensures
            events_view(r@) == events_view(self.spec_events()),
    {
        let mut out: Vec<AuditEvent> = Vec::new();
        let mut i: usize = 0;
        while i < self.events.len()
            invariant
                i <= self.events@.len(),
                events_view(out@) == events_view(self.events@.subrange(0, i as int)),
            decreases self.events@.len() - i,
        {
            let ghost before = out@;
            out.push(copy_event(&self.events[i]));
            proof {
                assert(events_view(out@) =~= events_view(before).push(event_view(self.events@[i as int])));
                assert(self.events@.subrange(0, i + 1) =~= self.events@.subrange(0, i as int).push(self.events@[i as int]));
                assert(events_view(self.events@.subrange(0, i + 1)) =~= events_view(self.events@.subrange(0, i as int)).push(
                    event_view(self.events@[i as int]),
                ));
            }
            i = i + 1;
        }
        assert(self.events@.subrange(0, self.events@.len() as int) =~= self.events@);
        out
    }

    /// Copies of the events at or after `timestamp`, oldest first.
    pub fn get_events_since(&self, timestamp: i64) -> (r: Vec<AuditEvent>)
        ensures
            events_view(r@) == events_view(self.spec_events()).filter(since(timestamp)),
    {
        let mut out: Vec<AuditEvent> = Vec::new();
        let mut i: usize = 0;
        while i < self.events.len()
            invariant
                i <= self.events@.len(),
                events_view(out@) == events_view(self.events@.subrange(0, i as int)).filter(since(timestamp)),
            decreases self.events@.len() - i,
        {
            let ghost before = out@;
            let ghost pre = events_view(self.events@.subrange(0, i as int));
            let ghost v = event_view(self.events@[i as int]);
            proof {
                assert(self.events@.subrange(0, i + 1) =~= self.events@.subrange(0, i as int).push(self.events@[i as int]));
                assert(events_view(self.events@.subrange(0, i + 1)) =~= pre.push(v));
                reveal_with_fuel(Seq::filter, 1);
                assert(pre.push(v).drop_last() =~= pre);
            }
            if self.events[i].timestamp >= timestamp {
                out.push(copy_event(&self.events[i]));
                assert(events_view(out@) =~= events_view(before).push(v));
            }
            i = i + 1;
        }
        assert(self.events@.subrange(0, self.events@.len() as int) =~= self.events@);
        out
    }

    /// Copies of the events of one type, oldest first.
    pub fn get_events_by_type(&self, event_type: AuditEventType) -> (r: Vec<AuditEvent>)
        ensures
            events_view(r@) == events_view(self.spec_events()).filter(of_type(event_type)),
    {
        let mut out: Vec<AuditEvent> = Vec::new();
        let mut i: usize = 0;
        while i < self.events.len()
            invariant
                i <= self.events@.len(),
                events_view(out@) == events_view(self.events@.subrange(0, i as int)).filter(of_type(event_type)),
            decreases self.events@.len() - i,
        {
            let ghost before = out@;
            let ghost pre = events_view(self.events@.subrange(0, i as int));
            let ghost v = event_view(self.events@[i as int]);
            proof {
                assert(self.events@.subrange(0, i + 1) =~= self.events@.subrange(0, i as int).push(self.events@[i as int]));
                assert(events_view(self.events@.subrange(0, i + 1)) =~= pre.push(v));
                reveal_with_fuel(Seq::filter, 1);
                assert(pre.push(v).drop_last() =~= pre);
            }
            if self.events[i].event_type == event_type {
                out.push(copy_event(&self.events[i]));
                assert(events_view(out@) =~= events_view(before).push(v));
            }
            i = i + 1;
        }
        assert(self.events@.subrange(0, self.events@.len() as int) =~= self.events@);
        out
    }

    /// Copies of the events of one user, oldest first.
    pub fn get_events_by_user(&self, user_id: &str) -> (r: Vec<AuditEvent>)
        ensures
            events_view(r@) == events_view(self.spec_events()).filter(by_user(user_id@)),
    {
        let mut out: Vec<AuditEvent> = Vec::new();
        let mut i: usize = 0;
        while i < self.events.len()
            invariant
                i <= self.events@.len(),
                events_view(out@) == events_view(self.events@.subrange(0, i as int)).filter(by_user(user_id@)),
            decreases self.events@.len() - i,
        {
            let ghost before = out@;
            let ghost pre = events_view(self.events@.subrange(0, i as int));
            let ghost v = event_view(self.events@[i as int]);
            proof {
                assert(self.events@.subrange(0, i + 1) =~= self.events@.subrange(0, i as int).push(self.events@[i as int]));
                assert(events_view(self.events@.subrange(0, i + 1)) =~= pre.push(v));
                reveal_with_fuel(Seq::filter, 1);
                assert(pre.push(v).drop_last() =~= pre);
            }
            if crate::rbac::str_eq(self.events[i].user_id.as_str(), user_id) {
                out.push(copy_event(&self.events[i]));
                assert(events_view(out@) =~= events_view(before).push(v));
            }
            i = i + 1;
        }
        assert(self.events@.subrange(0, self.events@.len() as int) =~= self.events@);
        out
    }

    pub fn event_count(&self) -> (r: usize)
        ensures
            r == self.spec_events().len(),
    {
        self.events.len()
    }

    /// Whether the chain is intact from the anchor; never an error.
    pub fn verify_integrity(&self) -> (r: Result<bool, KcmError>)
        ensures
            r == Ok::<bool, KcmError>(chain_ok(self.spec_events(), self.spec_anchor())),
    {
        let n = self.events.len();
        if n == 0 {
            return Ok(true);
        }
        if !hash_eq(&self.events[0].prev_hash, &self.anchor) {
            return Ok(false);
        }
        let mut i: usize = 1;
        while i < n
            invariant
                n == self.events@.len(),
                1 <= i <= n,
                self.events@[0].prev_hash@ == self.anchor@,
                forall|k: int| 1 <= k < i ==> #[trigger] links_back(self.events@, k),
            decreases n - i,
        {
            if !hash_eq(&self.events[i].prev_hash, &self.events[i - 1].event_hash) {
                assert(!links_back(self.events@, i as int));
                return Ok(false);
            }
            i = i + 1;
        }
        let mut j: usize = 0;
        while j < n
            invariant
                n == self.events@.len(),
                j <= n,
                self.events@[0].prev_hash@ == self.anchor@,
                forall|k: int| 1 <= k < n ==> #[trigger] links_back(self.events@, k),
                forall|k: int| 0 <= k < j ==> #[trigger] hash_right(self.events@, k),
            decreases n - j,
        {
            let computed = self.events[j].compute_hash();
            if !hash_eq(&self.events[j].event_hash, &computed) {
                assert(!hash_right(self.events@, j as int));
                return Ok(false);
            }
            j = j + 1;
        }
        Ok(true)
    }

    /// Drops every event; the chain starts again from the zero hash.
    pub fn clear(&mut self)
        ensures
            final(self).spec_events() == Seq::<AuditEvent>::empty(),
            final(self).spec_capacity() == old(self).spec_capacity(),
            final(self).spec_anchor() == zero_hash(),
    {
        self.events.clear();
        self.anchor = [0u8; 32];
        assert(self.anchor@ =~= zero_hash());
    }

    pub fn is_empty(&self) -> (r: bool)
        ensures
            r == (self.spec_events().len() == 0),
    {
        self.events.len() == 0
    }

    pub fn capacity(&self) -> (r: usize)
        ensures
            r == self.spec_capacity(),
    {
        self.max_events
    }
}

impl Default for AuditLog {
    fn default() -> (r: Self)
        ensures
            r.spec_events() == Seq::<AuditEvent>::empty(),
            r.spec_capacity() == MAX_EVENTS,
            r.spec_anchor() == zero_hash(),
    {
        AuditLog::new()
    }
}

/// `prefix` followed by the decimal digits of `id`.
fn id_context(prefix: &str, id: u64) -> (r: String)
    ensures
        r@ == prefix@ + spec_decimal(id as nat),
        r@.len() <= prefix@.len() + 20,
        is_ascii_chars(prefix@) ==> is_ascii_chars(r@),
{
    proof {
        lemma_decimal_ascii(id as nat);
        lemma_decimal_u64_len(id as nat);
        let d = spec_decimal(id as nat);
        if is_ascii_chars(prefix@) {
            assert forall|i: int| 0 <= i < (prefix@ + d).len() implies '\0' <= #[trigger] (prefix@ + d)[i] <= '\u{7f}' by {
                if i < prefix@.len() {
                    assert((prefix@ + d)[i] == prefix@[i]);
                } else {
                    assert((prefix@ + d)[i] == d[i - prefix@.len()]);
                }
            }
        }
    }
    let mut s = String::from_str(prefix);
    let d = u64_to_decimal(id);
    s.append(d.as_str());
    s
}

/// Logging onto an intact trail keeps it intact, whether or not events
/// are dropped.
pub proof fn law_log_keeps_chain(t: (Seq<AuditEvent>, Seq<u8>), u: (Seq<AuditEvent>, Seq<u8>), e: AuditEvent, cap: nat)
    requires
        chain_ok(t.0, t.1),
        log_step(t, u, e, cap),
    ensures
        chain_ok(u.0, u.1),
{
    let s = t.0;
    let m = u.0;
    let k = s.len() + 1 - m.len();
    if m.len() > 0 {
        if k < s.len() {
            assert(m[0] == s[k]);
            if k > 0 {
                assert(links_back(s, k));
            }
        }
    }
    assert forall|i: int| 1 <= i < m.len() implies #[trigger] links_back(m, i) by {
        assert(m[i - 1] == s[i - 1 + k]);
        if i + k < s.len() {
            assert(m[i] == s[i + k]);
            assert(links_back(s, i + k));
        }
    }
    assert forall|i: int| 0 <= i < m.len() implies #[trigger] hash_right(m, i) by {
        if i + k < s.len() {
            assert(m[i] == s[i + k]);
            assert(hash_right(s, i + k));
        }
    }
}

/// A trail never holds more events than its capacity.
pub proof fn law_log_bounded(t: (Seq<AuditEvent>, Seq<u8>), u: (Seq<AuditEvent>, Seq<u8>), e: AuditEvent, cap: nat)
    requires
        log_step(t, u, e, cap),
    ensures
        u.0.len() <= cap,
        u.0.len() <= t.0.len() + 1,
{
}


} // verus!
