//! The life cycle of a write-ahead log: fresh, active, checkpointing,
//! replaying, truncated, or failed.
use crate::types::KcmError;
use std::time::{Duration, Instant};
use vstd::prelude::*;
use vstd::string::*;

verus! {

#[verifier::external_type_specification]
#[verifier::external_body]
pub struct ExInstant(std::time::Instant);

/// Calls `std::time::Instant::now`; nothing is promised of the reading.
#[verifier::external_body]
fn instant_now() -> Instant {
    Instant::now()
}

/// Calls `std::time::Instant::elapsed`; the result depends on the clock.
#[verifier::external_body]
fn instant_elapsed(start: &Instant) -> Duration {
    start.elapsed()
}

/// Calls `std::time::Duration::as_nanos`: the whole nanoseconds of a
/// duration. Durations are opaque to Verus, so the number is not tied to
/// its argument here; it comes from the clock in its one use.
#[verifier::external_body]
fn duration_nanos(d: &Duration) -> u128 {
    d.as_nanos()
}

/// A span of time in whole nanoseconds. Durations order as their
/// nanosecond counts do.
#[derive(Clone, Copy, Debug, PartialEq, Eq)]
pub struct TimeSpan {
    pub nanos: u128,
}

impl TimeSpan {
    /// `secs` seconds.
    pub fn from_secs(secs: u64) -> (r: TimeSpan)
        ensures
            r.nanos == secs * 1_000_000_000,
    {
        TimeSpan { nanos: (secs as u128) * 1_000_000_000 }
    }
}

/// The checkpoint rule: a checkpoint is due when more than `interval`
/// nanoseconds have passed since the last one (`elapsed` is `None` when
/// there was none), or when `entries` reached `max`.
pub open spec fn spec_checkpoint_due(elapsed: Option<u128>, interval: u128, entries: u64, max: u64) -> bool {
    ||| (elapsed matches Some(t) && t > interval)
    ||| entries >= max
}

/// Decides the checkpoint rule on the given values.
pub fn checkpoint_due(elapsed: Option<u128>, interval: u128, entries: u64, max: u64) -> (r: bool)
    ensures
        r == spec_checkpoint_due(elapsed, interval, entries, max),
{
    if let Some(t) = elapsed {
        if t > interval {
            return true;
        }
    }
    entries >= max
}

/// A point in a log's life.
#[derive(Clone, Debug, PartialEq)]
pub enum WalState {
    Fresh,
    Active,
    Checkpointing,
    Replaying,
    Truncated,
    Error(String),
}

/// The `Debug` text of a string: quoted, with its special characters
/// escaped.
pub uninterp spec fn spec_debug_str(s: Seq<char>) -> Seq<char>;

/// Formats a string with `{:?}` (std's `Debug` for `str`); the text is
/// named `spec_debug_str`.
#[verifier::external_body]
fn debug_str(s: &String) -> (r: String)
    ensures
        r@ == spec_debug_str(s@),
{
    format!("{:?}", s)
}

/// The `Debug` text of a state.
pub open spec fn spec_state_debug(st: WalState) -> Seq<char> {
    match st {
        WalState::Fresh => "Fresh"@,
        WalState::Active => "Active"@,
        WalState::Checkpointing => "Checkpointing"@,
        WalState::Replaying => "Replaying"@,
        WalState::Truncated => "Truncated"@,
        WalState::Error(m) => "Error("@ + spec_debug_str(m@) + ")"@,
    }
}

/// Renders a state as its `Debug` text.
pub fn state_debug(st: &WalState) -> (r: String)
    ensures
        r@ == spec_state_debug(*st),
{
    match st {
        WalState::Fresh => String::from_str("Fresh"),
        WalState::Active => String::from_str("Active"),
        WalState::Checkpointing => String::from_str("Checkpointing"),
        WalState::Replaying => String::from_str("Replaying"),
        WalState::Truncated => String::from_str("Truncated"),
        WalState::Error(m) => {
            let mut s = String::from_str("Error(");
            let d = debug_str(m);
            s.append(d.as_str());
            s.append(")");
            s
        },
    }
}

/// The position and size of a completed checkpoint.
#[derive(Clone, Copy, Debug)]
pub struct WalCheckpoint {
    pub offset: u64,
    pub timestamp: i64,
    pub entry_count: u64,
}

/// The transitions the log allows; a failed log allows none.
pub open spec fn valid_transition(from: WalState, to: WalState) -> bool {
    match (from, to) {
        (WalState::Fresh, WalState::Active) => true,
        (WalState::Active, WalState::Checkpointing) => true,
        (WalState::Checkpointing, WalState::Active) => true,
        (WalState::Fresh, WalState::Replaying) => true,
        (WalState::Replaying, WalState::Truncated) => true,
        (WalState::Active, WalState::Replaying) => true,
        (WalState::Replaying, WalState::Error(_)) => true,
        (WalState::Truncated, WalState::Active) => true,
        _ => false,
    }
}

/// Tracks a log's state and when the next checkpoint is due.
pub struct WalStateMachine {
    state: WalState,
    interval_nanos: u128,
    last_checkpoint: Option<Instant>,
    entries_since_checkpoint: u64,
    max_entries_before_checkpoint: u64,
}

impl WalStateMachine {
    pub closed spec fn spec_state(&self) -> WalState {
        self.state
    }

    /// Entries recorded since the last checkpoint or replay.
    pub closed spec fn spec_entries(&self) -> u64 {
        self.entries_since_checkpoint
    }

    /// Entries after which a checkpoint is due regardless of time.
    pub closed spec fn spec_max_entries(&self) -> u64 {
        self.max_entries_before_checkpoint
    }

    /// Whether a checkpoint or replay has completed.
    pub closed spec fn spec_has_checkpoint(&self) -> bool {
        self.last_checkpoint is Some
    }

    /// The time between checkpoints, in nanoseconds.
    pub closed spec fn spec_interval(&self) -> u128 {
        self.interval_nanos
    }

    /// When the last checkpoint or replay completed.
    pub closed spec fn spec_last_checkpoint(&self) -> Option<Instant> {
        self.last_checkpoint
    }

    /// A fresh log: no entries, no checkpoint yet, a checkpoint due every
    /// 60 seconds or every 10 000 entries.
    pub fn new() -> (r: WalStateMachine)
        ensures
            r.spec_state() == WalState::Fresh,
            r.spec_entries() == 0,
            r.spec_max_entries() == 10_000,
            r.spec_interval() == 60_000_000_000,
            !r.spec_has_checkpoint(),
    {
        WalStateMachine {
            state: WalState::Fresh,
            interval_nanos: 60_000_000_000,
            last_checkpoint: None,
            entries_since_checkpoint: 0,
            max_entries_before_checkpoint: 10_000,
        }
    }

    /// The same machine with another time between checkpoints.
    pub fn with_checkpoint_interval(self, interval: TimeSpan) -> (r: WalStateMachine)
        ensures
            r.spec_state() == self.spec_state(),
            r.spec_entries() == self.spec_entries(),
            r.spec_max_entries() == self.spec_max_entries(),
            r.spec_has_checkpoint() == self.spec_has_checkpoint(),
            r.spec_last_checkpoint() == self.spec_last_checkpoint(),
            r.spec_interval() == interval.nanos,
    {
        let mut s = self;
        s.interval_nanos = interval.nanos;
        s
    }

    pub fn state(&self) -> (r: &WalState)
        ensures
            *r == self.spec_state(),
    {
        &self.state
    }

    /// Whether a checkpoint is due by the checkpoint rule, with the time
    /// since the last checkpoint read from the clock.
    pub fn should_checkpoint(&self) -> (r: bool)
        ensures
            !self.spec_has_checkpoint() ==> r == spec_checkpoint_due(
                None,
                self.spec_interval(),
                self.spec_entries(),
                self.spec_max_entries(),
            ),
            self.spec_has_checkpoint() ==> exists|t: u128|
                r == spec_checkpoint_due(Some(t), self.spec_interval(), self.spec_entries(), self.spec_max_entries()),
    {
        let elapsed = match &self.last_checkpoint {
            Some(last) => {
                let d = instant_elapsed(last);
                Some(duration_nanos(&d))
            },
            None => None,
        };
        let r = checkpoint_due(elapsed, self.interval_nanos, self.entries_since_checkpoint, self.max_entries_before_checkpoint);
        proof {
            if let Some(t) = elapsed {
                assert(r == spec_checkpoint_due(Some(t), self.spec_interval(), self.spec_entries(), self.spec_max_entries()));
            }
        }
        r
    }

    /// Counts one more entry; the log becomes active.
    pub fn record_entry(&mut self)
        requires
            old(self).spec_entries() < u64::MAX,
        ensures
            final(self).spec_entries() == old(self).spec_entries() + 1,
            final(self).spec_state() == WalState::Active,
            final(self).spec_max_entries() == old(self).spec_max_entries(),
            final(self).spec_has_checkpoint() == old(self).spec_has_checkpoint(),
            final(self).spec_interval() == old(self).spec_interval(),
            final(self).spec_last_checkpoint() == old(self).spec_last_checkpoint(),
    {
        self.entries_since_checkpoint = self.entries_since_checkpoint + 1;
        self.state = WalState::Active;
    }

    pub fn begin_checkpoint(&mut self)
        ensures
            final(self).spec_state() == WalState::Checkpointing,
            final(self).spec_entries() == old(self).spec_entries(),
            final(self).spec_max_entries() == old(self).spec_max_entries(),
            final(self).spec_has_checkpoint() == old(self).spec_has_checkpoint(),
            final(self).spec_interval() == old(self).spec_interval(),
            final(self).spec_last_checkpoint() == old(self).spec_last_checkpoint(),
    {
        self.state = WalState::Checkpointing;
    }

    /// Ends a checkpoint: the entry count restarts and the log is active.
    pub fn complete_checkpoint(&mut self)
        ensures
            final(self).spec_state() == WalState::Active,
            final(self).spec_entries() == 0,
            final(self).spec_max_entries() == old(self).spec_max_entries(),
            final(self).spec_has_checkpoint(),
            final(self).spec_interval() == old(self).spec_interval(),
    {
        self.last_checkpoint = Some(instant_now());
        self.entries_since_checkpoint = 0;
        self.state = WalState::Active;
    }

    pub fn begin_replay(&mut self)
        ensures
            final(self).spec_state() == WalState::Replaying,
            final(self).spec_entries() == old(self).spec_entries(),
            final(self).spec_max_entries() == old(self).spec_max_entries(),
            final(self).spec_has_checkpoint() == old(self).spec_has_checkpoint(),
            final(self).spec_interval() == old(self).spec_interval(),
            final(self).spec_last_checkpoint() == old(self).spec_last_checkpoint(),
    {
        self.state = WalState::Replaying;
    }

    /// Ends a replay: the entry count restarts and the log is truncated.
    pub fn complete_replay(&mut self)
        ensures
            final(self).spec_state() == WalState::Truncated,
            final(self).spec_entries() == 0,
            final(self).spec_max_entries() == old(self).spec_max_entries(),
            final(self).spec_has_checkpoint(),
            final(self).spec_interval() == old(self).spec_interval(),
    {
        self.last_checkpoint = Some(instant_now());
        self.entries_since_checkpoint = 0;
        self.state = WalState::Truncated;
    }

    /// Puts the log in the failed state with `msg`.
    pub fn error(&mut self, msg: String)
        ensures
            final(self).spec_state() == WalState::Error(msg),
            final(self).spec_entries() == old(self).spec_entries(),
            final(self).spec_max_entries() == old(self).spec_max_entries(),
            final(self).spec_has_checkpoint() == old(self).spec_has_checkpoint(),
            final(self).spec_interval() == old(self).spec_interval(),
            final(self).spec_last_checkpoint() == old(self).spec_last_checkpoint(),
    {
        self.state = WalState::Error(msg);
    }

    /// Moves to `target` when the transition is allowed, and refuses it otherwise.
    pub fn transition(&mut self, target: WalState) -> (r: Result<(), KcmError>)
        ensures
            r is Ok <==> valid_transition(old(self).spec_state(), target),
            r is Ok ==> final(self).spec_state() == target,
            r is Err ==> final(self).spec_state() == old(self).spec_state(),
            r matches Err(e) ==> (e matches KcmError::InvalidArgument(m) && m@ == "Invalid WAL state transition: "@
                + spec_state_debug(old(self).spec_state()) + " -> "@ + spec_state_debug(target)),
            final(self).spec_entries() == old(self).spec_entries(),
            final(self).spec_max_entries() == old(self).spec_max_entries(),
            final(self).spec_has_checkpoint() == old(self).spec_has_checkpoint(),
            final(self).spec_interval() == old(self).spec_interval(),
            final(self).spec_last_checkpoint() == old(self).spec_last_checkpoint(),
    {
        let valid = match (&self.state, &target) {
            (WalState::Fresh, WalState::Active) => true,
            (WalState::Active, WalState::Checkpointing) => true,
            (WalState::Checkpointing, WalState::Active) => true,
            (WalState::Fresh, WalState::Replaying) => true,
            (WalState::Replaying, WalState::Truncated) => true,
            (WalState::Active, WalState::Replaying) => true,
            (WalState::Replaying, WalState::Error(_)) => true,
            (WalState::Error(_), _) => false,
            (WalState::Truncated, WalState::Active) => true,
            _ => false,
        };
        if valid {
            self.state = target;
            Ok(())
        } else {
            let mut m = String::from_str("Invalid WAL state transition: ");
            let from = state_debug(&self.state);
            m.append(from.as_str());
            m.append(" -> ");
            let to = state_debug(&target);
            m.append(to.as_str());
            Err(KcmError::InvalidArgument(m))
        }
    }
}

impl Default for WalStateMachine {
    fn default() -> (r: Self)
        ensures
            r.spec_state() == WalState::Fresh,
            r.spec_entries() == 0,
            r.spec_max_entries() == 10_000,
            r.spec_interval() == 60_000_000_000,
            !r.spec_has_checkpoint(),
    {
        WalStateMachine::new()
    }
}

/// One more entry never makes a due checkpoint not due, whatever time has
/// passed.
pub proof fn law_more_entries_stay_due(elapsed: Option<u128>, interval: u128, entries: u64, max: u64)
    requires
        entries < u64::MAX,
    ensures
        spec_checkpoint_due(elapsed, interval, entries, max) ==> spec_checkpoint_due(
            elapsed,
            interval,
            (entries + 1) as u64,
            max,
        ),
{
}

/// A failed log refuses every transition and stays failed.
pub proof fn law_error_state_is_final(msg: String, target: WalState)
    ensures
        !valid_transition(WalState::Error(msg), target),
{
}

/// A fresh log can become active, checkpoint, and return to active.
pub proof fn law_checkpoint_cycle()
    ensures
        valid_transition(WalState::Fresh, WalState::Active),
        valid_transition(WalState::Active, WalState::Checkpointing),
        valid_transition(WalState::Checkpointing, WalState::Active),
{
}

} // verus!
