//! Preemptive cancellation: a token shared by a task and whoever may stop
//! it, with an optional reason and a deadline; and the arithmetic of time
//! budgets.  Clocks, sleeping watchdogs and signals are the caller's; they
//! act on the token through the calls below.

use std::sync::atomic::{AtomicBool, AtomicU64, Ordering};
use std::sync::Arc;
use vstd::prelude::*;
use vstd::rwlock::{RwLock, RwLockPredicate};

use crate::text::push_str;

verus! {

/// The error a preempted task gets, with the reason given, if any.
pub struct Preempted {
    pub reason: Option<String>,
}

impl Preempted {
    /// The error's text: `Task preempted`, then `: ` and the reason when
    /// there is one.
    pub fn message(&self) -> (s: String)
        ensures
            s@ == match self.reason {
                Some(r) => "Task preempted: "@ + r@,
                None => "Task preempted"@,
            },
    {
        let mut s = String::new();
        match &self.reason {
            Some(r) => {
                push_str(&mut s, "Task preempted: ");
                push_str(&mut s, r.as_str());
            },
            None => {
                push_str(&mut s, "Task preempted");
            },
        }
        s
    }
}

/// Any reason may be stored.
pub struct AnyReason;

impl RwLockPredicate<Option<String>> for AnyReason {
    open spec fn inv(self, r: Option<String>) -> bool {
        true
    }
}

struct PreemptionState {
    cancelled: AtomicBool,
    reason: RwLock<Option<String>, AnyReason>,
    deadline_unix_ms: AtomicU64,
}

/// A cancellation token that can be cancelled on demand, with a reason, or
/// when a deadline passes.  Clones share one state, so what one clone does
/// every other sees; what a call observes therefore depends on what other
/// threads do meanwhile.
pub struct PreemptiveCancellationToken {
    state: Arc<PreemptionState>,
}

impl Clone for PreemptiveCancellationToken {
    fn clone(&self) -> (c: Self) {
        PreemptiveCancellationToken { state: Arc::clone(&self.state) }
    }
}

impl Default for PreemptiveCancellationToken {
    fn default() -> (t: Self) {
        Self::new()
    }
}

/// The result of a check: nothing when not cancelled, else the reason.
pub open spec fn check_outcome(cancelled: bool, reason: Option<String>) -> Result<(), Preempted> {
    if cancelled {
        Err(Preempted { reason })
    } else {
        Ok(())
    }
}

/// What a check returns for a cancelled flag and a stored reason.
pub fn check_result(cancelled: bool, reason: Option<String>) -> (r: Result<(), Preempted>)
    ensures
        r == check_outcome(cancelled, reason),
{
    if cancelled {
        Err(Preempted { reason })
    } else {
        Ok(())
    }
}

impl PreemptiveCancellationToken {
    /// A fresh token: not cancelled, no reason, no deadline.
    pub fn new() -> (t: Self) {
        let state = PreemptionState {
            cancelled: AtomicBool::new(false),
            reason: RwLock::new(None, Ghost(AnyReason)),
            deadline_unix_ms: AtomicU64::new(0),
        };
        PreemptiveCancellationToken { state: Arc::new(state) }
    }

    /// Stores `reason`, then sets the cancelled flag.
    pub fn cancel_with_reason(&self, reason: Option<String>) {
        let (_old, handle) = self.state.reason.acquire_write();
        handle.release_write(reason);
        self.state.cancelled.store(true, Ordering::Release);
    }

    /// Cancels without a reason.
    pub fn cancel(&self) {
        self.cancel_with_reason(None);
    }

    /// Cancels with a reason.
    pub fn cancel_with(&self, reason: &str) {
        self.cancel_with_reason(Some(String::from_str(reason)));
    }

    /// Notes the deadline, in milliseconds since the Unix epoch, for the
    /// watchdog that the caller starts.
    pub fn set_deadline_ms(&self, unix_ms: u64) {
        self.state.deadline_unix_ms.store(unix_ms, Ordering::Release);
    }

    /// The deadline noted, in milliseconds since the Unix epoch; 0 for none.
    pub fn deadline_ms(&self) -> (ms: u64) {
        self.state.deadline_unix_ms.load(Ordering::Acquire)
    }

    /// What a watchdog does when it wakes at its deadline: cancel with its
    /// reason, unless the token was cancelled meanwhile.  Returns whether
    /// it cancelled.
    pub fn expire(&self, reason: Option<String>) -> (fired: bool) {
        if self.is_cancelled() {
            return false;
        }
        self.cancel_with_reason(reason);
        true
    }

    /// Whether the token is cancelled.
    pub fn is_cancelled(&self) -> (b: bool) {
        self.state.cancelled.load(Ordering::Acquire)
    }

    /// Nothing when not cancelled; otherwise the preemption, with the
    /// reason then stored.
    pub fn check(&self) -> (r: Result<(), Preempted>) {
        let cancelled = self.is_cancelled();
        if cancelled {
            check_result(true, self.reason())
        } else {
            check_result(false, None)
        }
    }

    /// Makes the token reusable: no deadline, no reason, not cancelled.
    pub fn reset(&self) {
        self.state.deadline_unix_ms.store(0, Ordering::Release);
        let (_old, handle) = self.state.reason.acquire_write();
        handle.release_write(None);
        self.state.cancelled.store(false, Ordering::Release);
    }

    /// A copy of the reason stored, if any.
    pub fn reason(&self) -> (r: Option<String>) {
        let handle = self.state.reason.acquire_read();
        let r = match handle.borrow() {
            Some(s) => Some(s.clone()),
            None => None,
        };
        handle.release_read();
        r
    }
}

/// What remains of a budget of `budget_ns` after `elapsed_ns`: the
/// difference, or nothing once it is spent.
pub fn remaining_budget(budget_ns: u128, elapsed_ns: u128) -> (r: u128)
    ensures
        r == if budget_ns >= elapsed_ns { (budget_ns - elapsed_ns) as u128 } else { 0u128 },
{
    if budget_ns >= elapsed_ns {
        budget_ns - elapsed_ns
    } else {
        0
    }
}

/// Whether a budget of `budget_ns` is spent after `elapsed_ns`.
pub fn budget_expired(budget_ns: u128, elapsed_ns: u128) -> (b: bool)
    ensures
        b == (elapsed_ns >= budget_ns),
{
    elapsed_ns >= budget_ns
}

/// The deadline in milliseconds since the Unix epoch, `offset_ms` from
/// now when the deadline lies ahead (saturating), or now.
pub fn deadline_unix_ms(now_unix_ms: u64, offset_ms: Option<u64>) -> (r: u64)
    ensures
        r == match offset_ms {
            Some(o) => if now_unix_ms + o > u64::MAX { u64::MAX } else { (now_unix_ms + o) as u64 },
            None => now_unix_ms,
        },
{
    match offset_ms {
        Some(o) => now_unix_ms.saturating_add(o),
        None => now_unix_ms,
    }
}

/// A time budget for a token, started at `start_ns` on the caller's
/// clock.  Closing the guard after the budget has run out cancels the
/// token with the reason `deadline elapsed`.
pub struct DeadlineGuard {
    token: PreemptiveCancellationToken,
    start_ns: u128,
    budget_ns: u128,
}

impl DeadlineGuard {
    /// When the budget started.
    pub closed spec fn start(&self) -> u128 {
        self.start_ns
    }

    /// The length of the budget.
    pub closed spec fn budget(&self) -> u128 {
        self.budget_ns
    }

    /// The token the guard cancels.
    pub closed spec fn guarded(&self) -> PreemptiveCancellationToken {
        self.token
    }

    /// A guard for `token` with `budget_ns` from `start_ns` on.
    pub fn new(token: PreemptiveCancellationToken, start_ns: u128, budget_ns: u128) -> (g: Self)
        ensures
            g.start() == start_ns,
            g.budget() == budget_ns,
            g.guarded() == token,
    {
        DeadlineGuard { token, start_ns, budget_ns }
    }

    /// What remains of the budget at `now_ns`, or zero once it is spent.
    pub fn remaining(&self, now_ns: u128) -> (r: u128)
        ensures
            r == if now_ns <= self.start() {
                self.budget()
            } else if self.budget() >= now_ns - self.start() {
                (self.budget() - (now_ns - self.start())) as u128
            } else {
                0u128
            },
    {
        let elapsed: u128 = if now_ns > self.start_ns { now_ns - self.start_ns } else { 0 };
        remaining_budget(self.budget_ns, elapsed)
    }

    /// Whether the budget is spent at `now_ns`.
    pub fn is_expired(&self, now_ns: u128) -> (b: bool)
        ensures
            b == (if now_ns > self.start() { now_ns - self.start() } else { 0 } >= self.budget()),
    {
        let elapsed: u128 = if now_ns > self.start_ns { now_ns - self.start_ns } else { 0 };
        budget_expired(self.budget_ns, elapsed)
    }

    /// The token the guard cancels.
    pub fn token(&self) -> (t: &PreemptiveCancellationToken)
        ensures
            *t == self.guarded(),
    {
        &self.token
    }

    /// Closes the guard at `now_ns`: when the budget is spent, cancels the
    /// token with the reason `deadline elapsed`.  Returns whether it did.
    pub fn close(&self, now_ns: u128) -> (cancelled: bool)
        ensures
            cancelled == (if now_ns > self.start() { now_ns - self.start() } else { 0 } >= self.budget()),
    {
        if self.is_expired(now_ns) {
            self.token.cancel_with("deadline elapsed");
            true
        } else {
            false
        }
    }
}

} // verus!
