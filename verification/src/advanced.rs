//! Task priorities, cooperative cancellation tokens and task metadata.

use std::sync::atomic::{AtomicBool, AtomicUsize, Ordering};
use std::sync::Arc;
use vstd::prelude::*;

verus! {

/// Task priority levels; a higher level is scheduled first.
#[derive(Debug, Clone, Copy, PartialEq, Eq, Structural, PartialOrd, Ord, Hash)]
pub enum Priority {
    /// Lowest priority (background tasks).
    Low,
    /// Normal priority (the default).
    Normal,
    /// High priority (important tasks).
    High,
    /// Critical priority (must run as soon as possible).
    Critical,
}

impl Priority {
    /// The numeric level of a priority: 0, 5, 10 and 15.
    pub open spec fn level(self) -> u8 {
        match self {
            Priority::Low => 0,
            Priority::Normal => 5,
            Priority::High => 10,
            Priority::Critical => 15,
        }
    }

    /// The priority that a numeric level denotes: 0..=2 is `Low`, 3..=7 is
    /// `Normal`, 8..=12 is `High` and everything above is `Critical`.
    pub open spec fn from_level(v: u8) -> Priority {
        if v <= 2 {
            Priority::Low
        } else if v <= 7 {
            Priority::Normal
        } else if v <= 12 {
            Priority::High
        } else {
            Priority::Critical
        }
    }

    /// Numeric level of this priority.
    pub fn value(self) -> (r: u8)
        ensures
            r == self.level(),
    {
        match self {
            Priority::Low => 0,
            Priority::Normal => 5,
            Priority::High => 10,
            Priority::Critical => 15,
        }
    }

    /// Converts a numeric level into a priority.
    pub fn from_value(v: u8) -> (p: Priority)
        ensures
            p == Priority::from_level(v),
    {
        if v <= 2 {
            Priority::Low
        } else if v <= 7 {
            Priority::Normal
        } else if v <= 12 {
            Priority::High
        } else {
            Priority::Critical
        }
    }

    /// `true` when `self` is scheduled strictly before `other`.
    pub fn is_higher_than(self, other: Priority) -> (r: bool)
        ensures
            r == (self.level() > other.level()),
    {
        self.value() > other.value()
    }
}

/// A level maps back to the priority it came from.
pub proof fn lemma_level_roundtrip(p: Priority)
    ensures
        Priority::from_level(p.level()) == p,
{
}

/// The derived order of the variants agrees with the numeric levels.
pub proof fn lemma_levels_strictly_increase()
    ensures
        Priority::Low.level() < Priority::Normal.level(),
        Priority::Normal.level() < Priority::High.level(),
        Priority::High.level() < Priority::Critical.level(),
{
}

impl Default for Priority {
    fn default() -> (p: Priority)
        ensures
            p == Priority::Normal,
    {
        Priority::Normal
    }
}

impl From<u8> for Priority {
    fn from(val: u8) -> (p: Priority) {
        Priority::from_value(val)
    }
}

impl vstd::std_specs::convert::FromSpecImpl<u8> for Priority {
    open spec fn obeys_from_spec() -> bool {
        true
    }

    open spec fn from_spec(v: u8) -> Priority {
        Priority::from_level(v)
    }
}

impl From<Priority> for u8 {
    fn from(p: Priority) -> (r: u8) {
        p.value()
    }
}

impl vstd::std_specs::convert::FromSpecImpl<Priority> for u8 {
    open spec fn obeys_from_spec() -> bool {
        true
    }

    open spec fn from_spec(p: Priority) -> u8 {
        p.level()
    }
}

/// Cooperative cancellation token.  Clones share one flag and one counter,
/// so a cancellation made through any clone is seen through all of them.
#[derive(Clone)]
pub struct CancellationToken {
    cancelled: Arc<AtomicBool>,
    cancel_count: Arc<AtomicUsize>,
}

impl CancellationToken {
    /// A fresh, uncancelled token.
    pub fn new() -> (t: Self) {
        CancellationToken {
            cancelled: Arc::new(AtomicBool::new(false)),
            cancel_count: Arc::new(AtomicUsize::new(0)),
        }
    }

    /// Sets the cancelled flag and counts the cancellation.
    pub fn cancel(&self) {
        self.cancelled.store(true, Ordering::Release);
        self.cancel_count.fetch_add(1, Ordering::Relaxed);
    }

    /// Reads the shared cancelled flag.
    pub fn is_cancelled(&self) -> bool {
        self.cancelled.load(Ordering::Acquire)
    }

    /// Clears the cancelled flag so that the token can be reused; the
    /// cancellation counter is kept.
    pub fn reset(&self) {
        self.cancelled.store(false, Ordering::Release);
    }

    /// Number of times the token has been cancelled.
    pub fn cancel_count(&self) -> usize {
        self.cancel_count.load(Ordering::Relaxed)
    }
}

impl Default for CancellationToken {
    fn default() -> Self {
        CancellationToken::new()
    }
}

/// Scheduling hints attached to a task.
#[derive(Clone)]
pub struct TaskMetadata {
    /// Task priority.
    pub priority: Priority,
    /// Optional cancellation token.
    pub cancellation_token: Option<CancellationToken>,
    /// NUMA node hint; -1 means any node.
    pub numa_node: i32,
}

impl Default for TaskMetadata {
    fn default() -> (m: TaskMetadata)
        ensures
            m.priority == Priority::Normal,
            m.cancellation_token is None,
            m.numa_node == -1,
    {
        TaskMetadata { priority: Priority::Normal, cancellation_token: None, numa_node: -1 }
    }
}

impl TaskMetadata {
    /// Metadata with the given priority and default hints otherwise.
    pub fn with_priority(priority: Priority) -> (m: Self)
        ensures
            m.priority == priority,
            m.cancellation_token is None,
            m.numa_node == -1,
    {
        TaskMetadata { priority, cancellation_token: None, numa_node: -1 }
    }

    /// Metadata carrying a cancellation token and default hints otherwise.
    pub fn with_cancellation(token: CancellationToken) -> (m: Self)
        ensures
            m.priority == Priority::Normal,
            m.cancellation_token == Some(token),
            m.numa_node == -1,
    {
        TaskMetadata { priority: Priority::Normal, cancellation_token: Some(token), numa_node: -1 }
    }

    /// Metadata with a NUMA node hint and default hints otherwise.
    pub fn with_numa_node(node: i32) -> (m: Self)
        ensures
            m.priority == Priority::Normal,
            m.cancellation_token is None,
            m.numa_node == node,
    {
        TaskMetadata { priority: Priority::Normal, cancellation_token: None, numa_node: node }
    }

    /// `true` when a token is attached and it reads as cancelled; a task
    /// without a token is never cancelled.
    pub fn should_cancel(&self) -> (r: bool)
        ensures
            self.cancellation_token is None ==> !r,
    {
        match &self.cancellation_token {
            Some(t) => t.is_cancelled(),
            None => false,
        }
    }
}

} // verus!
