use taskflowrs::executor::{run_n_step, run_until_step, RepeatStep};
use taskflowrs::dynamic_priority::{DynamicPriorityScheduler, EscalationPolicy, SharedDynamicScheduler};
use taskflowrs::scheduler::{FifoScheduler, PriorityScheduler, RoundRobinScheduler, Scheduler};
use taskflowrs::Priority;

#[test]
fn test_fifo_scheduler() {
    let mut sched = FifoScheduler::new();
    assert!(sched.is_empty());

    sched.push(1, Priority::Normal);
    sched.push(2, Priority::High);
    sched.push(3, Priority::Low);

    assert_eq!(sched.len(), 3);
    assert_eq!(sched.pop(), Some(1));
    assert_eq!(sched.pop(), Some(2));
    assert_eq!(sched.pop(), Some(3));
    assert!(sched.is_empty());
}

#[test]
fn test_priority_scheduler() {
    let mut sched = PriorityScheduler::new();

    sched.push(1, Priority::Normal);
    sched.push(2, Priority::High);
    sched.push(3, Priority::Low);
    sched.push(4, Priority::Critical);

    assert_eq!(sched.pop(), Some(4));
    assert_eq!(sched.pop(), Some(2));
    assert_eq!(sched.pop(), Some(1));
    assert_eq!(sched.pop(), Some(3));
}

#[test]
fn test_priority_scheduler_fifo_fallback() {
    let mut sched = PriorityScheduler::new();

    sched.push(1, Priority::Normal);
    sched.push(2, Priority::Normal);
    sched.push(3, Priority::Normal);

    assert_eq!(sched.pop(), Some(1));
    assert_eq!(sched.pop(), Some(2));
    assert_eq!(sched.pop(), Some(3));
}

#[test]
fn test_round_robin_scheduler() {
    let mut sched = RoundRobinScheduler::new(3);

    sched.push(1, Priority::Normal);
    sched.push(2, Priority::Normal);
    sched.push(3, Priority::Normal);
    sched.push(4, Priority::Normal);

    assert_eq!(sched.len(), 4);

    let mut results = Vec::new();
    while let Some(task) = sched.pop() {
        results.push(task);
    }

    assert_eq!(results.len(), 4);
    assert!(results.contains(&1));
    assert!(results.contains(&2));
    assert!(results.contains(&3));
    assert!(results.contains(&4));
}

#[test]
fn pop_on_empty_schedulers_is_none() {
    let mut f = FifoScheduler::new();
    let mut p = PriorityScheduler::new();
    let mut r = RoundRobinScheduler::new(2);
    assert_eq!(f.pop(), None);
    assert_eq!(p.pop(), None);
    assert_eq!(r.pop(), None);
}

#[test]
fn basic_push_pop_priority_order() {
    let mut sched = DynamicPriorityScheduler::new();
    sched.push(1, Priority::Low);
    sched.push(2, Priority::High);
    sched.push(3, Priority::Normal);
    sched.push(4, Priority::Critical);

    assert_eq!(sched.pop(), Some(4));
    assert_eq!(sched.pop(), Some(2));
    assert_eq!(sched.pop(), Some(3));
    assert_eq!(sched.pop(), Some(1));
    assert_eq!(sched.pop(), None);
}

#[test]
fn fifo_within_equal_priority() {
    let mut sched = DynamicPriorityScheduler::new();
    sched.push(10, Priority::Normal);
    sched.push(20, Priority::Normal);
    sched.push(30, Priority::Normal);

    assert_eq!(sched.pop(), Some(10));
    assert_eq!(sched.pop(), Some(20));
    assert_eq!(sched.pop(), Some(30));
}

#[test]
fn reprioritize_elevates_task() {
    let mut sched = DynamicPriorityScheduler::new();
    sched.push(1, Priority::Low);
    sched.push(2, Priority::Normal);

    assert!(sched.reprioritize(1, Priority::Critical));

    assert_eq!(sched.pop(), Some(1));
    assert_eq!(sched.pop(), Some(2));
}

#[test]
fn reprioritize_demotes_task() {
    let mut sched = DynamicPriorityScheduler::new();
    sched.push(1, Priority::Critical);
    sched.push(2, Priority::Normal);

    assert!(sched.reprioritize(1, Priority::Low));

    assert_eq!(sched.pop(), Some(2));
    assert_eq!(sched.pop(), Some(1));
}

#[test]
fn reprioritize_nonexistent_returns_false() {
    let mut sched = DynamicPriorityScheduler::new();
    assert!(!sched.reprioritize(999, Priority::High));
}

#[test]
fn reprioritize_preserves_fifo_within_new_priority() {
    let mut sched = DynamicPriorityScheduler::new();
    sched.push(1, Priority::Normal);
    sched.push(2, Priority::Normal);
    sched.push(3, Priority::High);

    assert!(sched.reprioritize(1, Priority::High));

    assert_eq!(sched.pop(), Some(1));
    assert_eq!(sched.pop(), Some(3));
    assert_eq!(sched.pop(), Some(2));
}

#[test]
fn remove_works() {
    let mut sched = DynamicPriorityScheduler::new();
    sched.push(1, Priority::Normal);
    sched.push(2, Priority::High);
    assert!(sched.remove(2));
    assert_eq!(sched.len(), 1);
    assert_eq!(sched.pop(), Some(1));
    assert!(!sched.remove(2));
}

#[test]
fn peek_priority() {
    let mut sched = DynamicPriorityScheduler::new();
    sched.push(5, Priority::High);
    assert_eq!(sched.peek_priority(5), Some(Priority::High));
    sched.pop();
    assert_eq!(sched.peek_priority(5), None);
}

#[test]
fn snapshot_ordered() {
    let mut sched = DynamicPriorityScheduler::new();
    sched.push(1, Priority::Low);
    sched.push(2, Priority::Critical);
    sched.push(3, Priority::Normal);

    let snap = sched.snapshot();
    assert_eq!(snap[0].1, Priority::Critical);
    assert_eq!(snap[1].1, Priority::Normal);
    assert_eq!(snap[2].1, Priority::Low);
    assert_eq!(sched.len(), 3);
}

#[test]
fn drain_ordered_empties_in_run_order_with_queued_priorities() {
    let mut sched = DynamicPriorityScheduler::new();
    sched.push(1, Priority::Low);
    sched.push(2, Priority::Critical);
    sched.push(3, Priority::Low);
    let snap = sched.snapshot();
    let drained = sched.drain_ordered();
    assert_eq!(drained, vec![(2, Priority::Critical), (1, Priority::Low), (3, Priority::Low)]);
    assert_eq!(drained, snap);
    assert!(sched.is_empty());
}

#[test]
fn shared_scheduler_push_pop() {
    let sched = SharedDynamicScheduler::new();
    sched.push(1, Priority::Normal);
    sched.push(2, Priority::Critical);
    assert_eq!(sched.pop(), Some(2));
    assert_eq!(sched.pop(), Some(1));
}

#[test]
fn priority_handle_reprioritize() {
    let sched = SharedDynamicScheduler::new();
    let handle = sched.push(42, Priority::Low);
    sched.push(7, Priority::Normal);

    assert_eq!(handle.current_priority(), Some(Priority::Low));

    assert!(handle.reprioritize(Priority::Critical));
    assert_eq!(handle.current_priority(), Some(Priority::Critical));

    assert_eq!(sched.pop(), Some(42));
    assert_eq!(sched.pop(), Some(7));

    assert_eq!(handle.current_priority(), None);
    assert!(!handle.is_pending());
}

#[test]
fn priority_handle_cancel() {
    let sched = SharedDynamicScheduler::new();
    let h = sched.push(99, Priority::High);
    sched.push(1, Priority::Normal);

    assert!(h.cancel());
    assert!(!h.cancel());

    assert_eq!(sched.len(), 1);
    assert_eq!(sched.pop(), Some(1));
}

#[test]
fn escalation_policy_bumps_low_to_normal() {
    let sched = SharedDynamicScheduler::new();
    sched.push(1, Priority::Low);
    sched.push(2, Priority::Normal);

    let policy = EscalationPolicy::new(sched.clone(), 1, 1, 2);
    policy.escalate();

    assert_eq!(sched.peek_priority(1), Some(Priority::Normal));
    assert_eq!(sched.peek_priority(2), Some(Priority::High));
}

#[test]
fn escalation_tick_runs_every_interval() {
    let sched = SharedDynamicScheduler::new();
    sched.push(1, Priority::Low);
    let mut policy = EscalationPolicy::new(sched.clone(), 2, 1, 2);
    assert!(!policy.tick());
    assert_eq!(sched.peek_priority(1), Some(Priority::Low));
    assert!(policy.tick());
    assert_eq!(sched.peek_priority(1), Some(Priority::Normal));
}

#[test]
fn test_dynamic_priority_export() {
    let sched = SharedDynamicScheduler::new();
    let handle = sched.push(1, Priority::Low);
    handle.reprioritize(Priority::Critical);
    assert_eq!(sched.pop(), Some(1));
}

#[test]
fn run_n_runs_n_times_and_run_until_stops_when_the_predicate_holds() {
    assert_eq!(run_n_step(3, 0), RepeatStep::RunAndWait);
    assert_eq!(run_n_step(3, 1), RepeatStep::RunAndWait);
    assert_eq!(run_n_step(3, 2), RepeatStep::RunLast);
    assert_eq!(run_n_step(0, 0), RepeatStep::Stop);
    assert_eq!(run_n_step(1, 0), RepeatStep::RunLast);
    assert_eq!(run_until_step(false), RepeatStep::RunAndWait);
    assert_eq!(run_until_step(true), RepeatStep::Stop);
}

#[test]
fn run_until_doc_example_stops_at_fifty() {
    // each run adds 5; the predicate `sum >= 50` is checked after each run
    let mut sum = 0;
    loop {
        sum += 5;
        if run_until_step(sum >= 50) == RepeatStep::Stop {
            break;
        }
    }
    assert_eq!(sum, 50);
    // run_n(5) runs five times
    let mut runs = 0;
    let mut done = 0;
    loop {
        match run_n_step(5, done) {
            RepeatStep::RunAndWait => {
                runs += 1;
                done += 1;
            }
            RepeatStep::RunLast => {
                runs += 1;
                break;
            }
            RepeatStep::Stop => break,
        }
    }
    assert_eq!(runs, 5);
}
