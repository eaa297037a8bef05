use taskflowrs::composition::{CloneableWork, CompositionBuilder};
use taskflowrs::cycle_detection::CycleDetector;
use taskflowrs::condition::ConditionalHandle;
use taskflowrs::taskflow::Taskflow;
use taskflowrs::{CancellationToken, Priority, TaskMetadata};

type Work = Box<dyn Fn() + Send + Sync>;

fn job() -> Work {
    Box::new(|| {})
}

#[test]
fn test_priority_ordering() {
    assert!(Priority::Critical > Priority::High);
    assert!(Priority::High > Priority::Normal);
    assert!(Priority::Normal > Priority::Low);
}

#[test]
fn test_priority_conversion() {
    assert_eq!(Priority::from(0), Priority::Low);
    assert_eq!(Priority::from(5), Priority::Normal);
    assert_eq!(Priority::from(10), Priority::High);
    assert_eq!(Priority::from(20), Priority::Critical);
}

#[test]
fn test_cancellation_token() {
    let token = CancellationToken::new();
    assert!(!token.is_cancelled());

    token.cancel();
    assert!(token.is_cancelled());
    assert_eq!(token.cancel_count(), 1);

    token.reset();
    assert!(!token.is_cancelled());
}

#[test]
fn test_task_metadata() {
    let meta = TaskMetadata::with_priority(Priority::High);
    assert_eq!(meta.priority, Priority::High);
    assert!(!meta.should_cancel());

    let token = CancellationToken::new();
    let meta = TaskMetadata::with_cancellation(token.clone());
    assert!(!meta.should_cancel());

    token.cancel();
    assert!(meta.should_cancel());
}

#[test]
fn test_composition_builder() {
    let mut builder: CompositionBuilder<Work, u32> = CompositionBuilder::new();
    let task = builder.taskflow_mut().emplace(job());
    builder.mark_entries(&[task.clone()]);
    builder.mark_exits(&[task]);

    let composition = builder.build();
    assert_eq!(composition.entries().len(), 1);
    assert_eq!(composition.exits().len(), 1);
}

#[test]
fn test_cloneable_work() {
    let counter = std::sync::Arc::new(std::sync::Mutex::new(0));
    let c = counter.clone();

    let work = CloneableWork::new(move || {
        *c.lock().unwrap() += 1;
    });

    work.execute();
    work.execute();

    assert_eq!(*counter.lock().unwrap(), 2);
}

#[test]
fn cloneable_work_clones_share_the_function() {
    let counter = std::sync::Arc::new(std::sync::Mutex::new(0));
    let c = counter.clone();
    let work = CloneableWork::new(move || {
        *c.lock().unwrap() += 10;
    });
    let copy = work.clone();
    copy.execute();
    work.execute();
    assert_eq!(*counter.lock().unwrap(), 20);
}

#[test]
fn test_branch_creation() {
    let mut taskflow: Taskflow<Work> = Taskflow::new();

    let condition = taskflow.emplace(job()).name(&mut taskflow, "condition");
    let mut cond_handle = ConditionalHandle::new(condition);

    let task_a = taskflow.emplace(job()).name(&mut taskflow, "a");
    let task_b = taskflow.emplace(job()).name(&mut taskflow, "b");

    cond_handle.branch(0, &task_a);
    cond_handle.branch(1, &task_b);

    assert_eq!(cond_handle.branches.len(), 2);
}

#[test]
fn test_no_cycle() {
    let mut detector = CycleDetector::new();
    detector.add_dependency(1, 2);
    detector.add_dependency(2, 3);

    let result = detector.detect_cycle();
    assert!(!result.has_cycle());
}

#[test]
fn test_simple_cycle() {
    let mut detector = CycleDetector::new();
    detector.add_dependency(1, 2);
    detector.add_dependency(2, 3);
    detector.add_dependency(3, 1);

    let result = detector.detect_cycle();
    assert!(result.has_cycle());

    let cycle = result.cycle_path().unwrap();
    assert!(!cycle.is_empty());
}

#[test]
fn test_self_loop() {
    let mut detector = CycleDetector::new();
    detector.add_dependency(1, 1);

    let result = detector.detect_cycle();
    assert!(result.has_cycle());
}

#[test]
fn test_complex_graph_no_cycle() {
    let mut detector = CycleDetector::new();
    detector.add_dependency(1, 2);
    detector.add_dependency(1, 3);
    detector.add_dependency(2, 4);
    detector.add_dependency(3, 4);

    let result = detector.detect_cycle();
    assert!(!result.has_cycle());
}

#[test]
fn test_topological_sort() {
    let mut detector = CycleDetector::new();
    detector.add_dependency(1, 2);
    detector.add_dependency(2, 3);
    detector.add_dependency(1, 3);

    let sorted = detector.topological_sort();
    assert!(sorted.is_some());

    let sorted = sorted.unwrap();
    assert_eq!(sorted.len(), 3);

    let pos_1 = sorted.iter().position(|&x| x == 1).unwrap();
    let pos_2 = sorted.iter().position(|&x| x == 2).unwrap();
    let pos_3 = sorted.iter().position(|&x| x == 3).unwrap();

    assert!(pos_1 < pos_2);
    assert!(pos_1 < pos_3);
    assert!(pos_2 < pos_3);
}

#[test]
fn test_topological_sort_with_cycle() {
    let mut detector = CycleDetector::new();
    detector.add_dependency(1, 2);
    detector.add_dependency(2, 3);
    detector.add_dependency(3, 1);

    let sorted = detector.topological_sort();
    assert!(sorted.is_none());
}

#[test]
fn cycle_path_lists_the_cycle() {
    let mut detector = CycleDetector::new();
    detector.add_dependency(1, 2);
    detector.add_dependency(2, 3);
    detector.add_dependency(3, 2);
    let result = detector.detect_cycle();
    let cycle = result.cycle_path().unwrap().to_vec();
    assert_eq!(cycle.len(), 2);
    assert!(cycle.contains(&2) && cycle.contains(&3));
    assert!(!cycle.contains(&1));
}

#[test]
fn test_taskflow_creation() {
    let mut tf: Taskflow<Work> = Taskflow::new();
    let a = tf.emplace(Box::new(|| println!("A"))).name(&mut tf, "A");
    let b = tf.emplace(Box::new(|| println!("B"))).name(&mut tf, "B");

    a.precede(&mut tf, &b);

    assert_eq!(tf.size(), 2);

    let dot = tf.dump();
    assert!(dot.contains("A"));
    assert!(dot.contains("B"));
    assert!(dot.contains("->"));
}

#[test]
fn test_taskflow_size() {
    let mut taskflow: Taskflow<Work> = Taskflow::new();

    assert_eq!(taskflow.size(), 0);
    assert!(taskflow.is_empty());

    taskflow.emplace(job());
    assert_eq!(taskflow.size(), 1);
    assert!(!taskflow.is_empty());

    taskflow.emplace(job());
    taskflow.emplace(job());
    assert_eq!(taskflow.size(), 3);
}

#[test]
fn test_dump_graph() {
    let mut taskflow: Taskflow<Work> = Taskflow::new();

    let a = taskflow.emplace(job()).name(&mut taskflow, "A");
    let b = taskflow.emplace(job()).name(&mut taskflow, "B");

    a.precede(&mut taskflow, &b);

    let dot = taskflow.dump();

    assert!(dot.contains("digraph Taskflow"));
    assert!(dot.contains("A"));
    assert!(dot.contains("B"));
    assert!(dot.contains("->"));
}

#[test]
fn dump_is_exact_dot_text() {
    let mut taskflow: Taskflow<Work> = Taskflow::new();
    let a = taskflow.emplace(job()).name(&mut taskflow, "A");
    let b = taskflow.emplace(job()).name(&mut taskflow, "B");
    a.precede(&mut taskflow, &b);
    a.precede(&mut taskflow, &b);
    assert_eq!(
        taskflow.dump(),
        "digraph Taskflow {\n  0 [label=\"A\"];\n  0 -> 1;\n  1 [label=\"B\"];\n}\n"
    );
}

#[test]
fn self_loop_cycle_is_the_task_alone() {
    let mut detector = CycleDetector::new();
    detector.add_dependency(1, 1);
    let result = detector.detect_cycle();
    assert_eq!(result.cycle_path(), Some(&[1usize][..]));
}
