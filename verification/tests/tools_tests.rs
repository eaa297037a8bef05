use taskflowrs::dashboard::{build_html, DashboardConfig};
use taskflowrs::debug::{DebugLogger, LogLevel};
use taskflowrs::flamegraph::{escape_xml, frame_hsl, frame_tree_from_profile, parse_folded, FlamegraphConfig, FrameTree};
use taskflowrs::gpu::GpuTaskConfig;
use taskflowrs::monitoring::PerformanceMetrics;
use taskflowrs::pipeline::ConcurrentPipeline;
use taskflowrs::preemptive::{DeadlineGuard, PreemptiveCancellationToken};
use taskflowrs::profiler::{ExecutionProfile, Profiler, TaskStats};
use taskflowrs::regression::{json_string, percentile_us};
use taskflowrs::visualization::generate_dot_graph;

const MS: u128 = 1_000_000;

#[test]
fn test_logger_creation() {
    let logger = DebugLogger::new();
    assert!(!logger.is_enabled());
}

#[test]
fn test_logging() {
    let mut logger = DebugLogger::new();
    logger.enable();
    logger.set_log_level(LogLevel::Debug);

    logger.info("test", "This is a test");
    logger.debug("test", "Debug message");

    let logs = logger.get_logs();
    assert_eq!(logs.len(), 2);
}

#[test]
fn test_log_filtering() {
    let mut logger = DebugLogger::new();
    logger.enable();
    logger.set_log_level(LogLevel::Warn);

    logger.debug("test", "Should not appear");
    logger.info("test", "Should not appear");
    logger.warn("test", "Should appear");
    logger.error("test", "Should appear");

    let logs = logger.get_logs();
    assert_eq!(logs.len(), 2);
}

#[test]
fn disabled_logger_records_nothing() {
    let mut logger = DebugLogger::new();
    assert!(!logger.error("test", "dropped"));
    assert_eq!(logger.get_logs().len(), 0);
}

#[test]
fn test_profiler_enable_disable() {
    let mut profiler = Profiler::new(4);
    assert!(!profiler.is_enabled());

    profiler.enable();
    assert!(profiler.is_enabled());

    profiler.disable();
    assert!(!profiler.is_enabled());
}

#[test]
fn test_execution_profile() {
    let mut profiler = Profiler::new(4);
    profiler.enable();
    profiler.start_run(0);

    let start = 0u128;
    profiler.record_task(1, Some("task1".to_string()), start, 100 * MS, 0, 0);
    profiler.record_task(2, Some("task2".to_string()), start, 50 * MS, 1, 1);

    let profile = profiler.get_profile().unwrap();
    assert_eq!(profile.task_stats.len(), 2);
    assert_eq!(profile.num_workers, 4);
}

fn stats(task_id: usize, name: &str, start_ns: u128, duration_ns: u128, worker_id: usize, deps: usize) -> TaskStats {
    TaskStats {
        task_id,
        name: Some(name.to_string()),
        start_ns,
        duration_ns,
        worker_id,
        num_dependencies: deps,
    }
}

#[test]
fn test_profile_statistics() {
    let start = 0u128;
    let profile = ExecutionProfile {
        start_ns: start,
        total_duration_ns: 1000 * MS,
        task_stats: vec![stats(1, "task1", start, 100 * MS, 0, 0), stats(2, "task2", start, 200 * MS, 1, 1)],
        num_workers: 4,
    };

    assert_eq!(profile.longest_task().unwrap().task_id, 2);
    assert_eq!(profile.shortest_task().unwrap().task_id, 1);
    assert_eq!(profile.average_task_duration(), 150 * MS);
}

#[test]
fn critical_path_is_longest_duration() {
    let profile = ExecutionProfile {
        start_ns: 10,
        total_duration_ns: 100,
        task_stats: vec![stats(1, "a", 10, 30, 0, 0), stats(2, "b", 50, 25, 1, 1)],
        num_workers: 2,
    };
    assert_eq!(profile.critical_path_duration(), 30);
}

#[test]
fn timeline_groups_by_worker_in_start_order() {
    let profile = ExecutionProfile {
        start_ns: 0,
        total_duration_ns: 100,
        task_stats: vec![stats(1, "a", 40, 5, 0, 0), stats(2, "b", 10, 5, 0, 0), stats(3, "c", 20, 5, 1, 0)],
        num_workers: 2,
    };
    let timeline = profile.worker_timeline();
    let w0: Vec<usize> = timeline.get(&0).unwrap().iter().map(|t| t.task_id).collect();
    assert_eq!(w0, vec![2, 1]);
    assert_eq!(timeline.get(&1).unwrap().len(), 1);
}

#[test]
fn test_metrics_creation() {
    let metrics = PerformanceMetrics::new(4);
    assert_eq!(metrics.tasks_completed(), 0);
    assert_eq!(metrics.num_workers(), 4);
}

#[test]
fn test_task_completion() {
    let mut metrics = PerformanceMetrics::new(4);
    metrics.record_task_completion(100_000_000);

    assert_eq!(metrics.tasks_completed(), 1);
    assert_eq!(metrics.average_task_duration(), 100_000_000);
}

#[test]
fn worker_times_are_accumulated() {
    let mut metrics = PerformanceMetrics::new(2);
    metrics.record_worker_busy(1, 30);
    metrics.record_worker_busy(1, 12);
    metrics.record_worker_idle(1, 5);
    metrics.record_worker_idle(7, 5);
    assert_eq!(metrics.worker_times(1), (5, 42));
    assert_eq!(metrics.worker_times(7), (0, 0));
}

#[test]
fn test_concurrent_pipeline() {
    let mut pipeline = ConcurrentPipeline::new(10, 100);

    assert_eq!(pipeline.tokens_in_flight(), 0);

    pipeline.push(42).unwrap();
    assert_eq!(pipeline.tokens_in_flight(), 1);

    let token = pipeline.try_pop();
    assert!(token.is_some());
    assert_eq!(token.unwrap().data, 42);
    assert_eq!(pipeline.tokens_in_flight(), 0);
}

#[test]
fn test_backpressure() {
    let mut pipeline = ConcurrentPipeline::new(2, 10);

    assert!(pipeline.push(1).is_ok());
    assert!(pipeline.push(2).is_ok());
    assert!(pipeline.would_block());
}

#[test]
fn pipeline_refuses_beyond_token_limit() {
    let mut pipeline = ConcurrentPipeline::new(10, 2);
    assert!(pipeline.push('a').is_ok());
    assert!(pipeline.push('b').is_ok());
    assert_eq!(pipeline.push('c'), Err("Pipeline at capacity"));
    let first = pipeline.try_pop().unwrap();
    assert_eq!(first.data, 'a');
    assert_eq!(first.index, 0);
}

#[test]
fn manual_cancel() {
    let token = PreemptiveCancellationToken::new();
    assert!(!token.is_cancelled());
    assert!(token.check().is_ok());

    token.cancel();
    assert!(token.is_cancelled());
    assert!(token.check().is_err());
}

#[test]
fn cancel_with_reason() {
    let token = PreemptiveCancellationToken::new();
    token.cancel_with("budget exceeded");

    let err = token.check().unwrap_err();
    assert_eq!(err.reason.as_deref(), Some("budget exceeded"));
}

#[test]
fn reset_clears_state() {
    let token = PreemptiveCancellationToken::new();
    token.cancel_with("test");
    assert!(token.is_cancelled());

    token.reset();
    assert!(!token.is_cancelled());
    assert!(token.reason().is_none());
    assert!(token.check().is_ok());
}

#[test]
fn clone_shares_state() {
    let token = PreemptiveCancellationToken::new();
    let clone = token.clone();
    clone.cancel();
    assert!(token.is_cancelled());
}

#[test]
fn preempted_message_names_reason() {
    let token = PreemptiveCancellationToken::new();
    token.cancel_with("too slow");
    assert_eq!(token.check().unwrap_err().message(), "Task preempted: too slow");
}

#[test]
fn test_preemptive_cancellation_export() {
    let token = PreemptiveCancellationToken::new();
    assert!(!token.is_cancelled());
    token.cancel();
    assert!(token.is_cancelled());
}

#[test]
fn html_contains_canvas_and_sse() {
    let html = build_html("Test", 4);
    assert!(html.contains("<canvas"));
    assert!(html.contains("EventSource"));
    assert!(html.contains("wfill-3"));
    assert!(html.contains("#5865f2"));
}

#[test]
fn dashboard_config_default() {
    let cfg = DashboardConfig::default();
    assert_eq!(cfg.port, 9090);
    assert_eq!(cfg.push_interval_ms, 500);
}

#[test]
fn test_dot_graph_generation() {
    let tasks = vec![(1, "Task A".to_string()), (2, "Task B".to_string()), (3, "Task C".to_string())];
    let deps = vec![(1, 2), (1, 3)];

    let dot = generate_dot_graph(&tasks, &deps);
    assert!(dot.contains("digraph Taskflow"));
    assert!(dot.contains("Task A"));
    assert!(dot.contains("1 -> 2"));
}

#[test]
fn dot_graph_exact_text() {
    let tasks = vec![(7, "x".to_string())];
    let deps = vec![(7, 7)];
    assert_eq!(
        generate_dot_graph(&tasks, &deps),
        "digraph Taskflow {\n  rankdir=LR;\n  node [shape=box, style=rounded];\n\n  7 [label=\"x\"];\n\n  7 -> 7;\n}\n"
    );
}

#[test]
fn escape_xml_works() {
    assert_eq!(escape_xml("<foo>&\"'</foo>"), "&lt;foo&gt;&amp;&quot;&apos;&lt;/foo&gt;");
}

#[test]
fn color_is_deterministic() {
    let c1 = frame_hsl("my_task", "hot");
    let c2 = frame_hsl("my_task", "hot");
    assert_eq!(c1, c2);
}

#[test]
fn palette_ranges() {
    let (h, s, l) = frame_hsl("", "hot");
    // 5381 % 360 = 341; 341 % 60 + 10 = 51; 5381 % 30 = 11; 5381 % 20 = 1
    assert_eq!((h, s, l), (51, 71, 46));
    let (hc, _, _) = frame_hsl("", "cool");
    assert_eq!(hc, 180 + 341 % 120);
    let (hp, _, _) = frame_hsl("", "purple");
    assert_eq!(hp, 260 + 341 % 60);
}

#[test]
fn flamegraph_config_default() {
    let cfg = FlamegraphConfig::default();
    assert_eq!(cfg.width, 1200);
    assert_eq!(cfg.row_height, 22);
    assert_eq!(cfg.title, "Flamegraph");
    assert_eq!(cfg.palette, "hot");
}

fn child_named(tree: &FrameTree, at: usize, name: &str) -> Option<usize> {
    tree.nodes[at].children.iter().copied().find(|&c| tree.nodes[c].name == name)
}

#[test]
fn folded_parser_merges_same_name() {
    let folded = "a;b 10\na;b 20\n";
    let root = parse_folded(folded);
    let a = child_named(&root, 0, "a").unwrap();
    let b = child_named(&root, a, "b").unwrap();
    assert_eq!(root.nodes[b].total, 30);
}

#[test]
fn folded_parser_totals_and_skips() {
    let folded = "# comment\n\nWorker0;task_a 300\r\nWorker1;task_b;subtask 200\nnocount\nbad x\n  Worker0 ; task_c  +5  \n";
    let tree = parse_folded(folded);
    assert_eq!(tree.nodes[0].name, "all");
    assert_eq!(tree.nodes[0].total, 505);
    let w0 = child_named(&tree, 0, "Worker0").unwrap();
    assert_eq!(tree.nodes[w0].total, 305);
    assert_eq!(tree.nodes[w0].self_samples, 0);
    let c = child_named(&tree, w0, "task_c").unwrap();
    assert_eq!(tree.nodes[c].total, 5);
    let w1 = child_named(&tree, 0, "Worker1").unwrap();
    let b = child_named(&tree, w1, "task_b").unwrap();
    let sub = child_named(&tree, b, "subtask").unwrap();
    assert_eq!(tree.nodes[sub].total, 200);
    assert_eq!(tree.nodes[b].self_samples, 0);
    assert_eq!(tree.nodes[0].children.len(), 2);
}

#[test]
fn profile_frames_by_worker() {
    let start = 0u128;
    let profile = ExecutionProfile {
        start_ns: start,
        total_duration_ns: 500 * MS,
        task_stats: vec![
            stats(1, "Load", start, 100 * MS, 0, 0),
            stats(2, "Compute", start, 300 * MS, 1, 1),
            TaskStats { task_id: 3, name: None, start_ns: start + 5, duration_ns: 0, worker_id: 1, num_dependencies: 0 },
            stats(4, "Idle", start, 7 * MS, 9, 0),
        ],
        num_workers: 3,
    };
    let tree = frame_tree_from_profile(&profile);
    assert_eq!(tree.nodes[0].name, "all");
    assert_eq!(tree.nodes[0].total, 500_000);
    assert_eq!(tree.nodes[0].self_samples, 100_000);
    assert_eq!(tree.nodes[0].children.len(), 2);
    let w0 = child_named(&tree, 0, "Worker 0").unwrap();
    let w1 = child_named(&tree, 0, "Worker 1").unwrap();
    assert!(child_named(&tree, 0, "Worker 2").is_none());
    let load = child_named(&tree, w0, "Load [id=1]").unwrap();
    assert_eq!(tree.nodes[load].total, 100_000);
    assert_eq!(tree.nodes[w1].total, 300_000);
    let names: Vec<&str> = tree.nodes[w1].children.iter().map(|&c| tree.nodes[c].name.as_str()).collect();
    assert_eq!(names, vec!["Compute [id=2]", "task [id=3]"]);
    assert_eq!(tree.nodes[w1].self_samples, 0);
}

#[test]
fn percentile_edge_cases() {
    assert_eq!(percentile_us(&[], 95), 0);
    assert_eq!(percentile_us(&[42], 50), 42);
    assert_eq!(percentile_us(&[1, 2, 3, 4, 100], 99), 100);
}

#[test]
fn percentile_sorts_before_ranking() {
    assert_eq!(percentile_us(&[9, 1, 5, 3, 7], 50), 5);
    assert_eq!(percentile_us(&[9, 1, 5, 3, 7], 0), 1);
    assert_eq!(percentile_us(&[9, 1, 5, 3, 7], 255), 9);
}

#[test]
fn json_string_escapes() {
    assert_eq!(json_string("a\"b\\c\nd\re"), "\"a\\\"b\\\\c\\nd\\re\"");
    assert_eq!(json_string(""), "\"\"");
}

#[test]
fn test_task_config_linear() {
    let cfg = GpuTaskConfig::linear(1024, 256);
    assert_eq!(cfg.grid_dim, (4, 1, 1));
    assert_eq!(cfg.block_dim, (256, 1, 1));
}

#[test]
fn test_task_config_2d() {
    let cfg = GpuTaskConfig::grid_2d(1920, 1080, (16, 16));
    assert_eq!(cfg.grid_dim, (120, 68, 1));
    assert_eq!(cfg.block_dim, (16, 16, 1));
}

#[test]
fn deadline_guard_cancels_on_expiry() {
    let token = PreemptiveCancellationToken::new();
    {
        let guard = DeadlineGuard::new(token.clone(), 0, 10 * MS);
        // closed 30 ms after it started
        assert!(guard.close(30 * MS));
    }
    assert!(token.is_cancelled());
    assert_eq!(token.reason().as_deref(), Some("deadline elapsed"));
}

#[test]
fn deadline_guard_budget_arithmetic() {
    let token = PreemptiveCancellationToken::new();
    let guard = DeadlineGuard::new(token.clone(), 5 * MS, 20 * MS);
    assert_eq!(guard.remaining(0), 20 * MS);
    assert_eq!(guard.remaining(15 * MS), 10 * MS);
    assert_eq!(guard.remaining(40 * MS), 0);
    assert!(!guard.is_expired(24 * MS));
    assert!(guard.is_expired(25 * MS));
    assert!(!guard.close(10 * MS));
    assert!(!guard.token().is_cancelled());
}
