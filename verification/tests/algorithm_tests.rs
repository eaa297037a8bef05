use taskflowrs::algorithms::{
    chunk_bounds, chunk_count, exclusive_scan_in_chunks, fold_chunk, parallel_exclusive_scan, parallel_for_each,
    parallel_inclusive_scan, parallel_reduce, parallel_sort, reduce_in_chunks, scan_chunk, scan_fix, scan_in_chunks,
    scan_shift, scan_totals, merge_runs, parallel_transform, reduce_chunk_step, scan_fixup_step, scan_local_step,
    split_into_chunks, for_each_item, map_items,
};
use taskflowrs::executor::{ExecutionState, WorkerStep};
use taskflowrs::taskflow::Taskflow;
use std::sync::{Arc, Mutex};
use taskflowrs::typed_pipeline::{NoStages, PipelineBuilder, TypeSafePipeline};

type Work = Box<dyn Fn() + Send + Sync>;

fn job() -> Work {
    Box::new(|| {})
}

fn jobs(n: usize) -> Vec<Work> {
    (0..n).map(|_| job()).collect()
}

#[test]
fn chunk_math() {
    assert_eq!(chunk_count(100, 25), 4);
    assert_eq!(chunk_count(101, 25), 5);
    assert_eq!(chunk_count(0, 25), 0);
    assert_eq!(chunk_bounds(101, 25, 4), (100, 101));
    assert_eq!(chunk_bounds(101, 25, 1), (25, 50));
}

#[test]
fn scan_in_chunks_sums() {
    let data: Vec<i32> = vec![1, 2, 3, 4, 5, 6, 7, 8];
    let result = scan_in_chunks(&data, 2, &|a: i32, b: i32| a + b);
    assert_eq!(result, vec![1, 3, 6, 10, 15, 21, 28, 36]);
}

#[test]
fn exclusive_scan_in_chunks_sums() {
    let data: Vec<i32> = vec![1, 2, 3, 4, 5, 6, 7, 8];
    let result = exclusive_scan_in_chunks(&data, 2, &|a: i32, b: i32| a + b, 0);
    assert_eq!(result, vec![0, 1, 3, 6, 10, 15, 21, 28]);
}

#[test]
fn scan_in_chunks_multiplication() {
    let data: Vec<i32> = vec![2, 3, 4, 5];
    let result = scan_in_chunks(&data, 2, &|a: i32, b: i32| a * b);
    assert_eq!(result, vec![2, 6, 24, 120]);
}

#[test]
fn scan_in_chunks_large() {
    let data: Vec<i32> = (1..=100).collect();
    let result = scan_in_chunks(&data, 10, &|a: i32, b: i32| a + b);
    assert_eq!(result[99], 5050);
    assert_eq!(result[9], 55);
    assert_eq!(result[49], 1275);
}

#[test]
fn scan_in_chunks_uneven_last_chunk() {
    let data: Vec<u64> = vec![5, 1, 4, 2, 3];
    let result = scan_in_chunks(&data, 3, &|a: u64, b: u64| a.max(b));
    assert_eq!(result, vec![5, 5, 5, 5, 5]);
    let sums = scan_in_chunks(&data, 3, &|a: u64, b: u64| a + b);
    assert_eq!(sums, vec![5, 6, 10, 12, 15]);
}

#[test]
fn scan_phases_one_by_one() {
    let data: Vec<i32> = vec![1, 2, 3, 4, 5];
    let op = |a: i32, b: i32| a + b;
    let (l0, s0) = scan_chunk(&data, 0, 2, &op);
    let (l1, s1) = scan_chunk(&data, 2, 4, &op);
    let (l2, s2) = scan_chunk(&data, 4, 5, &op);
    assert_eq!((l0.clone(), s0), (vec![1, 3], 3));
    assert_eq!((l1.clone(), s1), (vec![3, 7], 7));
    assert_eq!((l2.clone(), s2), (vec![5], 5));
    let prefixes = scan_totals(&[s0, s1, s2], &op);
    assert_eq!(prefixes, vec![3, 10, 15]);
    assert_eq!(scan_fix(prefixes[0], &l1, &op), vec![6, 10]);
    assert_eq!(scan_fix(prefixes[1], &l2, &op), vec![15]);
    assert_eq!(scan_shift(&[1, 3, 6], 0), vec![0, 1, 3]);
}

#[test]
fn reduce_in_chunks_sums() {
    let data: Vec<i32> = (1..=100).collect();
    assert_eq!(reduce_in_chunks(&data, 25, 0, &|a: i32, b: i32| a + b), 5050);
}

#[test]
fn fold_chunk_folds_from_the_left() {
    assert_eq!(fold_chunk(10, &[1, 2, 3], &|a: i32, b: i32| a - b), 4);
}

#[test]
fn reduce_graph_joins_every_chunk() {
    let mut tf: Taskflow<Work> = Taskflow::new();
    let combine = parallel_reduce(&mut tf, jobs(4), job());
    assert_eq!(tf.size(), 5);
    assert_eq!(combine.get_id(), 4);
    let dot = tf.dump();
    assert!(dot.contains("[label=\"reduce_map_0\"]"));
    assert!(dot.contains("[label=\"reduce_map_3\"]"));
    assert!(dot.contains("[label=\"reduce_combine\"]"));
    for i in 0..4 {
        assert!(dot.contains(&format!("  {} -> 4;\n", i)));
    }
}

#[test]
fn for_each_graph_has_independent_tasks() {
    let mut tf: Taskflow<Work> = Taskflow::new();
    let hs = parallel_for_each(&mut tf, jobs(3));
    assert_eq!(hs.len(), 3);
    assert_eq!(
        tf.dump(),
        "digraph Taskflow {\n  0 [label=\"for_each_chunk_0\"];\n  1 [label=\"for_each_chunk_1\"];\n  2 [label=\"for_each_chunk_2\"];\n}\n"
    );
}

#[test]
fn sort_graph_shapes() {
    let mut small: Taskflow<Work> = Taskflow::new();
    let h = parallel_sort(&mut small, 10, 10, Vec::new(), job());
    assert_eq!(h.get_id(), 0);
    assert_eq!(small.dump(), "digraph Taskflow {\n  0 [label=\"sort_sequential\"];\n}\n");

    let mut big: Taskflow<Work> = Taskflow::new();
    let n = chunk_count(25, 10);
    let h = parallel_sort(&mut big, 25, 10, jobs(n), job());
    assert_eq!(h.get_id(), 3);
    let dot = big.dump();
    assert!(dot.contains("[label=\"sort_chunk_2\"]"));
    assert!(dot.contains("[label=\"sort_merge\"]"));
    assert!(dot.contains("  2 -> 3;\n"));
}

#[test]
fn scan_graph_phases() {
    let mut tf: Taskflow<Work> = Taskflow::new();
    let hs = parallel_inclusive_scan(&mut tf, 5, 2, jobs(3), job(), jobs(2));
    assert_eq!(hs.len(), 6);
    let dot = tf.dump();
    assert!(dot.contains("  3 [label=\"scan_phase2\"];\n"));
    assert!(dot.contains("  4 [label=\"scan_phase3_1\"];\n"));
    assert!(dot.contains("  5 [label=\"scan_phase3_2\"];\n"));
    assert!(dot.contains("  0 -> 3;\n") && dot.contains("  2 -> 3;\n"));
    assert!(dot.contains("  3 -> 4;\n  3 -> 5;\n"));

    let mut empty: Taskflow<Work> = Taskflow::new();
    let none = parallel_inclusive_scan(&mut empty, 0, 2, Vec::new(), job(), Vec::new());
    assert!(none.is_empty());
    assert!(empty.is_empty());
}

#[test]
fn exclusive_scan_graph_ends_with_shift() {
    let mut tf: Taskflow<Work> = Taskflow::new();
    let hs = parallel_exclusive_scan(&mut tf, 4, 2, jobs(2), job(), jobs(1), job());
    assert_eq!(hs.len(), 5);
    let dot = tf.dump();
    assert!(dot.contains("  4 [label=\"scan_shift\"];\n"));
    for i in 0..4 {
        assert!(dot.contains(&format!("  {} -> 4;\n", i)));
    }
}

#[test]
fn merge_runs_takes_least_heads() {
    let runs = vec![vec![1, 4, 7], vec![2, 5], vec![3, 6, 8]];
    let merged = merge_runs(&runs, &|a: &i32, b: &i32| a < b);
    assert_eq!(merged, vec![1, 2, 3, 4, 5, 6, 7, 8]);
}

#[test]
fn merge_runs_keeps_earlier_run_on_ties() {
    let runs = vec![vec![(1, 'a'), (2, 'a')], vec![(1, 'b')]];
    let merged = merge_runs(&runs, &|a: &(i32, char), b: &(i32, char)| a.0 < b.0);
    assert_eq!(merged, vec![(1, 'a'), (1, 'b'), (2, 'a')]);
    let empty: Vec<Vec<i32>> = vec![vec![], vec![]];
    assert!(merge_runs(&empty, &|a: &i32, b: &i32| a < b).is_empty());
}

#[test]
fn merging_sorted_runs_sorts_all_items() {
    let mut runs: Vec<Vec<u64>> = Vec::new();
    let mut seed: u64 = 12345;
    for r in 0..5 {
        let mut run: Vec<u64> = (0..(3 + r * 2)).map(|_| {
            seed = seed.wrapping_mul(6364136223846793005).wrapping_add(1442695040888963407);
            (seed >> 33) % 50
        }).collect();
        run.sort();
        runs.push(run);
    }
    let merged = merge_runs(&runs, &|a: &u64, b: &u64| a < b);
    let mut all: Vec<u64> = runs.concat();
    all.sort();
    assert_eq!(merged, all);
}

#[test]
fn test_type_safe_pipeline() {
    let pipeline = TypeSafePipeline::new()
        .stage(|x: i32| x * 2)
        .stage(|x: i32| x + 10)
        .stage(|x: i32| x as f64)
        .stage(|x: f64| format!("{:.2}", x));

    let result = pipeline.execute(5);
    assert_eq!(result, "20.00");
}

#[test]
fn typed_pipeline_layouts() {
    let empty: TypeSafePipeline<i32, i32, NoStages> = TypeSafePipeline::new();
    assert_eq!(empty.execute(7), 7);
    let mut tf: Taskflow<Work> = Taskflow::new();
    let h = empty.build_taskflow(&mut tf, jobs(1));
    assert_eq!(h.get_id(), 0);
    assert_eq!(tf.dump(), "digraph Taskflow {\n  0 [label=\"pipeline_passthrough\"];\n}\n");

    let p = PipelineBuilder::new().map(|x: u8| x as u32 + 1).stage(|x: u32| x * 3);
    assert_eq!(p.stage_count(), 2);
    assert_eq!(p.execute(4), 15);
    let mut tf2: Taskflow<Work> = Taskflow::new();
    let last = p.build_taskflow(&mut tf2, jobs(2));
    assert_eq!(last.get_id(), 1);
    assert_eq!(
        tf2.dump(),
        "digraph Taskflow {\n  0 [label=\"pipeline_stage_0\"];\n  0 -> 1;\n  1 [label=\"pipeline_stage_1\"];\n}\n"
    );
}

/// Runs every task of `tf` once, in the order the library's executor
/// state hands them out.
fn run_graph(tf: &mut Taskflow<Work>) {
    let mut st = ExecutionState::start(tf);
    loop {
        match st.next_step() {
            WorkerStep::Run(id) => {
                if let Some(w) = tf.take_work(id) {
                    w();
                }
                st.complete(tf, id, None);
            }
            WorkerStep::Finish | WorkerStep::Exit => break,
            WorkerStep::Wait => panic!("a task is waiting on nothing"),
        }
    }
}

fn scan_graph(data: Vec<i32>, chunk_size: usize, op: fn(i32, i32) -> i32, identity: i32, exclusive: bool) -> Vec<i32> {
    let len = data.len();
    let n = chunk_count(len, chunk_size);
    let input = Arc::new(data);
    let result = Arc::new(Mutex::new(vec![identity; len]));
    let sums = Arc::new(Mutex::new(vec![identity; n]));
    let prefixes = Arc::new(Mutex::new(Vec::new()));
    let out = Arc::new(Mutex::new(Vec::new()));
    let phase1: Vec<Work> = (0..n)
        .map(|c| {
            let (input, result, sums) = (Arc::clone(&input), Arc::clone(&result), Arc::clone(&sums));
            Box::new(move || {
                let total = scan_local_step(&input, chunk_size, c, &mut result.lock().unwrap(), &op);
                sums.lock().unwrap()[c] = total;
            }) as Work
        })
        .collect();
    let (s2, p2) = (Arc::clone(&sums), Arc::clone(&prefixes));
    let phase2: Work = Box::new(move || {
        let sums = s2.lock().unwrap().clone();
        *p2.lock().unwrap() = scan_totals(&sums, &op);
    });
    let phase3: Vec<Work> = (1..n)
        .map(|c| {
            let (prefixes, result) = (Arc::clone(&prefixes), Arc::clone(&result));
            Box::new(move || {
                let p = prefixes.lock().unwrap().clone();
                scan_fixup_step(&p, chunk_size, c, &mut result.lock().unwrap(), &op);
            }) as Work
        })
        .collect();
    let mut tf: Taskflow<Work> = Taskflow::new();
    if exclusive {
        let (r, o) = (Arc::clone(&result), Arc::clone(&out));
        let shift: Work = Box::new(move || {
            let incl = r.lock().unwrap().clone();
            *o.lock().unwrap() = scan_shift(&incl, identity);
        });
        parallel_exclusive_scan(&mut tf, len, chunk_size, phase1, phase2, phase3, shift);
        run_graph(&mut tf);
        let v = out.lock().unwrap().clone();
        v
    } else {
        parallel_inclusive_scan(&mut tf, len, chunk_size, phase1, phase2, phase3);
        run_graph(&mut tf);
        let v = result.lock().unwrap().clone();
        v
    }
}

#[test]
fn test_parallel_inclusive_scan() {
    let data: Vec<i32> = vec![1, 2, 3, 4, 5, 6, 7, 8];
    let result = scan_graph(data, 2, |a, b| a + b, 0, false);
    assert_eq!(result, vec![1, 3, 6, 10, 15, 21, 28, 36]);
}

#[test]
fn test_parallel_exclusive_scan() {
    let data: Vec<i32> = vec![1, 2, 3, 4, 5, 6, 7, 8];
    let result = scan_graph(data, 2, |a, b| a + b, 0, true);
    assert_eq!(result, vec![0, 1, 3, 6, 10, 15, 21, 28]);
}

#[test]
fn test_parallel_scan_multiplication() {
    let data: Vec<i32> = vec![2, 3, 4, 5];
    let result = scan_graph(data, 2, |a, b| a * b, 1, false);
    assert_eq!(result, vec![2, 6, 24, 120]);
}

#[test]
fn test_parallel_scan_large() {
    let data: Vec<i32> = (1..=100).collect();
    let result = scan_graph(data, 10, |a, b| a + b, 0, false);
    assert_eq!(result[99], 5050);
    assert_eq!(result[9], 55);
    assert_eq!(result[49], 1275);
}

#[test]
fn test_parallel_reduce() {
    let data: Vec<i32> = (1..=100).collect();
    let chunk_size = 25;
    let n = chunk_count(data.len(), chunk_size);
    let input = Arc::new(data);
    let partials = Arc::new(Mutex::new(vec![0; n]));
    let result = Arc::new(Mutex::new(0));
    let op = |a: i32, b: i32| a + b;
    let maps: Vec<Work> = (0..n)
        .map(|c| {
            let (input, partials) = (Arc::clone(&input), Arc::clone(&partials));
            Box::new(move || {
                let r = reduce_chunk_step(&input, chunk_size, c, 0, &op);
                partials.lock().unwrap()[c] = r;
            }) as Work
        })
        .collect();
    let (p, out) = (Arc::clone(&partials), Arc::clone(&result));
    let combine: Work = Box::new(move || {
        let parts = p.lock().unwrap().clone();
        *out.lock().unwrap() = fold_chunk(0, &parts, &op);
    });
    let mut tf: Taskflow<Work> = Taskflow::new();
    parallel_reduce(&mut tf, maps, combine);
    assert_eq!(tf.size(), n + 1);
    run_graph(&mut tf);
    assert_eq!(*result.lock().unwrap(), 5050);
}

#[test]
fn test_parallel_for_each() {
    let data: Vec<i32> = (0..100).collect();
    let counter = Arc::new(Mutex::new(0));
    let chunks = split_into_chunks(data, 25);
    assert_eq!(chunks.len(), 4);
    let works: Vec<Work> = chunks
        .into_iter()
        .map(|chunk| {
            let counter = Arc::clone(&counter);
            let chunk = Mutex::new(Some(chunk));
            Box::new(move || {
                let items = chunk.lock().unwrap().take().unwrap();
                let c = Arc::clone(&counter);
                for_each_item(items, &move |_x: i32| *c.lock().unwrap() += 1);
            }) as Work
        })
        .collect();
    let mut tf: Taskflow<Work> = Taskflow::new();
    parallel_for_each(&mut tf, works);
    run_graph(&mut tf);
    assert_eq!(*counter.lock().unwrap(), 100);
}

#[test]
fn test_parallel_transform() {
    let data: Vec<i32> = (0..100).collect();
    let results = Arc::new(Mutex::new(Vec::new()));
    let works: Vec<Work> = split_into_chunks(data, 25)
        .into_iter()
        .map(|chunk| {
            let results = Arc::clone(&results);
            let chunk = Mutex::new(Some(chunk));
            Box::new(move || {
                let items = chunk.lock().unwrap().take().unwrap();
                let mapped = map_items(items, &|x: i32| x * 2);
                results.lock().unwrap().extend(mapped);
            }) as Work
        })
        .collect();
    let mut tf: Taskflow<Work> = Taskflow::new();
    parallel_transform(&mut tf, works);
    run_graph(&mut tf);
    let mut results = results.lock().unwrap().clone();
    assert_eq!(results.len(), 100);
    results.sort();
    assert_eq!(results, (0..100).map(|x| x * 2).collect::<Vec<i32>>());
}

#[test]
fn split_into_chunks_keeps_every_item_once() {
    let chunks = split_into_chunks((0..11).collect::<Vec<u8>>(), 4);
    assert_eq!(chunks, vec![vec![0, 1, 2, 3], vec![4, 5, 6, 7], vec![8, 9, 10]]);
    assert!(split_into_chunks(Vec::<u8>::new(), 3).is_empty());
}
