//! Execution profiles: what each task of a run took, and the statistics
//! drawn from it.  Instants are nanoseconds since an origin chosen by the
//! caller; durations are nanoseconds.

use vstd::prelude::*;

use std::collections::HashMap;

use crate::task::TaskId;

verus! {

broadcast use vstd::std_specs::hash::group_hash_axioms;

/// Nanoseconds in a second.
pub const NANOS_PER_SEC: u128 = 1_000_000_000u128;

/// The longest duration there is: `u64::MAX` seconds and 999 999 999
/// nanoseconds.
pub const MAX_DURATION_NANOS: u128 = 18_446_744_073_709_551_615_999_999_999u128;

/// What one task of a run took.
pub struct TaskStats {
    pub task_id: TaskId,
    pub name: Option<String>,
    /// When the task started, in nanoseconds since the origin.
    pub start_ns: u128,
    /// How long the task ran, in nanoseconds.
    pub duration_ns: u128,
    pub worker_id: usize,
    pub num_dependencies: usize,
}

/// The sum of the task durations.
pub open spec fn total_work(s: Seq<TaskStats>) -> nat
    decreases s.len(),
{
    if s.len() == 0 {
        0
    } else {
        total_work(s.drop_last()) + s.last().duration_ns as nat
    }
}

/// A duration of `t` nanoseconds divided by `r`, as durations divide: the
/// seconds and the nanoseconds below a second are divided apart, and the
/// remainders of both are carried into nanoseconds.
pub open spec fn duration_div(t: nat, r: nat) -> nat {
    let secs = t / 1_000_000_000;
    let nanos = t % 1_000_000_000;
    (secs / r) * 1_000_000_000 + nanos / r + ((secs % r) * 1_000_000_000 + nanos % r) / r
}

/// Dividing a duration by `r` gives the whole number of nanoseconds of
/// `t / r`, rounded down: `d * r <= t < (d + 1) * r`.
pub proof fn lemma_duration_div_is_floor(t: nat, r: nat)
    requires
        r > 0,
    ensures
        duration_div(t, r) == t / r,
        duration_div(t, r) * r <= t < (duration_div(t, r) + 1) * r,
{
    let secs: int = (t / 1_000_000_000) as int;
    let nanos: int = (t % 1_000_000_000) as int;
    let q: int = secs / (r as int);
    let a: int = secs % (r as int);
    let b: int = nanos / (r as int);
    let c: int = nanos % (r as int);
    let w: int = (a * 1_000_000_000 + c) / (r as int);
    let e: int = (a * 1_000_000_000 + c) % (r as int);
    vstd::arithmetic::div_mod::lemma_fundamental_div_mod(t as int, 1_000_000_000);
    vstd::arithmetic::div_mod::lemma_fundamental_div_mod(secs, r as int);
    vstd::arithmetic::div_mod::lemma_fundamental_div_mod(nanos, r as int);
    vstd::arithmetic::div_mod::lemma_fundamental_div_mod(a * 1_000_000_000 + c, r as int);
    assert(0 <= e < r) by {
        vstd::arithmetic::div_mod::lemma_mod_bound(a * 1_000_000_000 + c, r as int);
    };
    assert(t == (q * 1_000_000_000 + b + w) * r + e) by (nonlinear_arith)
        requires
            t == 1_000_000_000 * secs + nanos,
            secs == r * q + a,
            nanos == r * b + c,
            a * 1_000_000_000 + c == r * w + e,
    ;
    vstd::arithmetic::div_mod::lemma_fundamental_div_mod_converse(t as int, r as int, q * 1_000_000_000 + b + w, e);
    assert(duration_div(t, r) == q * 1_000_000_000 + b + w);
    assert(duration_div(t, r) * r <= t < (duration_div(t, r) + 1) * r) by (nonlinear_arith)
        requires
            t == duration_div(t, r) * r + e,
            0 <= e < r,
    ;
}

/// Index of a longest task, the last of them on ties.
pub open spec fn is_last_longest(s: Seq<TaskStats>, i: int) -> bool {
    &&& 0 <= i < s.len()
    &&& forall|j: int| 0 <= j < s.len() ==> #[trigger] s[j].duration_ns <= s[i].duration_ns
    &&& forall|j: int| i < j < s.len() ==> #[trigger] s[j].duration_ns < s[i].duration_ns
}

/// Index of a shortest task, the first of them on ties.
pub open spec fn is_first_shortest(s: Seq<TaskStats>, i: int) -> bool {
    &&& 0 <= i < s.len()
    &&& forall|j: int| 0 <= j < s.len() ==> s[i].duration_ns <= #[trigger] s[j].duration_ns
    &&& forall|j: int| 0 <= j < i ==> s[i].duration_ns < #[trigger] s[j].duration_ns
}

/// The profile of one run.
pub struct ExecutionProfile {
    /// When the run started, in nanoseconds since the origin.
    pub start_ns: u128,
    /// How long the run took, in nanoseconds.
    pub total_duration_ns: u128,
    pub task_stats: Vec<TaskStats>,
    pub num_workers: usize,
}

impl ExecutionProfile {
    /// The duration of the longest task, or zero when there is none.
    pub fn critical_path_duration(&self) -> (d: u128)
        ensures
            self.task_stats@.len() == 0 ==> d == 0,
            self.task_stats@.len() > 0 ==> exists|i: int| #[trigger] is_last_longest(self.task_stats@, i)
                && d == self.task_stats@[i].duration_ns,
    {
        match self.longest_index() {
            Some(i) => self.task_stats[i].duration_ns,
            None => 0,
        }
    }

    fn longest_index(&self) -> (r: Option<usize>)
        ensures
            r is None <==> self.task_stats@.len() == 0,
            r matches Some(i) ==> is_last_longest(self.task_stats@, i as int),
    {
        if self.task_stats.len() == 0 {
            return None;
        }
        let mut best: usize = 0;
        let mut k: usize = 1;
        while k < self.task_stats.len()
            invariant
                1 <= k <= self.task_stats@.len(),
                best < k,
                forall|j: int| 0 <= j < k ==> #[trigger] self.task_stats@[j].duration_ns <= self.task_stats@[best as int].duration_ns,
                forall|j: int| best < j < k ==> #[trigger] self.task_stats@[j].duration_ns < self.task_stats@[best as int].duration_ns,
            decreases self.task_stats@.len() - k,
        {
            if self.task_stats[k].duration_ns >= self.task_stats[best].duration_ns {
                best = k;
            }
            k = k + 1;
        }
        Some(best)
    }

    fn shortest_index(&self) -> (r: Option<usize>)
        ensures
            r is None <==> self.task_stats@.len() == 0,
            r matches Some(i) ==> is_first_shortest(self.task_stats@, i as int),
    {
        if self.task_stats.len() == 0 {
            return None;
        }
        let mut best: usize = 0;
        let mut k: usize = 1;
        while k < self.task_stats.len()
            invariant
                1 <= k <= self.task_stats@.len(),
                best < k,
                forall|j: int| 0 <= j < k ==> self.task_stats@[best as int].duration_ns <= #[trigger] self.task_stats@[j].duration_ns,
                forall|j: int| 0 <= j < best ==> self.task_stats@[best as int].duration_ns < #[trigger] self.task_stats@[j].duration_ns,
            decreases self.task_stats@.len() - k,
        {
            if self.task_stats[k].duration_ns < self.task_stats[best].duration_ns {
                best = k;
            }
            k = k + 1;
        }
        Some(best)
    }

    /// The mean task duration, zero when there is no task.  Durations add
    /// up without exceeding the longest duration there is.
    pub fn average_task_duration(&self) -> (d: u128)
        requires
            total_work(self.task_stats@) <= MAX_DURATION_NANOS,
            self.task_stats@.len() <= u32::MAX,
        ensures
            self.task_stats@.len() == 0 ==> d == 0,
            self.task_stats@.len() > 0 ==> d == duration_div(total_work(self.task_stats@), self.task_stats@.len()),
            self.task_stats@.len() > 0 ==> d * self.task_stats@.len() <= total_work(self.task_stats@)
                < (d + 1) * self.task_stats@.len(),
    {
        let n = self.task_stats.len();
        if n == 0 {
            return 0;
        }
        let mut total: u128 = 0;
        let mut k: usize = 0;
        while k < n
            invariant
                n == self.task_stats@.len(),
                0 <= k <= n,
                total_work(self.task_stats@) <= MAX_DURATION_NANOS,
                total == total_work(self.task_stats@.subrange(0, k as int)),
            decreases n - k,
        {
            proof {
                let sub = self.task_stats@.subrange(0, k as int + 1);
                assert(sub.drop_last() =~= self.task_stats@.subrange(0, k as int));
                lemma_total_work_prefix(self.task_stats@, k as int + 1);
            }
            total = total + self.task_stats[k].duration_ns;
            k = k + 1;
        }
        proof {
            assert(self.task_stats@.subrange(0, n as int) =~= self.task_stats@);
        }
        let r = n as u128;
        let secs = total / NANOS_PER_SEC;
        let nanos = total % NANOS_PER_SEC;
        let rem = secs % r;
        assert(rem * 1_000_000_000 <= u32::MAX * 1_000_000_000) by (nonlinear_arith)
            requires
                rem < r,
                r <= u32::MAX,
        ;
        let carry = (rem * NANOS_PER_SEC + nanos % r) / r;
        assert(carry <= 1_000_000_000) by (nonlinear_arith)
            requires
                carry == (rem * 1_000_000_000 + nanos % r) / (r as int),
                rem < r,
                nanos % r < r,
                r >= 1,
        ;
        let whole = secs / r;
        assert(whole * 1_000_000_000 <= total) by (nonlinear_arith)
            requires
                whole == secs / r,
                secs == total / 1_000_000_000,
                r >= 1,
        {
            assert(whole <= secs);
        }
        proof {
            lemma_duration_div_is_floor(total as nat, r as nat);
        }
        whole * NANOS_PER_SEC + nanos / r + carry
    }

    /// A longest task, the last of them on ties.
    pub fn longest_task(&self) -> (r: Option<&TaskStats>)
        ensures
            r is None <==> self.task_stats@.len() == 0,
            r matches Some(t) ==> exists|i: int| #[trigger] is_last_longest(self.task_stats@, i) && *t == self.task_stats@[i],
    {
        match self.longest_index() {
            Some(i) => Some(&self.task_stats[i]),
            None => None,
        }
    }

    /// A shortest task, the first of them on ties.
    pub fn shortest_task(&self) -> (r: Option<&TaskStats>)
        ensures
            r is None <==> self.task_stats@.len() == 0,
            r matches Some(t) ==> exists|i: int| #[trigger] is_first_shortest(self.task_stats@, i) && *t == self.task_stats@[i],
    {
        match self.shortest_index() {
            Some(i) => Some(&self.task_stats[i]),
            None => None,
        }
    }
}

/// `r` lists the positions of the tasks that worker `w` ran, by start and,
/// on equal starts, by position.
pub open spec fn is_timeline(s: Seq<TaskStats>, w: usize, r: Seq<int>) -> bool {
    &&& forall|k: int| 0 <= k < r.len() ==> 0 <= #[trigger] r[k] < s.len() && s[r[k]].worker_id == w
    &&& forall|i: int| 0 <= i < s.len() && #[trigger] s[i].worker_id == w ==> r.contains(i)
    &&& forall|a: int, b: int| 0 <= a < b < r.len() ==> (s[#[trigger] r[a]].start_ns < s[#[trigger] r[b]].start_ns
        || (s[r[a]].start_ns == s[r[b]].start_ns && r[a] < r[b]))
}

/// Position `a` comes before position `b`: earlier start, or the same
/// start and a lower position.
pub open spec fn by_start_pair(s: Seq<TaskStats>, a: usize, b: usize) -> bool {
    s[a as int].start_ns < s[b as int].start_ns || (s[a as int].start_ns == s[b as int].start_ns && a < b)
}

/// The positions in `r` are in order of start and then of position.
pub open spec fn by_start(s: Seq<TaskStats>, r: Seq<usize>) -> bool {
    forall|a: int, b: int| 0 <= a < b < r.len() ==> #[trigger] by_start_pair(s, r[a], r[b])
}

/// The positions in `r` are below `i` and hold tasks of worker `w`.
pub open spec fn positions_below(s: Seq<TaskStats>, w: usize, r: Seq<usize>, i: int) -> bool {
    forall|k: int| 0 <= k < r.len() ==> #[trigger] r[k] < i && i <= s.len() && s[r[k] as int].worker_id == w
}

proof fn lemma_insert_by_start(s: Seq<TaskStats>, w: usize, r0: Seq<usize>, i: usize, q: int)
    requires
        i < s.len(),
        s[i as int].worker_id == w,
        0 <= q <= r0.len(),
        positions_below(s, w, r0, i as int),
        by_start(s, r0),
        forall|k: int| 0 <= k < q ==> s[#[trigger] r0[k] as int].start_ns <= s[i as int].start_ns,
        q < r0.len() ==> s[r0[q] as int].start_ns > s[i as int].start_ns,
    ensures
        positions_below(s, w, r0.insert(q, i), i + 1),
        by_start(s, r0.insert(q, i)),
        forall|x: usize| #[trigger] r0.insert(q, i).contains(x) <==> (r0.contains(x) || x == i),
{
    let r = r0.insert(q, i);
    assert forall|k: int| 0 <= k < r.len() implies #[trigger] r[k] < i + 1 && i + 1 <= s.len() && s[r[k] as int].worker_id == w by {
        if k < q {
            assert(r[k] == r0[k]);
        } else if k > q {
            assert(r[k] == r0[k - 1]);
        }
    }
    assert forall|a: int, b: int| 0 <= a < b < r.len() implies #[trigger] by_start_pair(s, r[a], r[b]) by {
        if a == q {
            assert(r[b] == r0[b - 1]);
            assert(r0[b - 1] < i);
            if b - 1 > q {
                assert(by_start_pair(s, r0[q], r0[b - 1]));
            }
        } else if b == q {
            assert(r[a] == r0[a]);
            assert(s[r0[a] as int].start_ns <= s[i as int].start_ns);
            assert(r0[a] < i);
        } else {
            let ia = if a < q { a } else { a - 1 };
            let ib = if b < q { b } else { b - 1 };
            assert(r[a] == r0[ia]);
            assert(r[b] == r0[ib]);
            assert(by_start_pair(s, r0[ia], r0[ib]));
        }
    }
    assert forall|x: usize| #[trigger] r.contains(x) <==> (r0.contains(x) || x == i) by {
        if r.contains(x) {
            let k = choose|k: int| 0 <= k < r.len() && r[k] == x;
            if k < q {
                assert(r0[k] == x);
            } else if k > q {
                assert(r0[k - 1] == x);
            }
        }
        if r0.contains(x) {
            let k = choose|k: int| 0 <= k < r0.len() && r0[k] == x;
            if k < q {
                assert(r[k] == x);
            } else {
                assert(r[k + 1] == x);
            }
        }
        if x == i {
            assert(r[q] == i);
        }
    }
}

impl ExecutionProfile {
    /// The positions of the tasks of worker `w`, by start and then by position.
    pub(crate) fn timeline_positions(&self, w: usize) -> (r: Vec<usize>)
        ensures
            is_timeline(self.task_stats@, w, r@.map_values(|p: usize| p as int)),
    {
        let s = &self.task_stats;
        let mut r: Vec<usize> = Vec::new();
        let mut i: usize = 0;
        while i < s.len()
            invariant
                0 <= i <= s@.len(),
                positions_below(s@, w, r@, i as int),
                forall|j: int| 0 <= j < i && #[trigger] s@[j].worker_id == w ==> r@.contains(j as usize),
                by_start(s@, r@),
            decreases s@.len() - i,
        {
            if s[i].worker_id == w {
                let st = s[i].start_ns;
                let mut q: usize = 0;
                while q < r.len() && s[r[q]].start_ns <= st
                    invariant
                        0 <= q <= r@.len(),
                        i < s@.len(),
                        st == s@[i as int].start_ns,
                        positions_below(s@, w, r@, i as int),
                        forall|k: int| 0 <= k < q ==> s@[#[trigger] r@[k] as int].start_ns <= st,
                    decreases r@.len() - q,
                {
                    q = q + 1;
                }
                let ghost r0 = r@;
                proof {
                    lemma_insert_by_start(s@, w, r0, i, q as int);
                }
                r.insert(q, i);
                proof {
                    assert forall|j: int| 0 <= j < i + 1 && #[trigger] s@[j].worker_id == w implies r@.contains(j as usize) by {
                        if j < i {
                            assert(r0.contains(j as usize));
                        }
                    }
                }
            } else {
                proof {
                    assert forall|j: int| 0 <= j < i + 1 && #[trigger] s@[j].worker_id == w implies r@.contains(j as usize) by {
                    }
                }
            }
            i = i + 1;
        }
        proof {
            let m = r@.map_values(|p: usize| p as int);
            assert forall|i2: int| 0 <= i2 < s@.len() && #[trigger] s@[i2].worker_id == w implies m.contains(i2) by {
                let k = choose|k: int| 0 <= k < r@.len() && r@[k] == i2 as usize;
                assert(m[k] == i2);
            }
            assert forall|a: int, b: int| 0 <= a < b < m.len() implies (s@[#[trigger] m[a]].start_ns < s@[#[trigger] m[b]].start_ns
                || (s@[m[a]].start_ns == s@[m[b]].start_ns && m[a] < m[b])) by {
                assert(m[a] == r@[a] as int && m[b] == r@[b] as int);
                assert(by_start_pair(s@, r@[a], r@[b]));
            }
            assert forall|k: int| 0 <= k < m.len() implies 0 <= #[trigger] m[k] < s@.len() && s@[m[k]].worker_id == w by {
                assert(m[k] == r@[k] as int);
                assert(r@[k] < i);
            }
        }
        r
    }

    /// The tasks each worker ran, by start and, on equal starts, in the
    /// order they were recorded.
    pub fn worker_timeline(&self) -> (m: HashMap<usize, Vec<&TaskStats>>)
        ensures
            forall|w: usize| #[trigger] m@.contains_key(w) <==> exists|i: int| 0 <= i < self.task_stats@.len()
                && self.task_stats@[i].worker_id == w,
            forall|w: usize| #[trigger] m@.contains_key(w) ==> exists|r: Seq<int>| #[trigger] is_timeline(self.task_stats@, w, r)
                && m@[w]@.len() == r.len()
                && forall|k: int| 0 <= k < r.len() ==> *(#[trigger] m@[w]@[k]) == self.task_stats@[r[k]],
    {
        let mut m: HashMap<usize, Vec<&TaskStats>> = HashMap::new();
        let mut i: usize = 0;
        while i < self.task_stats.len()
            invariant
                0 <= i <= self.task_stats@.len(),
                forall|w: usize| #[trigger] m@.contains_key(w) <==> exists|j: int| 0 <= j < i
                    && self.task_stats@[j].worker_id == w,
                forall|w: usize| #[trigger] m@.contains_key(w) ==> exists|r: Seq<int>| #[trigger] is_timeline(self.task_stats@, w, r)
                    && m@[w]@.len() == r.len()
                    && forall|k: int| 0 <= k < r.len() ==> *(#[trigger] m@[w]@[k]) == self.task_stats@[r[k]],
            decreases self.task_stats@.len() - i,
        {
            let w = self.task_stats[i].worker_id;
            if !m.contains_key(&w) {
                let pos = self.timeline_positions(w);
                let mut tasks: Vec<&TaskStats> = Vec::new();
                let mut k: usize = 0;
                while k < pos.len()
                    invariant
                        0 <= k <= pos@.len(),
                        is_timeline(self.task_stats@, w, pos@.map_values(|p: usize| p as int)),
                        tasks@.len() == k,
                        forall|j: int| 0 <= j < k ==> *(#[trigger] tasks@[j]) == self.task_stats@[pos@[j] as int],
                    decreases pos@.len() - k,
                {
                    proof {
                        assert(pos@.map_values(|p: usize| p as int)[k as int] == pos@[k as int] as int);
                    }
                    tasks.push(&self.task_stats[pos[k]]);
                    k = k + 1;
                }
                let ghost rr = pos@.map_values(|p: usize| p as int);
                m.insert(w, tasks);
                proof {
                    assert(m@[w]@.len() == rr.len());
                    assert forall|k2: int| 0 <= k2 < rr.len() implies *(#[trigger] m@[w]@[k2]) == self.task_stats@[rr[k2]] by {
                        assert(rr[k2] == pos@[k2] as int);
                    }
                    assert(is_timeline(self.task_stats@, w, rr));
                }
            }
            proof {
                assert forall|w2: usize| #[trigger] m@.contains_key(w2) <==> exists|j: int| 0 <= j < i + 1
                    && self.task_stats@[j].worker_id == w2 by {
                    if w2 == w {
                        assert(self.task_stats@[i as int].worker_id == w2);
                    }
                    if exists|j: int| 0 <= j < i + 1 && self.task_stats@[j].worker_id == w2 {
                        let j = choose|j: int| 0 <= j < i + 1 && self.task_stats@[j].worker_id == w2;
                        if j < i {
                            assert(exists|j3: int| 0 <= j3 < i && self.task_stats@[j3].worker_id == w2);
                        }
                    }
                }
            }
            i = i + 1;
        }
        m
    }
}

proof fn lemma_total_work_prefix(s: Seq<TaskStats>, k: int)
    requires
        0 <= k <= s.len(),
    ensures
        total_work(s.subrange(0, k)) <= total_work(s),
    decreases s.len() - k,
{
    if k < s.len() {
        lemma_total_work_prefix(s, k + 1);
        assert(s.subrange(0, k + 1).drop_last() =~= s.subrange(0, k));
    } else {
        assert(s.subrange(0, k) =~= s);
    }
}

/// The latest end of a task, start plus duration.
pub open spec fn latest_end(s: Seq<TaskStats>) -> nat
    decreases s.len(),
{
    if s.len() == 0 {
        0
    } else {
        let e = (s.last().start_ns + s.last().duration_ns) as nat;
        let m = latest_end(s.drop_last());
        if e > m { e } else { m }
    }
}

/// Collects what each task of a run took, while it is enabled.
pub struct Profiler {
    enabled: bool,
    task_stats: Vec<TaskStats>,
    start_time: Option<u128>,
    num_workers: usize,
}

impl Profiler {
    /// Whether task records are kept.
    pub closed spec fn enabled_flag(&self) -> bool {
        self.enabled
    }

    /// The records kept, in the order they came.
    pub closed spec fn records(&self) -> Seq<TaskStats> {
        self.task_stats@
    }

    /// When the current run started, if one was started.
    pub closed spec fn run_start(&self) -> Option<u128> {
        self.start_time
    }

    /// The number of workers profiles report.
    pub closed spec fn workers(&self) -> usize {
        self.num_workers
    }

    /// A disabled profiler for runs on `num_workers` workers.
    pub fn new(num_workers: usize) -> (p: Self)
        ensures
            !p.enabled_flag(),
            p.records().len() == 0,
            p.run_start() is None,
            p.workers() == num_workers,
    {
        Profiler { enabled: false, task_stats: Vec::new(), start_time: None, num_workers }
    }

    /// Starts keeping records.
    pub fn enable(&mut self)
        ensures
            final(self).enabled_flag(),
            final(self).records() == old(self).records(),
            final(self).run_start() == old(self).run_start(),
            final(self).workers() == old(self).workers(),
    {
        self.enabled = true;
    }

    /// Stops keeping records.
    pub fn disable(&mut self)
        ensures
            !final(self).enabled_flag(),
            final(self).records() == old(self).records(),
            final(self).run_start() == old(self).run_start(),
            final(self).workers() == old(self).workers(),
    {
        self.enabled = false;
    }

    /// Whether records are kept.
    pub fn is_enabled(&self) -> (b: bool)
        ensures
            b == self.enabled_flag(),
    {
        self.enabled
    }

    /// Starts a run at `now_ns`: when enabled, the start is noted and the
    /// records of earlier runs are dropped.
    pub fn start_run(&mut self, now_ns: u128)
        ensures
            final(self).enabled_flag() == old(self).enabled_flag(),
            final(self).workers() == old(self).workers(),
            old(self).enabled_flag() ==> final(self).run_start() == Some(now_ns) && final(self).records().len() == 0,
            !old(self).enabled_flag() ==> final(self).run_start() == old(self).run_start()
                && final(self).records() == old(self).records(),
    {
        if self.enabled {
            self.start_time = Some(now_ns);
            self.task_stats.clear();
        }
    }

    /// Keeps the record of a task, when enabled.
    pub fn record_task(
        &mut self,
        task_id: TaskId,
        name: Option<String>,
        start_ns: u128,
        duration_ns: u128,
        worker_id: usize,
        num_dependencies: usize,
    )
        ensures
            final(self).enabled_flag() == old(self).enabled_flag(),
            final(self).workers() == old(self).workers(),
            final(self).run_start() == old(self).run_start(),
            old(self).enabled_flag() ==> final(self).records() == old(self).records().push(TaskStats {
                task_id,
                name,
                start_ns,
                duration_ns,
                worker_id,
                num_dependencies,
            }),
            !old(self).enabled_flag() ==> final(self).records() == old(self).records(),
    {
        if self.enabled {
            self.task_stats.push(TaskStats { task_id, name, start_ns, duration_ns, worker_id, num_dependencies });
        }
    }

    /// Drops the records and the start of the run.
    pub fn reset(&mut self)
        ensures
            final(self).enabled_flag() == old(self).enabled_flag(),
            final(self).workers() == old(self).workers(),
            final(self).records().len() == 0,
            final(self).run_start() is None,
    {
        self.task_stats.clear();
        self.start_time = None;
    }

    /// The profile of the current run: none when disabled, when no run was
    /// started or when no task was recorded.  The run lasts from its start
    /// to the latest end of a task, or no time when that end is earlier.
    pub fn get_profile(&self) -> (r: Option<ExecutionProfile>)
        requires
            forall|i: int| 0 <= i < self.records().len() ==>
                #[trigger] self.records()[i].start_ns + self.records()[i].duration_ns <= u128::MAX,
        ensures
            r is Some <==> (self.enabled_flag() && self.run_start() is Some && self.records().len() > 0),
            r matches Some(p) ==> {
                &&& p.start_ns == self.run_start()->0
                &&& p.num_workers == self.workers()
                &&& p.task_stats@.len() == self.records().len()
                &&& forall|i: int| 0 <= i < p.task_stats@.len() ==> #[trigger] same_stats(p.task_stats@[i], self.records()[i])
                &&& p.total_duration_ns == if latest_end(self.records()) >= p.start_ns {
                    latest_end(self.records()) - p.start_ns
                } else {
                    0
                }
            },
    {
        if !self.enabled {
            return None;
        }
        let start = match self.start_time {
            Some(s) => s,
            None => {
                return None;
            },
        };
        if self.task_stats.len() == 0 {
            return None;
        }
        let mut stats: Vec<TaskStats> = Vec::new();
        let mut end: u128 = 0;
        let mut k: usize = 0;
        while k < self.task_stats.len()
            invariant
                0 <= k <= self.task_stats@.len(),
                forall|i: int| 0 <= i < self.records().len() ==>
                    #[trigger] self.records()[i].start_ns + self.records()[i].duration_ns <= u128::MAX,
                stats@.len() == k,
                forall|i: int| 0 <= i < k ==> #[trigger] same_stats(stats@[i], self.task_stats@[i]),
                end == latest_end(self.task_stats@.subrange(0, k as int)),
            decreases self.task_stats@.len() - k,
        {
            let s = &self.task_stats[k];
            assert(self.records()[k as int].start_ns + self.records()[k as int].duration_ns <= u128::MAX);
            let e = s.start_ns + s.duration_ns;
            proof {
                let sub = self.task_stats@.subrange(0, k as int + 1);
                assert(sub.drop_last() =~= self.task_stats@.subrange(0, k as int));
            }
            if e > end {
                end = e;
            }
            stats.push(s.duplicate());
            k = k + 1;
        }
        proof {
            assert(self.task_stats@.subrange(0, self.task_stats@.len() as int) =~= self.task_stats@);
        }
        let total = if end >= start { end - start } else { 0 };
        Some(ExecutionProfile { start_ns: start, total_duration_ns: total, task_stats: stats, num_workers: self.num_workers })
    }
}

/// Records that carry the same information.
pub open spec fn same_stats(a: TaskStats, b: TaskStats) -> bool {
    &&& a.task_id == b.task_id
    &&& a.start_ns == b.start_ns
    &&& a.duration_ns == b.duration_ns
    &&& a.worker_id == b.worker_id
    &&& a.num_dependencies == b.num_dependencies
    &&& match (a.name, b.name) {
        (Some(x), Some(y)) => x@ == y@,
        (None, None) => true,
        _ => false,
    }
}

impl TaskStats {
    /// A copy of the record.
    pub fn duplicate(&self) -> (c: TaskStats)
        ensures
            same_stats(c, *self),
    {
        let name = match &self.name {
            Some(n) => Some(n.clone()),
            None => None,
        };
        TaskStats {
            task_id: self.task_id,
            name,
            start_ns: self.start_ns,
            duration_ns: self.duration_ns,
            worker_id: self.worker_id,
            num_dependencies: self.num_dependencies,
        }
    }
}

} // verus!
