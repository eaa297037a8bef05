//! NUMA topology: which CPUs belong to which memory node, and which CPUs a
//! worker is pinned to under each pinning strategy.

use vstd::prelude::*;
use std::collections::HashMap;

use crate::executor::available_cpus;

verus! {

broadcast use vstd::std_specs::hash::group_hash_axioms;

/// A memory node and its CPUs.
pub struct NumaNode {
    pub id: usize,
    pub cpus: Vec<usize>,
    /// Memory capacity in bytes, when known.
    pub memory_bytes: Option<u64>,
}

/// The NUMA layout of the machine.
pub struct NumaTopology {
    pub num_nodes: usize,
    pub nodes: Vec<NumaNode>,
    pub cpu_to_node: HashMap<usize, usize>,
}

/// The CPUs `lo, lo + 1, …` below `hi`.
pub open spec fn cpu_range(lo: int, hi: int) -> Seq<usize> {
    Seq::new(if hi > lo { (hi - lo) as nat } else { 0 }, |k: int| (lo + k) as usize)
}

/// The layout of `num_nodes` nodes sharing `num_cpus` CPUs in blocks of
/// `ceil(num_cpus / num_nodes)`; the last nodes may get fewer or none.
pub open spec fn blocked_layout(t: NumaTopology, num_cpus: nat, num_nodes: nat) -> bool {
    let per = (num_cpus + num_nodes - 1) as int / (num_nodes as int);
    &&& t.num_nodes == num_nodes
    &&& t.nodes@.len() == num_nodes
    &&& forall|n: int| 0 <= n < num_nodes ==> {
        let node = #[trigger] t.nodes@[n];
        &&& node.id == n
        &&& node.cpus@ == cpu_range(n * per, if (n + 1) * per < num_cpus { (n + 1) * per } else { num_cpus as int })
        &&& node.memory_bytes is None
    }
    &&& forall|c: usize| #[trigger] t.cpu_to_node@.contains_key(c) <==> c < num_cpus
    &&& forall|c: usize| c < num_cpus ==> #[trigger] t.cpu_to_node@[c] == (c as int) / per
}

/// The layout detection gives for `num_cpus` CPUs and `num_nodes` nodes.
pub open spec fn detected_layout(t: NumaTopology, num_cpus: nat, num_nodes: nat) -> bool {
    blocked_layout(t, num_cpus, if num_nodes <= 1 || num_cpus + num_nodes > usize::MAX { 1 } else { num_nodes })
}

impl NumaTopology {
    /// One node holding CPUs `0 .. num_cpus`.
    pub fn uniform(num_cpus: usize) -> (t: Self)
        ensures
            blocked_layout(t, num_cpus as nat, 1),
    {
        Self::blocked(num_cpus, 1)
    }

    /// `num_nodes` nodes sharing `num_cpus` CPUs in equal consecutive
    /// blocks, the last node taking what is left.
    pub fn blocked(num_cpus: usize, num_nodes: usize) -> (t: Self)
        requires
            num_nodes >= 1,
            num_cpus + num_nodes - 1 <= usize::MAX,
        ensures
            blocked_layout(t, num_cpus as nat, num_nodes as nat),
    {
        let per = (num_cpus + (num_nodes - 1)) / num_nodes;
        let mut nodes: Vec<NumaNode> = Vec::new();
        let mut cpu_to_node: HashMap<usize, usize> = HashMap::new();
        let mut node_id: usize = 0;
        proof {
            assert(per * num_nodes >= num_cpus && per * num_nodes <= num_cpus + num_nodes - 1) by (nonlinear_arith)
                requires
                    per == (num_cpus + num_nodes - 1) / (num_nodes as int),
                    num_nodes >= 1,
            ;
        }
        while node_id < num_nodes
            invariant
                num_nodes >= 1,
                num_cpus + num_nodes - 1 <= usize::MAX,
                per == (num_cpus + num_nodes - 1) / (num_nodes as int),
                per * num_nodes >= num_cpus,
                per * num_nodes <= num_cpus + num_nodes - 1,
                0 <= node_id <= num_nodes,
                nodes@.len() == node_id,
                forall|n: int| 0 <= n < node_id ==> {
                    let node = #[trigger] nodes@[n];
                    &&& node.id == n
                    &&& node.cpus@ == cpu_range(n * per, if (n + 1) * per < num_cpus { (n + 1) * per } else { num_cpus as int })
                    &&& node.memory_bytes is None
                },
                forall|c: usize| #[trigger] cpu_to_node@.contains_key(c) <==> (c < num_cpus && c < node_id * per),
                forall|c: usize| c < num_cpus && c < node_id * per ==> #[trigger] cpu_to_node@[c] == c / per,
            decreases num_nodes - node_id,
        {
            proof {
                assert((node_id + 1) * per <= num_nodes * per) by (nonlinear_arith)
                    requires node_id < num_nodes;
                assert((node_id + 1) * per == node_id * per + per) by (nonlinear_arith);
                assert(num_nodes * per == per * num_nodes) by (nonlinear_arith);
            }
            let start = if node_id * per < num_cpus { node_id * per } else { num_cpus };
            let end = if node_id * per + per < num_cpus { node_id * per + per } else { num_cpus };
            let mut cpus: Vec<usize> = Vec::new();
            let mut cpu = start;
            while cpu < end
                invariant
                    start <= cpu <= end,
                    end <= num_cpus,
                    per > 0 ==> true,
                    node_id * per <= start || start == num_cpus,
                    start == (if node_id * per < num_cpus { node_id * per } else { num_cpus as int }),
                    end == (if node_id * per + per < num_cpus { node_id * per + per } else { num_cpus as int }),
                    per == (num_cpus + num_nodes - 1) / (num_nodes as int),
                    cpus@ == cpu_range(start as int, cpu as int),
                    forall|c: usize| #[trigger] cpu_to_node@.contains_key(c) <==> (c < num_cpus && (c < node_id * per || (start <= c < cpu))),
                    forall|c: usize| c < num_cpus && (c < node_id * per || (start <= c < cpu)) ==> #[trigger] cpu_to_node@[c] == c / per,
                decreases end - cpu,
            {
                proof {
                    assert(cpu / per == node_id) by (nonlinear_arith)
                        requires
                            node_id * per <= cpu,
                            cpu < node_id * per + per,
                            per > 0,
                    ;
                }
                cpus.push(cpu);
                cpu_to_node.insert(cpu, node_id);
                proof {
                    assert(cpus@ =~= cpu_range(start as int, cpu + 1));
                }
                cpu = cpu + 1;
            }
            proof {
                assert(cpu_range(start as int, end as int) =~= cpu_range(node_id * per, if (node_id + 1) * per < num_cpus { (node_id + 1) * per } else { num_cpus as int }));
            }
            nodes.push(NumaNode { id: node_id, cpus, memory_bytes: None });
            node_id = node_id + 1;
        }
        proof {
            assert(num_nodes * per == per * num_nodes) by (nonlinear_arith);
        }
        NumaTopology { num_nodes, nodes, cpu_to_node }
    }

    /// The layout for `num_nodes` memory nodes on this machine's CPUs, as
    /// `num_cpus` reports them: one uniform node unless there are several.
    /// (A CPU count so large that the block size cannot be computed also
    /// gives one node.)
    pub fn detect_with_nodes(num_nodes: usize) -> (t: Self)
        ensures
            exists|n: nat| #![trigger detected_layout(t, n, num_nodes as nat)] n >= 1 && detected_layout(t, n, num_nodes as nat),
    {
        let cpus = available_cpus();
        if num_nodes <= 1 || cpus > usize::MAX - num_nodes {
            let t = Self::uniform(cpus);
            proof {
                assert(detected_layout(t, cpus as nat, num_nodes as nat));
            }
            t
        } else {
            let t = Self::blocked(cpus, num_nodes);
            proof {
                assert(detected_layout(t, cpus as nat, num_nodes as nat));
            }
            t
        }
    }

    /// The node that owns `cpu`, if the map knows it.
    pub fn node_for_cpu(&self, cpu: usize) -> (r: Option<usize>)
        ensures
            r == if self.cpu_to_node@.contains_key(cpu) { Some(self.cpu_to_node@[cpu]) } else { None::<usize> },
    {
        match self.cpu_to_node.get(&cpu) {
            Some(n) => Some(*n),
            None => None,
        }
    }

    /// Whether there is more than one node.
    pub fn has_numa(&self) -> (b: bool)
        ensures
            b == (self.num_nodes > 1),
    {
        self.num_nodes > 1
    }
}

/// How workers are pinned to NUMA nodes.
#[derive(Debug, Clone, Copy, PartialEq, Eq, Structural)]
pub enum NumaPinning {
    /// No pinning.
    Unpinned,
    /// Worker `w` goes to node `w % nodes`.
    RoundRobin,
    /// Nodes are filled one after the other.
    Dense,
    /// Workers are spread over the nodes in equal blocks.
    Sparse,
}

impl Default for NumaPinning {
    fn default() -> (p: Self)
        ensures
            p == NumaPinning::Unpinned,
    {
        NumaPinning::Unpinned
    }
}

/// Pins the calling thread to CPUs.  Pinning is not carried out on any
/// platform: the request always succeeds.
pub fn pin_thread_to_cpus(cpus: &[usize]) -> (r: Result<(), String>)
    ensures
        r is Ok,
{
    Ok(())
}

/// The number of CPUs of the nodes before node `n`.
pub open spec fn cpus_before(nodes: Seq<NumaNode>, n: int) -> nat
    decreases n,
{
    if n <= 0 {
        0
    } else {
        cpus_before(nodes, n - 1) + nodes[n - 1].cpus@.len()
    }
}

/// The CPU of the `w`-th worker counted from node `k` when nodes are
/// filled one after the other: none once the nodes run out.
pub open spec fn dense_from(nodes: Seq<NumaNode>, w: int, k: int) -> Seq<usize>
    decreases nodes.len() - k,
{
    if k < 0 || k >= nodes.len() {
        Seq::empty()
    } else if w < nodes[k].cpus@.len() {
        seq![nodes[k].cpus@[w]]
    } else {
        dense_from(nodes, w - nodes[k].cpus@.len(), k + 1)
    }
}

/// The CPUs for worker `worker_id` of `num_workers` under `strategy`.
pub open spec fn worker_cpus(worker_id: nat, num_workers: nat, t: NumaTopology, strategy: NumaPinning) -> Seq<usize> {
    match strategy {
        NumaPinning::Unpinned => Seq::empty(),
        NumaPinning::RoundRobin => {
            let n = worker_id % (t.num_nodes as nat);
            if n < t.nodes@.len() {
                let node = t.nodes@[n as int];
                seq![node.cpus@[((worker_id / (t.num_nodes as nat)) % node.cpus@.len()) as int]]
            } else {
                Seq::empty()
            }
        },
        NumaPinning::Dense => dense_from(t.nodes@, worker_id as int, 0),
        NumaPinning::Sparse => {
            let per = (num_workers + t.num_nodes - 1) as int / (t.num_nodes as int);
            let n = (worker_id as int) / per;
            if n < t.nodes@.len() && t.nodes@[n].cpus@.len() > 0 {
                let node = t.nodes@[n];
                seq![node.cpus@[((worker_id as int) % per) % (node.cpus@.len() as int)]]
            } else {
                Seq::empty()
            }
        },
    }
}

/// Sparse pinning splits the workers into groups of
/// `per = ceil(num_workers / num_nodes)` consecutive workers, group `g` on
/// node `g`.  The first worker of a group gets its node's first CPU, and
/// each next worker of the group the node's next CPU, wrapping around; so
/// the workers of a group get different CPUs while the node has at least
/// `per` different ones.
pub proof fn lemma_sparse_walks_node_cpus(w: nat, num_workers: nat, t: NumaTopology)
    requires
        t.num_nodes > 0,
        num_workers > 0,
        ({
            let per = (num_workers + t.num_nodes - 1) as int / (t.num_nodes as int);
            let n = (w as int) / per;
            n < t.nodes@.len() && t.nodes@[n].cpus@.len() > 0
        }),
    ensures
        ({
            let per = (num_workers + t.num_nodes - 1) as int / (t.num_nodes as int);
            let node = t.nodes@[(w as int) / per];
            let len = node.cpus@.len() as int;
            &&& (w as int) % per == 0 ==> worker_cpus(w, num_workers, t, NumaPinning::Sparse) == seq![node.cpus@[0]]
            &&& (w as int) / per == (w as int + 1) / per ==> exists|k: int|
                0 <= k < len && worker_cpus(w, num_workers, t, NumaPinning::Sparse) == seq![#[trigger] node.cpus@[k]]
                    && worker_cpus((w + 1) as nat, num_workers, t, NumaPinning::Sparse) == seq![node.cpus@[(k + 1) % len]]
        }),
{
    let per = (num_workers + t.num_nodes - 1) as int / (t.num_nodes as int);
    assert(per >= 1) by (nonlinear_arith)
        requires
            per == (num_workers + t.num_nodes - 1) as int / (t.num_nodes as int),
            num_workers >= 1,
            t.num_nodes >= 1,
    ;
    let n = (w as int) / per;
    let node = t.nodes@[n];
    let len = node.cpus@.len() as int;
    let r = (w as int) % per;
    vstd::arithmetic::div_mod::lemma_fundamental_div_mod(w as int, per);
    vstd::arithmetic::div_mod::lemma_mod_bound(w as int, per);
    if r == 0 {
        vstd::arithmetic::div_mod::lemma_mod_bound(0, len);
        assert(0int % len == 0);
    }
    if n == (w as int + 1) / per {
        let k = r % len;
        vstd::arithmetic::div_mod::lemma_mod_bound(r, len);
        if r + 1 < per {
            vstd::arithmetic::div_mod::lemma_fundamental_div_mod_converse(w as int + 1, per, n, r + 1);
        } else {
            assert(w as int + 1 == (n + 1) * per) by (nonlinear_arith)
                requires
                    w as int == per * n + r,
                    r + 1 == per,
            ;
            vstd::arithmetic::div_mod::lemma_fundamental_div_mod_converse(w as int + 1, per, n + 1, 0);
        }
        assert((w as int + 1) % per == r + 1);
        vstd::arithmetic::div_mod::lemma_add_mod_noop(r, 1, len);
        vstd::arithmetic::div_mod::lemma_add_mod_noop_right(k, 1, len);
        assert((r + 1) % len == (k + 1) % len);
        assert(worker_cpus((w + 1) as nat, num_workers, t, NumaPinning::Sparse) == seq![node.cpus@[(k + 1) % len]]);
        assert(worker_cpus(w, num_workers, t, NumaPinning::Sparse) == seq![node.cpus@[k]]);
    }
}

/// The CPUs of the nodes before `b` include those before `a` and, when
/// `a < b`, those of node `a`.
pub(crate) proof fn lemma_cpus_before_mono(nodes: Seq<NumaNode>, a: int, b: int)
    requires
        0 <= a <= b <= nodes.len(),
    ensures
        cpus_before(nodes, a) + (if a < b { nodes[a].cpus@.len() } else { 0 }) <= cpus_before(nodes, b),
    decreases b - a,
{
    if a < b {
        lemma_cpus_before_mono(nodes, a + 1, b);
    }
}

/// The CPUs worker `worker_id` of `num_workers` is pinned to under
/// `strategy`: none, or the one CPU the strategy picks.
pub fn get_worker_cpus(worker_id: usize, num_workers: usize, topology: &NumaTopology, strategy: NumaPinning) -> (r: Vec<usize>)
    requires
        strategy == NumaPinning::RoundRobin ==> topology.num_nodes > 0 && (worker_id % topology.num_nodes < topology.nodes@.len()
            ==> topology.nodes@[(worker_id % topology.num_nodes) as int].cpus@.len() > 0),
        strategy == NumaPinning::Dense ==> cpus_before(topology.nodes@, topology.nodes@.len() as int) <= usize::MAX,
        strategy == NumaPinning::Sparse ==> topology.num_nodes > 0 && num_workers > 0
            && num_workers + topology.num_nodes <= usize::MAX && ({
                let per = (num_workers + topology.num_nodes - 1) as int / (topology.num_nodes as int);
                (worker_id as int) / per < topology.nodes@.len() ==> topology.nodes@[(worker_id as int) / per].cpus@.len() > 0
            }),
    ensures
        r@ == worker_cpus(worker_id as nat, num_workers as nat, *topology, strategy),
{
    match strategy {
        NumaPinning::Unpinned => Vec::new(),
        NumaPinning::RoundRobin => {
            let node_id = worker_id % topology.num_nodes;
            if node_id < topology.nodes.len() {
                let node = &topology.nodes[node_id];
                let cpu_idx = (worker_id / topology.num_nodes) % node.cpus.len();
                let mut v = Vec::new();
                v.push(node.cpus[cpu_idx]);
                proof {
                    assert(v@ =~= worker_cpus(worker_id as nat, num_workers as nat, *topology, strategy));
                }
                v
            } else {
                Vec::new()
            }
        },
        NumaPinning::Dense => {
            let mut cpu_count: usize = 0;
            let mut k: usize = 0;
            while k < topology.nodes.len()
                invariant
                    strategy == NumaPinning::Dense,
                    0 <= k <= topology.nodes@.len(),
                    cpu_count == cpus_before(topology.nodes@, k as int),
                    worker_id >= cpu_count,
                    cpus_before(topology.nodes@, topology.nodes@.len() as int) <= usize::MAX,
                    dense_from(topology.nodes@, worker_id as int, 0)
                        == dense_from(topology.nodes@, worker_id - cpu_count, k as int),
                decreases topology.nodes@.len() - k,
            {
                let node = &topology.nodes[k];
                proof {
                    lemma_cpus_before_mono(topology.nodes@, k as int, topology.nodes@.len() as int);
                }
                if worker_id < cpu_count + node.cpus.len() {
                    let idx = worker_id - cpu_count;
                    let mut v = Vec::new();
                    v.push(node.cpus[idx]);
                    proof {
                        assert(dense_from(topology.nodes@, worker_id - cpu_count, k as int) == seq![node.cpus@[idx as int]]);
                        assert(strategy == NumaPinning::Dense);
                        assert(worker_cpus(worker_id as nat, num_workers as nat, *topology, strategy)
                            == dense_from(topology.nodes@, worker_id as int, 0));
                        assert(v@ =~= worker_cpus(worker_id as nat, num_workers as nat, *topology, strategy));
                    }
                    return v;
                }
                cpu_count = cpu_count + node.cpus.len();
                k = k + 1;
            }
            Vec::new()
        },
        NumaPinning::Sparse => {
            let per = (num_workers + topology.num_nodes - 1) / topology.num_nodes;
            proof {
                assert(per >= 1) by (nonlinear_arith)
                    requires
                        per == (num_workers + topology.num_nodes - 1) / (topology.num_nodes as int),
                        num_workers >= 1,
                        topology.num_nodes >= 1,
                ;
            }
            let node_id = worker_id / per;
            let local = worker_id % per;
            if node_id < topology.nodes.len() {
                let node = &topology.nodes[node_id];
                if node.cpus.len() > 0 {
                    let mut v = Vec::new();
                    v.push(node.cpus[local % node.cpus.len()]);
                    proof {
                        assert(v@ =~= worker_cpus(worker_id as nat, num_workers as nat, *topology, strategy));
                    }
                    return v;
                }
            }
            Vec::new()
        },
    }
}

} // verus!
