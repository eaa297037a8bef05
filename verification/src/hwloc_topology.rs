//! Hardware topology: caches, packages and NUMA nodes as the kernel
//! reports them, and the CPUs each worker is bound to under each affinity
//! strategy.  Reading the kernel's files and binding threads is left to the
//! caller; what is read is handed over as plain values.

use vstd::prelude::*;

use crate::executor::available_cpus;
use crate::numa::{NumaNode, NumaTopology};
use crate::text::{decimal, push_decimal, push_str};

verus! {

broadcast use vstd::seq_lib::group_seq_properties;

/// One cache of the machine.
pub struct CacheInfo {
    /// 1 for L1, 2 for L2, …
    pub level: u8,
    pub size_kb: u64,
    /// Line size in bytes.
    pub line_size: u32,
    /// Number of ways; 0 when fully associative or unknown.
    pub associativity: u32,
    /// The logical CPUs that share this cache.
    pub shared_cpus: Vec<usize>,
}

impl CacheInfo {
    /// Whether the cache holds both instructions and data, as caches from
    /// level 2 up do.
    pub fn is_unified(&self) -> (b: bool)
        ensures
            b == (self.level >= 2),
    {
        self.level >= 2
    }

    /// A copy of the cache record.
    pub fn duplicate(&self) -> (c: CacheInfo)
        ensures
            c.level == self.level,
            c.size_kb == self.size_kb,
            c.line_size == self.line_size,
            c.associativity == self.associativity,
            c.shared_cpus@ == self.shared_cpus@,
    {
        CacheInfo {
            level: self.level,
            size_kb: self.size_kb,
            line_size: self.line_size,
            associativity: self.associativity,
            shared_cpus: self.shared_cpus.clone(),
        }
    }
}

/// A physical package (socket): its CPUs and the NUMA nodes attached.
pub struct PackageInfo {
    pub id: usize,
    pub cpus: Vec<usize>,
    pub numa_nodes: Vec<usize>,
}

impl PackageInfo {
    /// A copy of the package record.
    pub fn duplicate(&self) -> (p: PackageInfo)
        ensures
            p.id == self.id,
            p.cpus@ == self.cpus@,
            p.numa_nodes@ == self.numa_nodes@,
    {
        PackageInfo { id: self.id, cpus: self.cpus.clone(), numa_nodes: self.numa_nodes.clone() }
    }
}

/// A failed attempt to bind a thread to CPUs.
pub struct BindError(pub String);

impl BindError {
    /// The error's text: `CPU binding error: ` and the detail.
    pub fn message(&self) -> (s: String)
        ensures
            s@ == "CPU binding error: "@ + self.0@,
    {
        let mut s = String::new();
        push_str(&mut s, "CPU binding error: ");
        push_str(&mut s, self.0.as_str());
        s
    }
}

/// What the kernel reports of one cache directory, as read: the numbers
/// when their files could be read, and the CPUs of its shared CPU list.
pub struct RawCacheEntry {
    /// The CPU whose directory this is.
    pub cpu: usize,
    pub level: Option<u64>,
    pub size_kb: Option<u64>,
    pub line_size: Option<u64>,
    pub shared_cpus: Vec<usize>,
}

/// The cache a raw entry describes, if it is kept: an entry is kept when
/// it has a level other than zero (as a byte) and its CPU is the first
/// that shares the cache.  An unknown size reads as 0 and an unknown line
/// size as 64.
pub open spec fn kept_cache(e: RawCacheEntry) -> bool {
    &&& e.level is Some
    &&& (e.level->0 % 256) != 0
    &&& e.shared_cpus@.len() > 0
    &&& e.shared_cpus@[0] == e.cpu
}

/// The cache a kept raw entry describes.
pub open spec fn cache_of(e: RawCacheEntry, c: CacheInfo) -> bool {
    &&& c.level == (e.level->0 % 256) as u8
    &&& c.size_kb == match e.size_kb { Some(s) => s, None => 0 }
    &&& c.line_size == match e.line_size { Some(l) => (l % 0x1_0000_0000) as u32, None => 64u32 }
    &&& c.associativity == 0
    &&& c.shared_cpus@ == e.shared_cpus@
}

/// The order key of a cache: its level, then its first CPU.
pub open spec fn cache_key_before(a: CacheInfo, b: CacheInfo) -> bool {
    let fa = if a.shared_cpus@.len() > 0 { a.shared_cpus@[0] as int } else { 0 };
    let fb = if b.shared_cpus@.len() > 0 { b.shared_cpus@[0] as int } else { 0 };
    a.level < b.level || (a.level == b.level && fa < fb)
}

/// Same level and first CPU.
pub open spec fn cache_key_same(a: CacheInfo, b: CacheInfo) -> bool {
    !cache_key_before(a, b) && !cache_key_before(b, a)
}

/// `out` holds the caches of the kept entries of `es`, ordered by level
/// and first CPU and, on equal keys, in the order of the entries.
pub open spec fn selected_caches(es: Seq<RawCacheEntry>, out: Seq<CacheInfo>) -> bool {
    exists|pos: Seq<int>| #[trigger] selection_positions(es, out, pos)
}

/// `pos[k]` is the entry that cache `out[k]` comes from.
pub open spec fn selection_positions(es: Seq<RawCacheEntry>, out: Seq<CacheInfo>, pos: Seq<int>) -> bool {
    &&& pos.len() == out.len()
    &&& forall|k: int| 0 <= k < pos.len() ==> 0 <= #[trigger] pos[k] < es.len() && kept_cache(es[pos[k]])
        && cache_of(es[pos[k]], out[k])
    &&& forall|i: int| 0 <= i < es.len() && #[trigger] kept_cache(es[i]) ==> pos.contains(i)
    &&& forall|a: int, b: int| 0 <= a < b < pos.len() ==> cache_key_before(#[trigger] out[a], #[trigger] out[b])
        || (cache_key_same(out[a], out[b]) && pos[a] < pos[b])
}

/// The cache assumed when none is reported: one L3 of 8 MB shared by all
/// `cpu_count` CPUs.
pub open spec fn synthetic_l3(c: CacheInfo, cpu_count: nat) -> bool {
    &&& c.level == 3
    &&& c.size_kb == 8192
    &&& c.line_size == 64
    &&& c.associativity == 0
    &&& c.shared_cpus@ == Seq::new(cpu_count, |i: int| i as usize)
}

fn cache_before(a: &CacheInfo, b: &CacheInfo) -> (r: bool)
    ensures
        r == cache_key_before(*a, *b),
{
    let fa = if a.shared_cpus.len() > 0 { a.shared_cpus[0] } else { 0 };
    let fb = if b.shared_cpus.len() > 0 { b.shared_cpus[0] } else { 0 };
    a.level < b.level || (a.level == b.level && fa < fb)
}

/// The caches the kernel reported, from the raw entries of every CPU's
/// cache directories: the kept entries, ordered by level and first CPU;
/// or the assumed L3 shared by `cpu_count` CPUs when none is kept.
pub fn select_caches(entries: &Vec<RawCacheEntry>, cpu_count: usize) -> (r: Vec<CacheInfo>)
    ensures
        (exists|i: int| 0 <= i < entries@.len() && #[trigger] kept_cache(entries@[i])) ==> selected_caches(entries@, r@),
        (forall|i: int| 0 <= i < entries@.len() ==> !#[trigger] kept_cache(entries@[i]))
            ==> r@.len() == 1 && synthetic_l3(r@[0], cpu_count as nat),
{
    let mut out: Vec<CacheInfo> = Vec::new();
    let ghost mut pos: Seq<int> = Seq::empty();
    let mut i: usize = 0;
    while i < entries.len()
        invariant
            0 <= i <= entries@.len(),
            pos.len() == out@.len(),
            forall|k: int| 0 <= k < pos.len() ==> 0 <= #[trigger] pos[k] < i && kept_cache(entries@[pos[k]])
                && cache_of(entries@[pos[k]], out@[k]),
            forall|j: int| 0 <= j < i && #[trigger] kept_cache(entries@[j]) ==> pos.contains(j),
            forall|a: int, b: int| 0 <= a < b < pos.len() ==> cache_key_before(#[trigger] out@[a], #[trigger] out@[b])
                || (cache_key_same(out@[a], out@[b]) && pos[a] < pos[b]),
        decreases entries@.len() - i,
    {
        let e = &entries[i];
        let keep = match e.level {
            Some(l) => (l % 256) != 0 && e.shared_cpus.len() > 0 && e.shared_cpus[0] == e.cpu,
            None => false,
        };
        if keep {
            let level = match e.level {
                Some(l) => (l % 256) as u8,
                None => 0,
            };
            let size_kb = match e.size_kb {
                Some(s) => s,
                None => 0,
            };
            let line_size = match e.line_size {
                Some(l) => (l % 0x1_0000_0000) as u32,
                None => 64,
            };
            let c = CacheInfo { level, size_kb, line_size, associativity: 0, shared_cpus: e.shared_cpus.clone() };
            let mut q: usize = 0;
            while q < out.len() && !cache_before(&c, &out[q])
                invariant
                    0 <= q <= out@.len(),
                    forall|k: int| 0 <= k < q ==> !cache_key_before(c, #[trigger] out@[k]),
                decreases out@.len() - q,
            {
                q = q + 1;
            }
            let ghost out0 = out@;
            let ghost pos0 = pos;
            out.insert(q, c);
            proof {
                pos = pos0.insert(q as int, i as int);
                lemma_insert_selection(entries@, out0, pos0, c, i as int, q as int);
            }
        } else {
            proof {
                assert forall|j: int| 0 <= j < i + 1 && #[trigger] kept_cache(entries@[j]) implies pos.contains(j) by {
                    if j == i {
                        assert(!kept_cache(entries@[j]));
                    }
                }
            }
        }
        i = i + 1;
    }
    if out.len() == 0 {
        let mut shared: Vec<usize> = Vec::new();
        let mut k: usize = 0;
        while k < cpu_count
            invariant
                0 <= k <= cpu_count,
                shared@ == Seq::new(k as nat, |j: int| j as usize),
            decreases cpu_count - k,
        {
            shared.push(k);
            proof {
                assert(shared@ =~= Seq::new((k + 1) as nat, |j: int| j as usize));
            }
            k = k + 1;
        }
        out.push(CacheInfo { level: 3, size_kb: 8192, line_size: 64, associativity: 0, shared_cpus: shared });
        proof {
            assert forall|j: int| 0 <= j < entries@.len() implies !#[trigger] kept_cache(entries@[j]) by {
                if kept_cache(entries@[j]) {
                    assert(pos.contains(j));
                }
            }
        }
    } else {
        proof {
            assert(selection_positions(entries@, out@, pos));
            assert(kept_cache(entries@[pos[0]]));
        }
    }
    out
}

proof fn lemma_key_trans(a: CacheInfo, b: CacheInfo, c: CacheInfo)
    requires
        cache_key_before(a, b),
        cache_key_before(b, c) || cache_key_same(b, c),
    ensures
        cache_key_before(a, c),
{
}

proof fn lemma_insert_selection(es: Seq<RawCacheEntry>, out0: Seq<CacheInfo>, pos0: Seq<int>, c: CacheInfo, i: int, q: int)
    requires
        0 <= i < es.len(),
        kept_cache(es[i]),
        cache_of(es[i], c),
        0 <= q <= out0.len(),
        pos0.len() == out0.len(),
        forall|k: int| 0 <= k < pos0.len() ==> 0 <= #[trigger] pos0[k] < i && kept_cache(es[pos0[k]])
            && cache_of(es[pos0[k]], out0[k]),
        forall|j: int| 0 <= j < i && #[trigger] kept_cache(es[j]) ==> pos0.contains(j),
        forall|a: int, b: int| 0 <= a < b < pos0.len() ==> cache_key_before(#[trigger] out0[a], #[trigger] out0[b])
            || (cache_key_same(out0[a], out0[b]) && pos0[a] < pos0[b]),
        forall|k: int| 0 <= k < q ==> !cache_key_before(c, #[trigger] out0[k]),
        q < out0.len() ==> cache_key_before(c, out0[q]),
    ensures
        ({
            let out = out0.insert(q, c);
            let pos = pos0.insert(q, i);
            &&& pos.len() == out.len()
            &&& forall|k: int| 0 <= k < pos.len() ==> 0 <= #[trigger] pos[k] < i + 1 && kept_cache(es[pos[k]])
                && cache_of(es[pos[k]], out[k])
            &&& forall|j: int| 0 <= j < i + 1 && #[trigger] kept_cache(es[j]) ==> pos.contains(j)
            &&& forall|a: int, b: int| 0 <= a < b < pos.len() ==> cache_key_before(#[trigger] out[a], #[trigger] out[b])
                || (cache_key_same(out[a], out[b]) && pos[a] < pos[b])
        }),
{
    lemma_insert_fields(es, out0, pos0, c, i, q);
    lemma_insert_cover(es, pos0, i, q);
    lemma_insert_order(out0, pos0, c, i, q);
}

proof fn lemma_insert_fields(es: Seq<RawCacheEntry>, out0: Seq<CacheInfo>, pos0: Seq<int>, c: CacheInfo, i: int, q: int)
    requires
        0 <= i < es.len(),
        kept_cache(es[i]),
        cache_of(es[i], c),
        0 <= q <= out0.len(),
        pos0.len() == out0.len(),
        forall|k: int| 0 <= k < pos0.len() ==> 0 <= #[trigger] pos0[k] < i && kept_cache(es[pos0[k]])
            && cache_of(es[pos0[k]], out0[k]),
    ensures
        ({
            let out = out0.insert(q, c);
            let pos = pos0.insert(q, i);
            &&& pos.len() == out.len()
            &&& forall|k: int| 0 <= k < pos.len() ==> 0 <= #[trigger] pos[k] < i + 1 && kept_cache(es[pos[k]])
                && cache_of(es[pos[k]], out[k])
        }),
{
    let out = out0.insert(q, c);
    let pos = pos0.insert(q, i);
    assert forall|k: int| 0 <= k < pos.len() implies 0 <= #[trigger] pos[k] < i + 1 && kept_cache(es[pos[k]])
        && cache_of(es[pos[k]], out[k]) by {
        if k < q {
            assert(pos[k] == pos0[k] && out[k] == out0[k]);
        } else if k > q {
            assert(pos[k] == pos0[k - 1] && out[k] == out0[k - 1]);
        } else {
            assert(pos[k] == i && out[k] == c);
        }
    }
}

proof fn lemma_insert_cover(es: Seq<RawCacheEntry>, pos0: Seq<int>, i: int, q: int)
    requires
        0 <= q <= pos0.len(),
        forall|j: int| 0 <= j < i && #[trigger] kept_cache(es[j]) ==> pos0.contains(j),
    ensures
        forall|j: int| 0 <= j < i + 1 && #[trigger] kept_cache(es[j]) ==> pos0.insert(q, i).contains(j),
{
    let pos = pos0.insert(q, i);
    assert forall|j: int| 0 <= j < i + 1 && #[trigger] kept_cache(es[j]) implies pos.contains(j) by {
        if j == i {
            assert(pos[q] == i);
        } else {
            assert(pos0.contains(j));
            let k = choose|k: int| 0 <= k < pos0.len() && pos0[k] == j;
            if k < q {
                assert(pos[k] == j);
            } else {
                assert(pos[k + 1] == j);
            }
        }
    }
}

proof fn lemma_insert_order(out0: Seq<CacheInfo>, pos0: Seq<int>, c: CacheInfo, i: int, q: int)
    requires
        0 <= q <= out0.len(),
        pos0.len() == out0.len(),
        forall|k: int| 0 <= k < pos0.len() ==> #[trigger] pos0[k] < i,
        forall|a: int, b: int| 0 <= a < b < pos0.len() ==> cache_key_before(#[trigger] out0[a], #[trigger] out0[b])
            || (cache_key_same(out0[a], out0[b]) && pos0[a] < pos0[b]),
        forall|k: int| 0 <= k < q ==> !cache_key_before(c, #[trigger] out0[k]),
        q < out0.len() ==> cache_key_before(c, out0[q]),
    ensures
        ({
            let out = out0.insert(q, c);
            let pos = pos0.insert(q, i);
            forall|a: int, b: int| 0 <= a < b < pos.len() ==> cache_key_before(#[trigger] out[a], #[trigger] out[b])
                || (cache_key_same(out[a], out[b]) && pos[a] < pos[b])
        }),
{
    let out = out0.insert(q, c);
    let pos = pos0.insert(q, i);
    assert forall|a: int, b: int| 0 <= a < b < pos.len() implies cache_key_before(#[trigger] out[a], #[trigger] out[b])
        || (cache_key_same(out[a], out[b]) && pos[a] < pos[b]) by {
        if a == q {
            assert(out[a] == c);
            assert(out[b] == out0[b - 1]);
            if b - 1 > q {
                assert(cache_key_before(out0[q], out0[b - 1]) || (cache_key_same(out0[q], out0[b - 1]) && pos0[q] < pos0[b - 1]));
                lemma_key_trans(c, out0[q], out0[b - 1]);
            }
        } else if b == q {
            assert(out[a] == out0[a] && pos[a] == pos0[a]);
            assert(out[b] == c && pos[b] == i);
            assert(!cache_key_before(c, out0[a]));
        } else {
            let ia = if a < q { a } else { a - 1 };
            let ib = if b < q { b } else { b - 1 };
            assert(out[a] == out0[ia] && pos[a] == pos0[ia]);
            assert(out[b] == out0[ib] && pos[b] == pos0[ib]);
        }
    }
}

/// The packages when each NUMA node counts as one package.
pub fn build_packages(numa: &NumaTopology) -> (r: Vec<PackageInfo>)
    ensures
        r@.len() == numa.nodes@.len(),
        forall|k: int| 0 <= k < r@.len() ==> {
            let p = #[trigger] r@[k];
            &&& p.id == numa.nodes@[k].id
            &&& p.cpus@ == numa.nodes@[k].cpus@
            &&& p.numa_nodes@ == seq![numa.nodes@[k].id]
        },
{
    let mut r: Vec<PackageInfo> = Vec::new();
    let mut k: usize = 0;
    while k < numa.nodes.len()
        invariant
            0 <= k <= numa.nodes@.len(),
            r@.len() == k,
            forall|j: int| 0 <= j < k ==> {
                let p = #[trigger] r@[j];
                &&& p.id == numa.nodes@[j].id
                &&& p.cpus@ == numa.nodes@[j].cpus@
                &&& p.numa_nodes@ == seq![numa.nodes@[j].id]
            },
        decreases numa.nodes@.len() - k,
    {
        let n = &numa.nodes[k];
        let mut ids: Vec<usize> = Vec::new();
        ids.push(n.id);
        proof {
            assert(ids@ =~= seq![n.id]);
        }
        r.push(PackageInfo { id: n.id, cpus: n.cpus.clone(), numa_nodes: ids });
        k = k + 1;
    }
    r
}

/// The topology read from the kernel's files: NUMA nodes, caches and the
/// packages they imply.
pub struct SysfsBackend {
    numa: NumaTopology,
    caches: Vec<CacheInfo>,
    packages: Vec<PackageInfo>,
}

impl SysfsBackend {
    /// The NUMA layout.
    pub closed spec fn numa_layout(&self) -> NumaTopology {
        self.numa
    }

    /// The caches.
    pub closed spec fn caches(&self) -> Seq<CacheInfo> {
        self.caches@
    }

    /// The packages.
    pub closed spec fn packages_view(&self) -> Seq<PackageInfo> {
        self.packages@
    }

    /// The topology of a NUMA layout and the caches read; each node counts
    /// as one package.
    pub fn from_parts(numa: NumaTopology, caches: Vec<CacheInfo>) -> (b: Self)
        ensures
            b.numa_layout() == numa,
            b.caches() == caches@,
            b.packages_view().len() == numa.nodes@.len(),
            forall|k: int| 0 <= k < b.packages_view().len() ==> {
                let p = #[trigger] b.packages_view()[k];
                &&& p.id == numa.nodes@[k].id
                &&& p.cpus@ == numa.nodes@[k].cpus@
                &&& p.numa_nodes@ == seq![numa.nodes@[k].id]
            },
    {
        let packages = build_packages(&numa);
        SysfsBackend { numa, caches, packages }
    }
}

/// The topology the library works with.
pub struct TopologyProvider {
    inner: SysfsBackend,
}

impl TopologyProvider {
    /// The backend's data.
    pub closed spec fn backend(&self) -> SysfsBackend {
        self.inner
    }

    /// A provider over topology read from the kernel's files.
    pub fn from_sysfs(inner: SysfsBackend) -> (p: Self)
        ensures
            p.backend() == inner,
    {
        TopologyProvider { inner }
    }

    /// The NUMA nodes.
    pub fn numa_nodes(&self) -> (r: &[NumaNode])
        ensures
            r@ == self.backend().numa_layout().nodes@,
    {
        self.inner.numa.nodes.as_slice()
    }

    /// The number of logical CPUs, as `num_cpus` reports it (at least one).
    pub fn cpu_count(&self) -> (n: usize)
        ensures
            n >= 1,
    {
        available_cpus()
    }

    /// Copies of the packages.
    pub fn packages(&self) -> (r: Vec<PackageInfo>)
        ensures
            r@.len() == self.backend().packages_view().len(),
            forall|k: int| 0 <= k < r@.len() ==> {
                let p = #[trigger] r@[k];
                let q = self.backend().packages_view()[k];
                p.id == q.id && p.cpus@ == q.cpus@ && p.numa_nodes@ == q.numa_nodes@
            },
    {
        let mut r: Vec<PackageInfo> = Vec::new();
        let mut k: usize = 0;
        while k < self.inner.packages.len()
            invariant
                0 <= k <= self.inner.packages@.len(),
                r@.len() == k,
                forall|j: int| 0 <= j < k ==> {
                    let p = #[trigger] r@[j];
                    let q = self.inner.packages@[j];
                    p.id == q.id && p.cpus@ == q.cpus@ && p.numa_nodes@ == q.numa_nodes@
                },
            decreases self.inner.packages@.len() - k,
        {
            r.push(self.inner.packages[k].duplicate());
            k = k + 1;
        }
        r
    }

    /// Copies of the caches.
    pub fn cache_info(&self) -> (r: Vec<CacheInfo>)
        ensures
            r@.len() == self.backend().caches().len(),
            forall|k: int| 0 <= k < r@.len() ==> same_cache(#[trigger] r@[k], self.backend().caches()[k]),
    {
        let mut r: Vec<CacheInfo> = Vec::new();
        let mut k: usize = 0;
        while k < self.inner.caches.len()
            invariant
                0 <= k <= self.inner.caches@.len(),
                r@.len() == k,
                forall|j: int| 0 <= j < k ==> same_cache(#[trigger] r@[j], self.inner.caches@[j]),
            decreases self.inner.caches@.len() - k,
        {
            r.push(self.inner.caches[k].duplicate());
            k = k + 1;
        }
        r
    }

    /// The NUMA node of `cpu`, if known.
    pub fn numa_node_for_cpu(&self, cpu: usize) -> (r: Option<usize>)
        ensures
            r == if self.backend().numa_layout().cpu_to_node@.contains_key(cpu) {
                Some(self.backend().numa_layout().cpu_to_node@[cpu])
            } else {
                None::<usize>
            },
    {
        self.inner.numa.node_for_cpu(cpu)
    }

    /// Whether the data came from hwloc: it comes from the kernel's files.
    pub fn is_hwloc_backed(&self) -> (b: bool)
        ensures
            !b,
    {
        false
    }

    /// The backend's name.
    pub fn backend_name(&self) -> (s: &'static str)
        ensures
            s@ == "sysfs-fallback"@,
    {
        proof {
            reveal_strlit("sysfs-fallback");
        }
        "sysfs-fallback"
    }
}

/// Cache records that carry the same information.
pub open spec fn same_cache(a: CacheInfo, b: CacheInfo) -> bool {
    &&& a.level == b.level
    &&& a.size_kb == b.size_kb
    &&& a.line_size == b.line_size
    &&& a.associativity == b.associativity
    &&& a.shared_cpus@ == b.shared_cpus@
}

/// How workers are bound to CPUs.
#[derive(Debug, Clone, Copy, PartialEq, Eq, Structural)]
pub enum AffinityStrategy {
    /// No binding: the system decides.
    Unbound,
    /// One CPU per worker, taking the NUMA nodes in turn.
    NUMARoundRobin,
    /// One CPU per worker, filling each NUMA node before the next.
    NUMADense,
    /// One CPU per worker among the even-numbered CPUs, taken as the
    /// physical cores.
    PhysicalCores,
    /// All the CPUs of one L3 cache per worker, taking the caches in turn.
    L3CacheDomain,
}

/// The name a strategy is shown by.
pub open spec fn strategy_label(s: AffinityStrategy) -> Seq<char> {
    match s {
        AffinityStrategy::Unbound => "None"@,
        AffinityStrategy::NUMARoundRobin => "NUMARoundRobin"@,
        AffinityStrategy::NUMADense => "NUMADense"@,
        AffinityStrategy::PhysicalCores => "PhysicalCores"@,
        AffinityStrategy::L3CacheDomain => "L3CacheDomain"@,
    }
}

/// The CPU of worker `w` when the nodes are taken in turn: node
/// `w % nodes`, and on it the CPU `(w / nodes) % cpus`; none when there is
/// no node or the node has no CPU.
pub open spec fn round_robin_cpus(nodes: Seq<NumaNode>, w: nat) -> Seq<usize> {
    if nodes.len() == 0 {
        Seq::empty()
    } else {
        let node = nodes[(w % nodes.len()) as int];
        if node.cpus@.len() == 0 {
            Seq::empty()
        } else {
            seq![node.cpus@[((w / nodes.len()) % node.cpus@.len()) as int]]
        }
    }
}

/// The CPU of worker `w` among the even CPUs below `n`.
pub open spec fn physical_core_cpus(w: nat, n: nat) -> Seq<usize> {
    let count = (n + 1) / 2;
    if count == 0 {
        Seq::empty()
    } else {
        seq![(2 * (w % count)) as usize]
    }
}

/// The L3 caches, in order.
pub open spec fn level3(caches: Seq<CacheInfo>) -> Seq<CacheInfo>
    decreases caches.len(),
{
    if caches.len() == 0 {
        Seq::empty()
    } else if caches.last().level == 3 {
        level3(caches.drop_last()).push(caches.last())
    } else {
        level3(caches.drop_last())
    }
}

/// The CPUs of worker `w`'s L3 cache: the caches are taken in turn.
pub open spec fn l3_domain_cpus(caches: Seq<CacheInfo>, w: nat) -> Seq<usize> {
    let l3 = level3(caches);
    if l3.len() == 0 {
        Seq::empty()
    } else {
        l3[(w % l3.len()) as int].shared_cpus@
    }
}

/// The CPUs of every node together.
pub open spec fn total_cpus(nodes: Seq<NumaNode>) -> nat {
    crate::numa::cpus_before(nodes, nodes.len() as int)
}

/// Binds workers to CPUs according to the topology and a strategy.
pub struct HwlocWorkerAffinity {
    topology: TopologyProvider,
    strategy: AffinityStrategy,
    num_workers: usize,
}

impl HwlocWorkerAffinity {
    /// The topology.
    pub closed spec fn topo(&self) -> TopologyProvider {
        self.topology
    }

    /// The strategy.
    pub closed spec fn strategy_used(&self) -> AffinityStrategy {
        self.strategy
    }

    /// The number of workers.
    pub closed spec fn workers(&self) -> usize {
        self.num_workers
    }

    /// Binding of `num_workers` workers under `strategy`.
    pub fn new(topology: TopologyProvider, strategy: AffinityStrategy, num_workers: usize) -> (a: Self)
        ensures
            a.topo() == topology,
            a.strategy_used() == strategy,
            a.workers() == num_workers,
    {
        HwlocWorkerAffinity { topology, strategy, num_workers }
    }

    /// The CPUs worker `worker_id` is bound to; none for no binding.  For
    /// `PhysicalCores` the CPUs are counted by `num_cpus`, at least one.
    pub fn cpus_for_worker(&self, worker_id: usize) -> (r: Vec<usize>)
        requires
            self.strategy_used() == AffinityStrategy::NUMADense ==>
                total_cpus(self.topo().backend().numa_layout().nodes@) <= usize::MAX,
        ensures
            ({
                let nodes = self.topo().backend().numa_layout().nodes@;
                match self.strategy_used() {
                    AffinityStrategy::Unbound => r@.len() == 0,
                    AffinityStrategy::NUMARoundRobin => r@ == round_robin_cpus(nodes, worker_id as nat),
                    AffinityStrategy::NUMADense => r@ == crate::numa::dense_from(nodes, worker_id as int, 0),
                    AffinityStrategy::PhysicalCores => exists|n: nat| n >= 1 && r@ == #[trigger] physical_core_cpus(worker_id as nat, n),
                    AffinityStrategy::L3CacheDomain => r@ == l3_domain_cpus(self.topo().backend().caches(), worker_id as nat),
                }
            }),
    {
        match self.strategy {
            AffinityStrategy::Unbound => Vec::new(),
            AffinityStrategy::NUMARoundRobin => {
                let nodes = self.topology.numa_nodes();
                if nodes.len() == 0 {
                    return Vec::new();
                }
                let node = &nodes[worker_id % nodes.len()];
                let local = worker_id / nodes.len();
                let m = if node.cpus.len() > 0 { node.cpus.len() } else { 1 };
                let idx = local % m;
                let mut v = Vec::new();
                if idx < node.cpus.len() {
                    v.push(node.cpus[idx]);
                }
                proof {
                    assert(v@ =~= round_robin_cpus(self.topo().backend().numa_layout().nodes@, worker_id as nat));
                }
                v
            },
            AffinityStrategy::NUMADense => dense_cpus(self.topology.numa_nodes(), worker_id),
            AffinityStrategy::PhysicalCores => {
                let n = self.topology.cpu_count();
                physical_core_for(worker_id, n)
            },
            AffinityStrategy::L3CacheDomain => {
                let caches = self.topology.cache_info();
                let mut l3: Vec<usize> = Vec::new();
                let ghost cs = self.topo().backend().caches();
                let mut k: usize = 0;
                while k < caches.len()
                    invariant
                        0 <= k <= caches@.len(),
                        caches@.len() == cs.len(),
                        forall|j: int| 0 <= j < caches@.len() ==> same_cache(#[trigger] caches@[j], cs[j]),
                        l3@.len() == level3(cs.subrange(0, k as int)).len(),
                        forall|j: int| 0 <= j < l3@.len() ==> #[trigger] l3@[j] < k
                            && same_cache(caches@[l3@[j] as int], level3(cs.subrange(0, k as int))[j]),
                    decreases caches@.len() - k,
                {
                    let ghost pre = cs.subrange(0, k as int);
                    let ghost post = cs.subrange(0, k as int + 1);
                    proof {
                        assert(post.drop_last() =~= pre);
                        assert(post.last() == cs[k as int]);
                    }
                    if caches[k].level == 3 {
                        l3.push(k);
                    }
                    k = k + 1;
                }
                proof {
                    assert(cs.subrange(0, cs.len() as int) =~= cs);
                }
                if l3.len() == 0 {
                    return Vec::new();
                }
                let pick = l3[worker_id % l3.len()];
                caches[pick].shared_cpus.clone()
            },
        }
    }

    /// A line describing the binding, as logs show it; the CPU count is
    /// the one `num_cpus` reports.
    pub fn describe(&self) -> (s: String)
        ensures
            exists|n: nat| n >= 1 && s@ == #[trigger] describe_text(
                self.strategy_used(), self.workers() as nat, self.topo().backend().numa_layout().nodes@.len(), n),
    {
        let mut s = String::new();
        push_str(&mut s, "HwlocWorkerAffinity { backend=");
        push_str(&mut s, self.topology.backend_name());
        push_str(&mut s, ", strategy=");
        push_str(&mut s, strategy_name(self.strategy));
        push_str(&mut s, ", workers=");
        push_decimal(&mut s, self.num_workers);
        push_str(&mut s, ", numa_nodes=");
        push_decimal(&mut s, self.topology.numa_nodes().len());
        push_str(&mut s, ", cpus=");
        let n = self.topology.cpu_count();
        push_decimal(&mut s, n);
        push_str(&mut s, " }");
        proof {
            assert(s@ =~= describe_text(self.strategy_used(), self.workers() as nat,
                self.topo().backend().numa_layout().nodes@.len(), n as nat));
        }
        s
    }
}

/// The description of a binding.
pub open spec fn describe_text(strategy: AffinityStrategy, workers: nat, nodes: nat, cpus: nat) -> Seq<char> {
    "HwlocWorkerAffinity { backend="@ + "sysfs-fallback"@ + ", strategy="@ + strategy_label(strategy)
        + ", workers="@ + decimal(workers) + ", numa_nodes="@ + decimal(nodes) + ", cpus="@ + decimal(cpus) + " }"@
}

fn strategy_name(s: AffinityStrategy) -> (r: &'static str)
    ensures
        r@ == strategy_label(s),
{
    proof {
        reveal_strlit("None");
        reveal_strlit("NUMARoundRobin");
        reveal_strlit("NUMADense");
        reveal_strlit("PhysicalCores");
        reveal_strlit("L3CacheDomain");
    }
    match s {
        AffinityStrategy::Unbound => "None",
        AffinityStrategy::NUMARoundRobin => "NUMARoundRobin",
        AffinityStrategy::NUMADense => "NUMADense",
        AffinityStrategy::PhysicalCores => "PhysicalCores",
        AffinityStrategy::L3CacheDomain => "L3CacheDomain",
    }
}

/// The CPU of worker `worker_id` among the even CPUs below `cpu_count`.
pub fn physical_core_for(worker_id: usize, cpu_count: usize) -> (r: Vec<usize>)
    ensures
        r@ == physical_core_cpus(worker_id as nat, cpu_count as nat),
{
    let count = cpu_count / 2 + cpu_count % 2;
    let mut v = Vec::new();
    if count > 0 {
        v.push(2 * (worker_id % count));
    }
    proof {
        assert(count == (cpu_count + 1) / 2);
        assert(v@ =~= physical_core_cpus(worker_id as nat, cpu_count as nat));
    }
    v
}

/// The CPU of worker `worker_id` when nodes are filled one after the other.
pub fn dense_cpus(nodes: &[NumaNode], worker_id: usize) -> (r: Vec<usize>)
    requires
        total_cpus(nodes@) <= usize::MAX,
    ensures
        r@ == crate::numa::dense_from(nodes@, worker_id as int, 0),
{
    let mut offset: usize = 0;
    let mut k: usize = 0;
    while k < nodes.len()
        invariant
            0 <= k <= nodes@.len(),
            offset == crate::numa::cpus_before(nodes@, k as int),
            worker_id >= offset,
            total_cpus(nodes@) <= usize::MAX,
            crate::numa::dense_from(nodes@, worker_id as int, 0) == crate::numa::dense_from(nodes@, worker_id - offset, k as int),
        decreases nodes@.len() - k,
    {
        proof {
            crate::numa::lemma_cpus_before_mono(nodes@, k as int, nodes@.len() as int);
        }
        let node = &nodes[k];
        if worker_id < offset + node.cpus.len() {
            let mut v = Vec::new();
            v.push(node.cpus[worker_id - offset]);
            proof {
                assert(v@ =~= crate::numa::dense_from(nodes@, worker_id - offset, k as int));
            }
            return v;
        }
        offset = offset + node.cpus.len();
        k = k + 1;
    }
    Vec::new()
}

} // verus!
