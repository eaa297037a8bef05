//! Data-parallel algorithms on task graphs: how the data is cut into
//! chunks, which tasks each algorithm adds and how they depend on each
//! other, and the sequential kernels that the tasks run.

use vstd::multiset::Multiset;
use vstd::prelude::*;

use crate::task::{TaskHandle, TaskId, TaskKind, TaskNode};
use crate::taskflow::{set_add, same_but_links, same_but_name, Taskflow};
use crate::text::{decimal, decimal_string, push_str, to_owned_string};

verus! {

/// Number of chunks of `chunk_size` items that cover `len` items.
pub open spec fn num_chunks(len: nat, chunk_size: nat) -> nat {
    ((len + chunk_size - 1) as nat) / chunk_size
}

/// Number of chunks of `chunk_size` items that cover `len` items (the
/// last one may be shorter).
pub fn chunk_count(len: usize, chunk_size: usize) -> (n: usize)
    requires
        chunk_size > 0,
        len + chunk_size - 1 <= usize::MAX,
    ensures
        n == num_chunks(len as nat, chunk_size as nat),
{
    (len + (chunk_size - 1)) / chunk_size
}

/// First and one-past-last index of chunk `chunk_id`.
pub fn chunk_bounds(len: usize, chunk_size: usize, chunk_id: usize) -> (r: (usize, usize))
    requires
        chunk_id * chunk_size + chunk_size <= usize::MAX,
    ensures
        r.0 == chunk_id * chunk_size,
        r.1 == if chunk_id * chunk_size + chunk_size < len { chunk_id * chunk_size + chunk_size } else { len as int },
{
    let start = chunk_id * chunk_size;
    let end = if start + chunk_size < len { start + chunk_size } else { len };
    (start, end)
}

/// Successors of local task `k` after the planned edges (local indices)
/// were added in order to tasks whose ids start at `first`.
pub open spec fn planned_succ(edges: Seq<(usize, usize)>, first: int, k: int) -> Seq<TaskId>
    decreases edges.len(),
{
    if edges.len() == 0 {
        Seq::empty()
    } else {
        let e = edges.last();
        let p = planned_succ(edges.drop_last(), first, k);
        if e.0 == k {
            set_add(p, (first + e.1) as TaskId)
        } else {
            p
        }
    }
}

/// Dependents of local task `k` after the planned edges were added.
pub open spec fn planned_deps(edges: Seq<(usize, usize)>, first: int, k: int) -> Seq<TaskId>
    decreases edges.len(),
{
    if edges.len() == 0 {
        Seq::empty()
    } else {
        let e = edges.last();
        let p = planned_deps(edges.drop_last(), first, k);
        if e.1 == k {
            set_add(p, (first + e.0) as TaskId)
        } else {
            p
        }
    }
}

/// The nodes from position `t0` on are the planned tasks: static, named
/// as planned, linked by exactly the planned edges.
pub open spec fn is_planned(
    t: Seq<TaskNode>,
    t0: int,
    first: int,
    names: Seq<Seq<char>>,
    edges: Seq<(usize, usize)>,
) -> bool {
    &&& t.len() == t0 + names.len()
    &&& forall|k: int| 0 <= k < names.len() ==> {
        let n = #[trigger] t[t0 + k];
        &&& n.id == first + k
        &&& n.name@ == names[k]
        &&& n.kind == TaskKind::Static
        &&& n.num_dependents == 0
        &&& n.successors@ == planned_succ(edges, first, k)
        &&& n.dependents@ == planned_deps(edges, first, k)
    }
}

/// Edges whose ends are both among the first `n` local tasks.
pub open spec fn edges_within(edges: Seq<(usize, usize)>, n: nat) -> bool {
    forall|j: int| 0 <= j < edges.len() ==> (#[trigger] edges[j]).0 < n && edges[j].1 < n
}

/// Views of a list of names.
pub open spec fn names_view(names: Seq<String>) -> Seq<Seq<char>> {
    names.map_values(|s: String| s@)
}

/// Adds one static task per work, named as given, then the given edges
/// between them (by position in `works`), in order; returns the handles.
pub fn add_planned_tasks<W>(
    tf: &mut Taskflow<W>,
    works: Vec<W>,
    names: Vec<String>,
    edges: Vec<(usize, usize)>,
) -> (hs: Vec<TaskHandle>)
    requires
        old(tf).wf(),
        works@.len() == names@.len(),
        old(tf).base_id() + old(tf).nodes().len() + works@.len() < usize::MAX,
        edges_within(edges@, works@.len()),
    ensures
        final(tf).wf(),
        final(tf).base_id() == old(tf).base_id(),
        final(tf).branch_tables() == old(tf).branch_tables(),
        final(tf).nodes().subrange(0, old(tf).nodes().len() as int) == old(tf).nodes(),
        is_planned(
            final(tf).nodes(),
            old(tf).nodes().len() as int,
            old(tf).base_id() + old(tf).nodes().len(),
            names_view(names@),
            edges@,
        ),
        final(tf).works() == old(tf).works() + works@.map_values(|w: W| Some(w)),
        hs@.len() == works@.len(),
        forall|i: int| 0 <= i < hs@.len() ==> #[trigger] hs@[i].spec_id() == old(tf).base_id() + old(tf).nodes().len() + i,
{
    let ghost w0 = works@;
    let ghost old_works = tf.works();
    let ghost old_nodes = tf.nodes();
    let ghost nv = names_view(names@);
    let mut works = works;
    let n = works.len();
    let t0 = tf.size();
    let base = tf.first_id() + t0;
    let mut rest: Vec<W> = Vec::new();
    while works.len() > 0
        invariant
            n == w0.len(),
            works@.len() <= n,
            works@ == w0.subrange(0, works@.len() as int),
            rest@.len() + works@.len() == n,
            forall|k: int| 0 <= k < rest@.len() ==> #[trigger] rest@[k] == w0[n - 1 - k],
        decreases works@.len(),
    {
        let w = works.pop().unwrap();
        rest.push(w);
    }
    proof {
        tf.lemma_wf();
    }
    let mut hs: Vec<TaskHandle> = Vec::new();
    let mut i: usize = 0;
    while i < n
        invariant
            tf.wf(),
            rest@.len() + i == n,
            n == w0.len(),
            n == names@.len(),
            nv == names_view(names@),
            forall|k: int| 0 <= k < rest@.len() ==> #[trigger] rest@[k] == w0[n - 1 - k],
            tf.works() == old_works + w0.subrange(0, i as int).map_values(|w: W| Some(w)),
            t0 == old_nodes.len(),
            base == tf.base_id() + t0,
            base + n < usize::MAX,
            tf.base_id() == old(tf).base_id(),
            tf.branch_tables() == old(tf).branch_tables(),
            tf.nodes().len() == t0 + i,
            tf.nodes().subrange(0, t0 as int) == old_nodes,
            hs@.len() == i,
            forall|k: int| 0 <= k < i ==> #[trigger] hs@[k].spec_id() == base + k,
            forall|k: int| 0 <= k < i ==> {
                let nd = #[trigger] tf.nodes()[t0 + k];
                &&& nd.id == base + k
                &&& nd.name@ == nv[k]
                &&& nd.kind == TaskKind::Static
                &&& nd.num_dependents == 0
                &&& nd.successors@ == Seq::<TaskId>::empty()
                &&& nd.dependents@ == Seq::<TaskId>::empty()
            },
        decreases n - i,
    {
        let w = rest.pop().unwrap();
        proof {
            assert(w == w0[i as int]);
            tf.lemma_wf();
        }
        let ghost g0 = tf.nodes();
        let h = tf.emplace(w);
        let ghost g1 = tf.nodes();
        tf.set_name(h.get_id(), names[i].as_str());
        let ghost g2 = tf.nodes();
        proof {
            assert forall|j: int| 0 <= j < t0 + i implies #[trigger] g2[j] == g0[j] by {
                assert(g1[j] == g0[j]);
                assert(g0[j].id == tf.base_id() + j);
            }
            assert(g1[t0 + i as int] == g1.last());
            assert(same_but_name(g2[t0 + i as int], g1[t0 + i as int]));
            assert(nv[i as int] == names@[i as int]@);
            assert forall|k: int| 0 <= k < i + 1 implies {
                let nd = #[trigger] tf.nodes()[t0 + k];
                &&& nd.id == base + k
                &&& nd.name@ == nv[k]
                &&& nd.kind == TaskKind::Static
                &&& nd.num_dependents == 0
                &&& nd.successors@ == Seq::<TaskId>::empty()
                &&& nd.dependents@ == Seq::<TaskId>::empty()
            } by {
                if k < i {
                    assert(g2[t0 + k] == g0[t0 + k]);
                }
            }
            assert forall|j: int| 0 <= j < t0 implies g2[j] == old_nodes[j] by {
                assert(g0.subrange(0, t0 as int)[j] == old_nodes[j]);
            }
            assert(tf.nodes().subrange(0, t0 as int) =~= old_nodes);
            assert(tf.works() =~= old_works + w0.subrange(0, i as int + 1).map_values(|w: W| Some(w)));
            tf.lemma_wf();
        }
        hs.push(h);
        i = i + 1;
    }
    proof {
        assert(w0.subrange(0, n as int) =~= w0);
    }
    let ghost g_named = tf.nodes();
    let mut j: usize = 0;
    while j < edges.len()
        invariant
            tf.wf(),
            n == names@.len(),
            nv == names_view(names@),
            edges_within(edges@, n as nat),
            t0 == old_nodes.len(),
            base == tf.base_id() + t0,
            base + n < usize::MAX,
            tf.base_id() == old(tf).base_id(),
            tf.branch_tables() == old(tf).branch_tables(),
            tf.works() == old_works + w0.map_values(|w: W| Some(w)),
            tf.nodes().len() == t0 + n,
            tf.nodes().subrange(0, t0 as int) == old_nodes,
            hs@.len() == n,
            forall|k: int| 0 <= k < n ==> #[trigger] hs@[k].spec_id() == base + k,
            0 <= j <= edges@.len(),
            forall|k: int| 0 <= k < n ==> {
                let nd = #[trigger] tf.nodes()[t0 + k];
                &&& nd.id == base + k
                &&& nd.name@ == nv[k]
                &&& nd.kind == TaskKind::Static
                &&& nd.num_dependents == 0
                &&& nd.successors@ == planned_succ(edges@.subrange(0, j as int), base as int, k)
                &&& nd.dependents@ == planned_deps(edges@.subrange(0, j as int), base as int, k)
            },
        decreases edges@.len() - j,
    {
        let e = edges[j];
        assert(edges@[j as int] == e);
        proof {
            tf.lemma_wf();
        }
        let ghost g0 = tf.nodes();
        let a = hs[e.0];
        let b = hs[e.1];
        a.precede(tf, &b);
        proof {
            let sub = edges@.subrange(0, j as int + 1);
            assert(sub.drop_last() =~= edges@.subrange(0, j as int));
            assert(sub.last() == e);
            assert forall|k: int| 0 <= k < n implies {
                let nd = #[trigger] tf.nodes()[t0 + k];
                &&& nd.id == base + k
                &&& nd.name@ == nv[k]
                &&& nd.kind == TaskKind::Static
                &&& nd.num_dependents == 0
                &&& nd.successors@ == planned_succ(sub, base as int, k)
                &&& nd.dependents@ == planned_deps(sub, base as int, k)
            } by {
                assert(same_but_links(tf.nodes()[t0 + k], g0[t0 + k]));
            }
            assert forall|q: int| 0 <= q < t0 implies tf.nodes()[q] == old_nodes[q] by {
                assert(g0.subrange(0, t0 as int)[q] == old_nodes[q]);
                assert(g0[q].id == tf.base_id() + q);
            }
            assert(tf.nodes().subrange(0, t0 as int) =~= old_nodes);
        }
        j = j + 1;
    }
    proof {
        assert(edges@.subrange(0, edges@.len() as int) =~= edges@);
        assert(names_view(names@).len() == n);
    }
    hs
}

/// Names `prefix` followed by `from`, `from + 1`, ... (`count` of them).
pub open spec fn indexed_names(prefix: Seq<char>, from: nat, count: nat) -> Seq<Seq<char>> {
    Seq::new(count, |i: int| prefix + decimal((from + i) as nat))
}

/// Edges from local tasks `from .. from + count` to local task `to`.
pub open spec fn fan_in(from: nat, count: nat, to: nat) -> Seq<(usize, usize)> {
    Seq::new(count, |i: int| ((from + i) as usize, to as usize))
}

/// Edges from local task `from` to local tasks `to .. to + count`.
pub open spec fn fan_out(from: nat, to: nat, count: nat) -> Seq<(usize, usize)> {
    Seq::new(count, |i: int| (from as usize, (to + i) as usize))
}

fn push_indexed_names(names: &mut Vec<String>, prefix: &str, from: usize, count: usize)
    requires
        from + count <= usize::MAX,
    ensures
        names_view(final(names)@) == names_view(old(names)@) + indexed_names(prefix@, from as nat, count as nat),
{
    let ghost n0 = names_view(names@);
    let mut i: usize = 0;
    while i < count
        invariant
            0 <= i <= count,
            from + count <= usize::MAX,
            names_view(names@) == n0 + indexed_names(prefix@, from as nat, i as nat),
        decreases count - i,
    {
        let mut name = to_owned_string(prefix);
        let digits = decimal_string(from + i);
        push_str(&mut name, digits.as_str());
        let ghost before = names@;
        names.push(name);
        proof {
            assert(names@.drop_last() == before);
            assert(names_view(names@) =~= names_view(before).push(name@));
            assert(names_view(names@) =~= n0 + indexed_names(prefix@, from as nat, (i + 1) as nat));
        }
        i = i + 1;
    }
}

fn push_name(names: &mut Vec<String>, name: &str)
    ensures
        names_view(final(names)@) == names_view(old(names)@).push(name@),
{
    let ghost before = names@;
    names.push(to_owned_string(name));
    proof {
        assert(names@.drop_last() == before);
        assert(names_view(names@) =~= names_view(before).push(name@));
    }
}

fn push_fan_in(edges: &mut Vec<(usize, usize)>, from: usize, count: usize, to: usize)
    requires
        from + count <= usize::MAX,
    ensures
        final(edges)@ == old(edges)@ + fan_in(from as nat, count as nat, to as nat),
{
    let ghost e0 = edges@;
    let mut i: usize = 0;
    while i < count
        invariant
            0 <= i <= count,
            from + count <= usize::MAX,
            edges@ == e0 + fan_in(from as nat, i as nat, to as nat),
        decreases count - i,
    {
        edges.push((from + i, to));
        assert(edges@ =~= e0 + fan_in(from as nat, (i + 1) as nat, to as nat));
        i = i + 1;
    }
}

fn push_fan_out(edges: &mut Vec<(usize, usize)>, from: usize, to: usize, count: usize)
    requires
        to + count <= usize::MAX,
    ensures
        final(edges)@ == old(edges)@ + fan_out(from as nat, to as nat, count as nat),
{
    let ghost e0 = edges@;
    let mut i: usize = 0;
    while i < count
        invariant
            0 <= i <= count,
            to + count <= usize::MAX,
            edges@ == e0 + fan_out(from as nat, to as nat, i as nat),
        decreases count - i,
    {
        edges.push((from, to + i));
        assert(edges@ =~= e0 + fan_out(from as nat, to as nat, (i + 1) as nat));
        i = i + 1;
    }
}

/// Adds one independent task per chunk work, named `for_each_chunk_<i>`.
pub fn parallel_for_each<W>(tf: &mut Taskflow<W>, chunk_works: Vec<W>) -> (hs: Vec<TaskHandle>)
    requires
        old(tf).wf(),
        old(tf).base_id() + old(tf).nodes().len() + chunk_works@.len() < usize::MAX,
    ensures
        final(tf).wf(),
        final(tf).base_id() == old(tf).base_id(),
        final(tf).branch_tables() == old(tf).branch_tables(),
        final(tf).nodes().subrange(0, old(tf).nodes().len() as int) == old(tf).nodes(),
        is_planned(
            final(tf).nodes(),
            old(tf).nodes().len() as int,
            old(tf).base_id() + old(tf).nodes().len(),
            indexed_names("for_each_chunk_"@, 0, chunk_works@.len()),
            Seq::empty(),
        ),
        final(tf).works() == old(tf).works() + chunk_works@.map_values(|w: W| Some(w)),
        hs@.len() == chunk_works@.len(),
        forall|i: int| 0 <= i < hs@.len() ==> #[trigger] hs@[i].spec_id() == old(tf).base_id() + old(tf).nodes().len() + i,
{
    let mut names: Vec<String> = Vec::new();
    push_indexed_names(&mut names, "for_each_chunk_", 0, chunk_works.len());
    let edges: Vec<(usize, usize)> = Vec::new();
    proof {
        assert(names_view(names@) =~= indexed_names("for_each_chunk_"@, 0, chunk_works@.len()));
    }
    add_planned_tasks(tf, chunk_works, names, edges)
}

/// Adds one independent task per chunk work, named `transform_chunk_<i>`.
pub fn parallel_transform<W>(tf: &mut Taskflow<W>, chunk_works: Vec<W>) -> (hs: Vec<TaskHandle>)
    requires
        old(tf).wf(),
        old(tf).base_id() + old(tf).nodes().len() + chunk_works@.len() < usize::MAX,
    ensures
        final(tf).wf(),
        final(tf).base_id() == old(tf).base_id(),
        final(tf).branch_tables() == old(tf).branch_tables(),
        final(tf).nodes().subrange(0, old(tf).nodes().len() as int) == old(tf).nodes(),
        is_planned(
            final(tf).nodes(),
            old(tf).nodes().len() as int,
            old(tf).base_id() + old(tf).nodes().len(),
            indexed_names("transform_chunk_"@, 0, chunk_works@.len()),
            Seq::empty(),
        ),
        final(tf).works() == old(tf).works() + chunk_works@.map_values(|w: W| Some(w)),
        hs@.len() == chunk_works@.len(),
        forall|i: int| 0 <= i < hs@.len() ==> #[trigger] hs@[i].spec_id() == old(tf).base_id() + old(tf).nodes().len() + i,
{
    let mut names: Vec<String> = Vec::new();
    push_indexed_names(&mut names, "transform_chunk_", 0, chunk_works.len());
    let edges: Vec<(usize, usize)> = Vec::new();
    proof {
        assert(names_view(names@) =~= indexed_names("transform_chunk_"@, 0, chunk_works@.len()));
    }
    add_planned_tasks(tf, chunk_works, names, edges)
}

/// Adds one task per chunk (`reduce_map_<i>`) and a combining task
/// (`reduce_combine`) that runs after all of them; returns the combining
/// task.
pub fn parallel_reduce<W>(tf: &mut Taskflow<W>, map_works: Vec<W>, combine: W) -> (h: TaskHandle)
    requires
        old(tf).wf(),
        old(tf).base_id() + old(tf).nodes().len() + map_works@.len() + 1 < usize::MAX,
    ensures
        final(tf).wf(),
        final(tf).base_id() == old(tf).base_id(),
        final(tf).branch_tables() == old(tf).branch_tables(),
        final(tf).nodes().subrange(0, old(tf).nodes().len() as int) == old(tf).nodes(),
        is_planned(
            final(tf).nodes(),
            old(tf).nodes().len() as int,
            old(tf).base_id() + old(tf).nodes().len(),
            indexed_names("reduce_map_"@, 0, map_works@.len()).push("reduce_combine"@),
            fan_in(0, map_works@.len(), map_works@.len()),
        ),
        final(tf).works() == old(tf).works() + map_works@.push(combine).map_values(|w: W| Some(w)),
        h.spec_id() == old(tf).base_id() + old(tf).nodes().len() + map_works@.len(),
{
    let n = map_works.len();
    let ghost mw = map_works@;
    let mut works = map_works;
    works.push(combine);
    let mut names: Vec<String> = Vec::new();
    push_indexed_names(&mut names, "reduce_map_", 0, n);
    push_name(&mut names, "reduce_combine");
    let mut edges: Vec<(usize, usize)> = Vec::new();
    push_fan_in(&mut edges, 0, n, n);
    proof {
        assert(edges@ =~= fan_in(0, n as nat, n as nat));
        assert forall|j: int| 0 <= j < edges@.len() implies (#[trigger] edges@[j]).0 < n + 1 && edges@[j].1 < n + 1 by {}
    }
    let hs = add_planned_tasks(tf, works, names, edges);
    hs[n]
}

/// Whether a sort of `len` items with chunks of `chunk_size` runs as one
/// sequential task rather than sorted chunks and a merge.
pub fn sorts_in_one_task(len: usize, chunk_size: usize) -> (b: bool)
    ensures
        b == (len <= chunk_size),
{
    len <= chunk_size
}

/// Task names of a chunked sort over `n` chunks.
pub open spec fn sort_names(sequential: bool, n: nat) -> Seq<Seq<char>> {
    if sequential {
        seq!["sort_sequential"@]
    } else {
        indexed_names("sort_chunk_"@, 0, n).push("sort_merge"@)
    }
}

/// Adds the tasks of a sort: one `sort_sequential` task when the data fits
/// in one chunk, else one `sort_chunk_<i>` task per chunk and a
/// `sort_merge` task after all of them; returns the last task.
pub fn parallel_sort<W>(
    tf: &mut Taskflow<W>,
    data_len: usize,
    chunk_size: usize,
    chunk_works: Vec<W>,
    last: W,
) -> (h: TaskHandle)
    requires
        old(tf).wf(),
        data_len > chunk_size ==> chunk_size > 0 && data_len + chunk_size - 1 <= usize::MAX
            && chunk_works@.len() == num_chunks(data_len as nat, chunk_size as nat),
        data_len <= chunk_size ==> chunk_works@.len() == 0,
        old(tf).base_id() + old(tf).nodes().len() + chunk_works@.len() + 1 < usize::MAX,
    ensures
        final(tf).wf(),
        final(tf).base_id() == old(tf).base_id(),
        final(tf).branch_tables() == old(tf).branch_tables(),
        final(tf).nodes().subrange(0, old(tf).nodes().len() as int) == old(tf).nodes(),
        is_planned(
            final(tf).nodes(),
            old(tf).nodes().len() as int,
            old(tf).base_id() + old(tf).nodes().len(),
            sort_names(data_len <= chunk_size, chunk_works@.len()),
            fan_in(0, chunk_works@.len(), chunk_works@.len()),
        ),
        final(tf).works() == old(tf).works() + chunk_works@.push(last).map_values(|w: W| Some(w)),
        h.spec_id() == old(tf).base_id() + old(tf).nodes().len() + chunk_works@.len(),
{
    let n = chunk_works.len();
    let mut works = chunk_works;
    works.push(last);
    let mut names: Vec<String> = Vec::new();
    if sorts_in_one_task(data_len, chunk_size) {
        push_name(&mut names, "sort_sequential");
        proof {
            assert(names_view(names@) =~= seq!["sort_sequential"@]);
        }
    } else {
        push_indexed_names(&mut names, "sort_chunk_", 0, n);
        push_name(&mut names, "sort_merge");
    }
    let mut edges: Vec<(usize, usize)> = Vec::new();
    push_fan_in(&mut edges, 0, n, n);
    proof {
        assert(edges@ =~= fan_in(0, n as nat, n as nat));
        assert forall|j: int| 0 <= j < edges@.len() implies (#[trigger] edges@[j]).0 < n + 1 && edges@[j].1 < n + 1 by {}
    }
    let hs = add_planned_tasks(tf, works, names, edges);
    hs[n]
}

/// Task names of a three-phase scan over `n` chunks: a local scan per
/// chunk, the scan of the chunk totals, and a fix-up per chunk but the
/// first.
pub open spec fn scan_names(n: nat) -> Seq<Seq<char>> {
    indexed_names("scan_phase1_"@, 0, n).push("scan_phase2"@) + indexed_names("scan_phase3_"@, 1, (n - 1) as nat)
}

/// Edges of a three-phase scan over `n` chunks: every local scan before
/// the scan of totals, which comes before every fix-up.
pub open spec fn scan_edges(n: nat) -> Seq<(usize, usize)> {
    fan_in(0, n, n) + fan_out(n, n + 1, (n - 1) as nat)
}

fn scan_plan(names: &mut Vec<String>, edges: &mut Vec<(usize, usize)>, n: usize)
    requires
        n >= 1,
        2 * n < usize::MAX,
    ensures
        names_view(final(names)@) == names_view(old(names)@) + scan_names(n as nat),
        final(edges)@ == old(edges)@ + scan_edges(n as nat),
{
    let ghost n0 = names_view(names@);
    let ghost e0 = edges@;
    push_indexed_names(names, "scan_phase1_", 0, n);
    push_name(names, "scan_phase2");
    push_indexed_names(names, "scan_phase3_", 1, n - 1);
    push_fan_in(edges, 0, n, n);
    push_fan_out(edges, n, n + 1, n - 1);
    proof {
        assert(names_view(names@) =~= n0 + scan_names(n as nat));
        assert(edges@ =~= e0 + scan_edges(n as nat));
    }
}

/// Adds the tasks of an inclusive scan of `data_len` items: nothing for no
/// items; else a `scan_phase1_<i>` task per chunk, a `scan_phase2` task
/// after all of them, and a `scan_phase3_<i>` task for each chunk but the
/// first after that.  Returns the tasks in that order.
pub fn parallel_inclusive_scan<W>(
    tf: &mut Taskflow<W>,
    data_len: usize,
    chunk_size: usize,
    phase1: Vec<W>,
    phase2: W,
    phase3: Vec<W>,
) -> (hs: Vec<TaskHandle>)
    requires
        old(tf).wf(),
        data_len > 0 ==> chunk_size > 0 && data_len + chunk_size - 1 <= usize::MAX
            && phase1@.len() == num_chunks(data_len as nat, chunk_size as nat)
            && phase3@.len() + 1 == phase1@.len(),
        old(tf).base_id() + old(tf).nodes().len() + 2 * phase1@.len() < usize::MAX,
    ensures
        data_len == 0 ==> *final(tf) == *old(tf) && hs@.len() == 0,
        data_len > 0 ==> {
            &&& final(tf).wf()
            &&& final(tf).base_id() == old(tf).base_id()
            &&& final(tf).branch_tables() == old(tf).branch_tables()
            &&& final(tf).nodes().subrange(0, old(tf).nodes().len() as int) == old(tf).nodes()
            &&& is_planned(
                final(tf).nodes(),
                old(tf).nodes().len() as int,
                old(tf).base_id() + old(tf).nodes().len(),
                scan_names(phase1@.len()),
                scan_edges(phase1@.len()),
            )
            &&& final(tf).works() == old(tf).works() + (phase1@.push(phase2) + phase3@).map_values(|w: W| Some(w))
            &&& hs@.len() == 2 * phase1@.len()
            &&& forall|i: int| 0 <= i < hs@.len() ==> #[trigger] hs@[i].spec_id() == old(tf).base_id() + old(tf).nodes().len() + i
        },
{
    if data_len == 0 {
        return Vec::new();
    }
    let n = phase1.len();
    proof {
        assert(n >= 1) by (nonlinear_arith)
            requires
                data_len > 0,
                chunk_size > 0,
                n == ((data_len + chunk_size - 1) as nat) / (chunk_size as nat),
        {}
    }
    let ghost p1 = phase1@;
    let ghost p3 = phase3@;
    let mut works = phase1;
    works.push(phase2);
    let mut rest = phase3;
    works.append(&mut rest);
    let mut names: Vec<String> = Vec::new();
    let mut edges: Vec<(usize, usize)> = Vec::new();
    scan_plan(&mut names, &mut edges, n);
    proof {
        assert(names_view(names@) =~= scan_names(n as nat));
        assert(edges@ =~= scan_edges(n as nat));
        assert(works@ =~= p1.push(phase2) + p3);
        assert forall|j: int| 0 <= j < edges@.len() implies (#[trigger] edges@[j]).0 < 2 * n && edges@[j].1 < 2 * n by {
            if j >= n {
                assert(edges@[j] == fan_out(n as nat, (n + 1) as nat, (n - 1) as nat)[j - n]);
            }
        }
    }
    add_planned_tasks(tf, works, names, edges)
}

/// Adds the tasks of an exclusive scan of `data_len` items: those of the
/// inclusive scan, then a `scan_shift` task after all of them.  Returns
/// all the tasks in that order.
pub fn parallel_exclusive_scan<W>(
    tf: &mut Taskflow<W>,
    data_len: usize,
    chunk_size: usize,
    phase1: Vec<W>,
    phase2: W,
    phase3: Vec<W>,
    shift: W,
) -> (hs: Vec<TaskHandle>)
    requires
        old(tf).wf(),
        data_len > 0 ==> chunk_size > 0 && data_len + chunk_size - 1 <= usize::MAX
            && phase1@.len() == num_chunks(data_len as nat, chunk_size as nat)
            && phase3@.len() + 1 == phase1@.len(),
        old(tf).base_id() + old(tf).nodes().len() + 2 * phase1@.len() + 1 < usize::MAX,
    ensures
        data_len == 0 ==> *final(tf) == *old(tf) && hs@.len() == 0,
        data_len > 0 ==> {
            &&& final(tf).wf()
            &&& final(tf).base_id() == old(tf).base_id()
            &&& final(tf).branch_tables() == old(tf).branch_tables()
            &&& final(tf).nodes().subrange(0, old(tf).nodes().len() as int) == old(tf).nodes()
            &&& is_planned(
                final(tf).nodes(),
                old(tf).nodes().len() as int,
                old(tf).base_id() + old(tf).nodes().len(),
                scan_names(phase1@.len()).push("scan_shift"@),
                scan_edges(phase1@.len()) + fan_in(0, 2 * phase1@.len(), 2 * phase1@.len()),
            )
            &&& final(tf).works() == old(tf).works() + (phase1@.push(phase2) + phase3@).push(shift).map_values(
                |w: W| Some(w),
            )
            &&& hs@.len() == 2 * phase1@.len() + 1
            &&& forall|i: int| 0 <= i < hs@.len() ==> #[trigger] hs@[i].spec_id() == old(tf).base_id() + old(tf).nodes().len() + i
        },
{
    if data_len == 0 {
        return Vec::new();
    }
    let n = phase1.len();
    proof {
        assert(n >= 1) by (nonlinear_arith)
            requires
                data_len > 0,
                chunk_size > 0,
                n == ((data_len + chunk_size - 1) as nat) / (chunk_size as nat),
        {}
    }
    let ghost p1 = phase1@;
    let ghost p3 = phase3@;
    let mut works = phase1;
    works.push(phase2);
    let mut rest = phase3;
    works.append(&mut rest);
    works.push(shift);
    let mut names: Vec<String> = Vec::new();
    let mut edges: Vec<(usize, usize)> = Vec::new();
    scan_plan(&mut names, &mut edges, n);
    push_name(&mut names, "scan_shift");
    push_fan_in(&mut edges, 0, 2 * n, 2 * n);
    proof {
        assert(names_view(names@) =~= scan_names(n as nat).push("scan_shift"@));
        assert(edges@ =~= scan_edges(n as nat) + fan_in(0, 2 * n as nat, 2 * n as nat));
        assert(works@ =~= (p1.push(phase2) + p3).push(shift));
        assert forall|j: int| 0 <= j < edges@.len() implies (#[trigger] edges@[j]).0 < 2 * n + 1 && edges@[j].1 < 2 * n + 1 by {
            if n <= j < 2 * n - 1 {
                assert(edges@[j] == fan_out(n as nat, (n + 1) as nat, (n - 1) as nat)[j - n]);
            } else if j >= 2 * n - 1 {
                assert(edges@[j] == fan_in(0, 2 * n as nat, 2 * n as nat)[j - (2 * n - 1)]);
            }
        }
    }
    add_planned_tasks(tf, works, names, edges)
}

/// `op` accepts any two values and gives one result for them.
pub open spec fn total_op<T, F: Fn(T, T) -> T>(op: F) -> bool {
    &&& forall|a: T, b: T| #[trigger] op.requires((a, b))
    &&& forall|a: T, b: T, r1: T, r2: T|
        #![trigger op.ensures((a, b), r1), op.ensures((a, b), r2)]
        op.ensures((a, b), r1) && op.ensures((a, b), r2) ==> r1 == r2
}

/// The result of `op` on `a` and `b`.
pub open spec fn apply<T, F: Fn(T, T) -> T>(op: F, a: T, b: T) -> T {
    choose|r: T| op.ensures((a, b), r)
}

/// `op` is associative.
pub open spec fn associative<T, F: Fn(T, T) -> T>(op: F) -> bool {
    forall|a: T, b: T, c: T| #[trigger] apply(op, apply(op, a, b), c) == apply(op, a, apply(op, b, c))
}

/// `e` is a left and right identity of `op`.
pub open spec fn is_identity<T, F: Fn(T, T) -> T>(op: F, e: T) -> bool {
    forall|a: T| #![trigger apply(op, e, a)] #![trigger apply(op, a, e)] apply(op, e, a) == a && apply(op, a, e) == a
}

proof fn lemma_apply<T, F: Fn(T, T) -> T>(op: F, a: T, b: T, r: T)
    requires
        total_op(op),
        op.ensures((a, b), r),
    ensures
        r == apply(op, a, b),
{
    assert(op.ensures((a, b), apply(op, a, b)));
}

fn call_op<T, F: Fn(T, T) -> T>(op: &F, a: T, b: T) -> (r: T)
    requires
        total_op(*op),
    ensures
        r == apply(*op, a, b),
{
    let r = op(a, b);
    proof {
        lemma_apply(*op, a, b, r);
    }
    r
}

/// `op` folded over a non-empty sequence from the left, without a seed.
pub open spec fn fold1<T, F: Fn(T, T) -> T>(op: F, s: Seq<T>) -> T
    decreases s.len(),
{
    if s.len() <= 1 {
        s[0]
    } else {
        apply(op, fold1(op, s.drop_last()), s.last())
    }
}

/// `op` folded over `s` from the left, starting from `init`.
pub open spec fn foldl<T, F: Fn(T, T) -> T>(op: F, init: T, s: Seq<T>) -> T
    decreases s.len(),
{
    if s.len() == 0 {
        init
    } else {
        apply(op, foldl(op, init, s.drop_last()), s.last())
    }
}

/// Inclusive scan: element `i` is `op` folded over the first `i + 1`
/// elements.
pub open spec fn inclusive_scan_of<T, F: Fn(T, T) -> T>(op: F, s: Seq<T>) -> Seq<T> {
    Seq::new(s.len(), |i: int| fold1(op, s.subrange(0, i + 1)))
}

/// Exclusive scan: `identity`, then the inclusive scan without its last
/// element.
pub open spec fn exclusive_scan_of<T, F: Fn(T, T) -> T>(op: F, s: Seq<T>, identity: T) -> Seq<T> {
    Seq::new(s.len(), |i: int| if i == 0 { identity } else { fold1(op, s.subrange(0, i)) })
}

/// Phase one of a chunked scan: the inclusive scan of `data[start..end]`
/// and the total of that chunk.
pub fn scan_chunk<T: Copy, F: Fn(T, T) -> T>(data: &[T], start: usize, end: usize, op: &F) -> (r: (Vec<T>, T))
    requires
        total_op(*op),
        start < end <= data@.len(),
    ensures
        r.0@ == inclusive_scan_of(*op, data@.subrange(start as int, end as int)),
        r.1 == fold1(*op, data@.subrange(start as int, end as int)),
{
    let ghost s = data@.subrange(start as int, end as int);
    let mut sum = data[start];
    let mut local: Vec<T> = Vec::new();
    local.push(sum);
    proof {
        assert(s.subrange(0, 1).len() == 1);
    }
    let mut i = start + 1;
    while i < end
        invariant
            total_op(*op),
            start < i <= end <= data@.len(),
            s == data@.subrange(start as int, end as int),
            local@.len() == i - start,
            forall|k: int| 0 <= k < local@.len() ==> #[trigger] local@[k] == fold1(*op, s.subrange(0, k + 1)),
            sum == fold1(*op, s.subrange(0, i - start)),
        decreases end - i,
    {
        sum = call_op(op, sum, data[i]);
        local.push(sum);
        proof {
            let p = s.subrange(0, i - start + 1);
            assert(p.drop_last() =~= s.subrange(0, i - start));
            assert(p.last() == data@[i as int]);
        }
        i = i + 1;
    }
    proof {
        assert(s.subrange(0, end - start) =~= s);
        assert(local@ =~= inclusive_scan_of(*op, s));
    }
    (local, sum)
}

/// Phase two of a chunked scan: the inclusive scan of the chunk totals.
pub fn scan_totals<T: Copy, F: Fn(T, T) -> T>(sums: &[T], op: &F) -> (r: Vec<T>)
    requires
        total_op(*op),
    ensures
        r@ == inclusive_scan_of(*op, sums@),
{
    if sums.len() == 0 {
        let r: Vec<T> = Vec::new();
        assert(r@ =~= inclusive_scan_of(*op, sums@));
        return r;
    }
    let r = scan_chunk(sums, 0, sums.len(), op);
    proof {
        assert(sums@.subrange(0, sums@.len() as int) =~= sums@);
    }
    r.0
}

/// Phase three of a chunked scan: `op(prefix, x)` for each local result
/// `x` of a chunk after the first.
pub fn scan_fix<T: Copy, F: Fn(T, T) -> T>(prefix: T, local: &[T], op: &F) -> (r: Vec<T>)
    requires
        total_op(*op),
    ensures
        r@.len() == local@.len(),
        forall|k: int| 0 <= k < local@.len() ==> #[trigger] r@[k] == apply(*op, prefix, local@[k]),
{
    let mut r: Vec<T> = Vec::new();
    let mut k: usize = 0;
    while k < local.len()
        invariant
            total_op(*op),
            0 <= k <= local@.len(),
            r@.len() == k,
            forall|j: int| 0 <= j < k ==> #[trigger] r@[j] == apply(*op, prefix, local@[j]),
        decreases local@.len() - k,
    {
        let v = call_op(op, prefix, local[k]);
        r.push(v);
        k = k + 1;
    }
    r
}

/// The last step of an exclusive scan: `identity`, then the inclusive
/// results shifted right by one.
pub fn scan_shift<T: Copy>(inclusive: &[T], identity: T) -> (r: Vec<T>)
    ensures
        r@.len() == inclusive@.len(),
        forall|k: int| 0 <= k < r@.len() ==> #[trigger] r@[k] == if k == 0 { identity } else { inclusive@[k - 1] },
{
    let mut r: Vec<T> = Vec::new();
    let mut k: usize = 0;
    while k < inclusive.len()
        invariant
            0 <= k <= inclusive@.len(),
            r@.len() == k,
            forall|j: int| 0 <= j < k ==> #[trigger] r@[j] == if j == 0 { identity } else { inclusive@[j - 1] },
        decreases inclusive@.len() - k,
    {
        if k == 0 {
            r.push(identity);
        } else {
            r.push(inclusive[k - 1]);
        }
        k = k + 1;
    }
    r
}

/// One chunk of a reduction: `op` folded over `items` from `init`.
pub fn fold_chunk<T: Copy, F: Fn(T, T) -> T>(init: T, items: &[T], op: &F) -> (r: T)
    requires
        total_op(*op),
    ensures
        r == foldl(*op, init, items@),
{
    let mut acc = init;
    let mut k: usize = 0;
    while k < items.len()
        invariant
            total_op(*op),
            0 <= k <= items@.len(),
            acc == foldl(*op, init, items@.subrange(0, k as int)),
        decreases items@.len() - k,
    {
        proof {
            let p = items@.subrange(0, k as int + 1);
            assert(p.drop_last() =~= items@.subrange(0, k as int));
        }
        acc = call_op(op, acc, items[k]);
        k = k + 1;
    }
    proof {
        assert(items@.subrange(0, items@.len() as int) =~= items@);
    }
    acc
}

/// Total of chunk `j` of `s` (chunks of `cs` items, the last one shorter).
pub open spec fn chunk_total<T, F: Fn(T, T) -> T>(op: F, s: Seq<T>, cs: nat, j: int) -> T {
    let end = if (j + 1) * cs < s.len() { (j + 1) * cs } else { s.len() as int };
    fold1(op, s.subrange(j * cs, end))
}

/// Totals of all chunks of `s`.
pub open spec fn chunk_totals<T, F: Fn(T, T) -> T>(op: F, s: Seq<T>, cs: nat) -> Seq<T> {
    Seq::new(num_chunks(s.len(), cs), |j: int| chunk_total(op, s, cs, j))
}

/// What the three phases compute at position `i`: the scan within its
/// chunk, preceded (after the first chunk) by the scan of the totals of
/// the chunks before it.
pub open spec fn chunked_scan_at<T, F: Fn(T, T) -> T>(op: F, s: Seq<T>, cs: nat, i: int) -> T {
    let c = i / (cs as int);
    let local = fold1(op, s.subrange(c * cs, i + 1));
    if c == 0 {
        local
    } else {
        apply(op, fold1(op, chunk_totals(op, s, cs).subrange(0, c)), local)
    }
}

/// The result of the three phases of a chunked scan.
pub open spec fn chunked_scan_of<T, F: Fn(T, T) -> T>(op: F, s: Seq<T>, cs: nat) -> Seq<T> {
    Seq::new(s.len(), |i: int| chunked_scan_at(op, s, cs, i))
}

proof fn lemma_fold1_concat<T, F: Fn(T, T) -> T>(op: F, a: Seq<T>, b: Seq<T>)
    requires
        associative(op),
        a.len() > 0,
        b.len() > 0,
    ensures
        fold1(op, a + b) == apply(op, fold1(op, a), fold1(op, b)),
    decreases b.len(),
{
    if b.len() == 1 {
        assert((a + b).drop_last() =~= a);
    } else {
        lemma_fold1_concat(op, a, b.drop_last());
        assert((a + b).drop_last() =~= a + b.drop_last());
        assert(apply(op, apply(op, fold1(op, a), fold1(op, b.drop_last())), b.last())
            == apply(op, fold1(op, a), apply(op, fold1(op, b.drop_last()), b.last())));
    }
}

proof fn lemma_chunk_of(i: int, c: int, cs: int)
    requires
        cs > 0,
        c >= 0,
        c * cs <= i < c * cs + cs,
    ensures
        i / cs == c,
{
    assert(i / cs == c) by (nonlinear_arith)
        requires
            cs > 0,
            c >= 0,
            c * cs <= i < c * cs + cs,
    {}
}

proof fn lemma_totals_prefix<T, F: Fn(T, T) -> T>(op: F, s: Seq<T>, cs: nat, c: int)
    requires
        associative(op),
        cs > 0,
        1 <= c,
        c * cs <= s.len(),
    ensures
        c <= chunk_totals(op, s, cs).len(),
        fold1(op, chunk_totals(op, s, cs).subrange(0, c)) == fold1(op, s.subrange(0, c * cs)),
    decreases c,
{
    let t = chunk_totals(op, s, cs);
    assert(c <= t.len()) by (nonlinear_arith)
        requires
            cs > 0,
            1 <= c,
            c * cs <= s.len(),
            t.len() == ((s.len() + cs - 1) as nat) / cs,
    {}
    assert(c * cs == (c - 1) * cs + cs) by (nonlinear_arith);
    assert(t[c - 1] == fold1(op, s.subrange((c - 1) * cs, c * cs)));
    if c == 1 {
        assert((c - 1) * cs == 0 && c * cs == cs) by (nonlinear_arith)
            requires
                c == 1,
        {}
        assert(t.subrange(0, 1).len() == 1);
        assert(fold1(op, t.subrange(0, 1)) == t[0]);
    } else {
        lemma_totals_prefix(op, s, cs, c - 1);
        assert(t.subrange(0, c).drop_last() =~= t.subrange(0, c - 1));
        assert(t.subrange(0, c).last() == t[c - 1]);
        assert(fold1(op, t.subrange(0, c)) == apply(op, fold1(op, t.subrange(0, c - 1)), t[c - 1]));
        assert((c - 1) * cs > 0) by (nonlinear_arith)
            requires
                cs > 0,
                c > 1,
        {}
        lemma_fold1_concat(op, s.subrange(0, (c - 1) * cs), s.subrange((c - 1) * cs, c * cs));
        assert(s.subrange(0, (c - 1) * cs) + s.subrange((c - 1) * cs, c * cs) =~= s.subrange(0, c * cs));
    }
}

/// With an associative `op`, the three phases of a chunked scan give the
/// inclusive scan, whatever the chunk size.
pub proof fn lemma_chunked_scan_is_scan<T, F: Fn(T, T) -> T>(op: F, s: Seq<T>, cs: nat)
    requires
        associative(op),
        cs > 0,
    ensures
        chunked_scan_of(op, s, cs) == inclusive_scan_of(op, s),
{
    assert forall|i: int| 0 <= i < s.len() implies #[trigger] chunked_scan_at(op, s, cs, i) == fold1(
        op,
        s.subrange(0, i + 1),
    ) by {
        let c = i / (cs as int);
        assert(c * cs <= i < c * cs + cs && c >= 0) by (nonlinear_arith)
            requires
                cs > 0,
                i >= 0,
                c == i / (cs as int),
        {}
        if c == 0 {
            assert(c * cs == 0) by (nonlinear_arith)
                requires
                    c == 0,
            {}
        } else {
            lemma_totals_prefix(op, s, cs, c);
            assert(c * cs > 0) by (nonlinear_arith)
                requires
                    cs > 0,
                    c > 0,
            {}
            lemma_fold1_concat(op, s.subrange(0, c * cs), s.subrange(c * cs, i + 1));
            assert(s.subrange(0, c * cs) + s.subrange(c * cs, i + 1) =~= s.subrange(0, i + 1));
        }
    }
    assert(chunked_scan_of(op, s, cs) =~= inclusive_scan_of(op, s));
}

/// The inclusive scan of `data` computed by the three phases over chunks of
/// `chunk_size`, one after the other: local scans, the scan of the chunk
/// totals, and the fix-up of every chunk after the first.
pub fn scan_in_chunks<T: Copy, F: Fn(T, T) -> T>(data: &[T], chunk_size: usize, op: &F) -> (r: Vec<T>)
    requires
        total_op(*op),
        chunk_size > 0,
        data@.len() + chunk_size - 1 <= usize::MAX,
    ensures
        r@ == chunked_scan_of(*op, data@, chunk_size as nat),
        associative(*op) ==> r@ == inclusive_scan_of(*op, data@),
{
    let len = data.len();
    let ghost s = data@;
    let ghost cs = chunk_size as nat;
    let n = chunk_count(len, chunk_size);
    let mut locals: Vec<Vec<T>> = Vec::new();
    let mut sums: Vec<T> = Vec::new();
    let mut c: usize = 0;
    while c < n
        invariant
            total_op(*op),
            s == data@,
            len == s.len(),
            chunk_size > 0,
            len + chunk_size - 1 <= usize::MAX,
            n == num_chunks(len as nat, cs),
            cs == chunk_size,
            0 <= c <= n,
            locals@.len() == c,
            sums@.len() == c,
            forall|j: int| 0 <= j < c ==> #[trigger] sums@[j] == chunk_total(*op, s, cs, j),
            forall|j: int| 0 <= j < c ==> {
                let end = if (j + 1) * cs < len { (j + 1) * cs } else { len as int };
                #[trigger] locals@[j]@ == inclusive_scan_of(*op, s.subrange(j * cs, end))
            },
        decreases n - c,
    {
        proof {
            assert(c * chunk_size < len && c * chunk_size + chunk_size <= usize::MAX) by (nonlinear_arith)
                requires
                    c < n,
                    n == ((len + chunk_size - 1) as nat) / (chunk_size as nat),
                    chunk_size > 0,
                    len + chunk_size - 1 <= usize::MAX,
            {}
            assert((c + 1) * cs == c * cs + cs) by (nonlinear_arith);
        }
        let (start, end) = chunk_bounds(len, chunk_size, c);
        let (local, sum) = scan_chunk(data, start, end, op);
        locals.push(local);
        sums.push(sum);
        c = c + 1;
    }
    let prefixes = scan_totals(sums.as_slice(), op);
    proof {
        assert(sums@ =~= chunk_totals(*op, s, cs));
    }
    let mut r: Vec<T> = Vec::new();
    let mut c: usize = 0;
    while c < n
        invariant
            total_op(*op),
            s == data@,
            len == s.len(),
            chunk_size > 0,
            len + chunk_size - 1 <= usize::MAX,
            n == num_chunks(len as nat, cs),
            cs == chunk_size,
            0 <= c <= n,
            locals@.len() == n,
            sums@ == chunk_totals(*op, s, cs),
            prefixes@ == inclusive_scan_of(*op, sums@),
            forall|j: int| 0 <= j < n ==> {
                let end = if (j + 1) * cs < len { (j + 1) * cs } else { len as int };
                #[trigger] locals@[j]@ == inclusive_scan_of(*op, s.subrange(j * cs, end))
            },
            r@.len() == if c * cs < len { c * cs } else { len as int },
            forall|i: int| 0 <= i < r@.len() ==> #[trigger] r@[i] == chunked_scan_at(*op, s, cs, i),
        decreases n - c,
    {
        proof {
            assert(c * chunk_size < len && c * chunk_size + chunk_size <= usize::MAX) by (nonlinear_arith)
                requires
                    c < n,
                    n == ((len + chunk_size - 1) as nat) / (chunk_size as nat),
                    chunk_size > 0,
                    len + chunk_size - 1 <= usize::MAX,
            {}
            assert((c + 1) * cs == c * cs + cs) by (nonlinear_arith);
        }
        let ghost start = c * cs;
        let ghost end = if (c + 1) * cs < len { (c + 1) * cs } else { len as int };
        let ghost old_r = r@;
        let local = &locals[c];
        proof {
            assert(local@ == inclusive_scan_of(*op, s.subrange(start, end)));
            assert(old_r.len() == start);
        }
        let vals: Vec<T> = if c == 0 {
            let mut v: Vec<T> = Vec::new();
            let mut k: usize = 0;
            while k < local.len()
                invariant
                    0 <= k <= local@.len(),
                    v@ == local@.subrange(0, k as int),
                decreases local@.len() - k,
            {
                v.push(local[k]);
                k = k + 1;
            }
            assert(v@ =~= local@);
            v
        } else {
            scan_fix(prefixes[c - 1], local.as_slice(), op)
        };
        proof {
            assert forall|k: int| 0 <= k < vals@.len() implies #[trigger] vals@[k] == if c == 0 { local@[k] } else {
                apply(*op, prefixes@[c - 1], local@[k])
            } by {}
        }
        let mut k: usize = 0;
        while k < vals.len()
            invariant
                0 <= k <= vals@.len(),
                r@.len() == old_r.len() + k,
                forall|i: int| 0 <= i < old_r.len() ==> #[trigger] r@[i] == old_r[i],
                forall|i: int| 0 <= i < k ==> #[trigger] r@[old_r.len() + i] == vals@[i],
            decreases vals@.len() - k,
        {
            r.push(vals[k]);
            k = k + 1;
        }
        proof {
            assert(end - start == local@.len());
            assert(vals@.len() == local@.len());
            assert forall|i: int| 0 <= i < r@.len() implies #[trigger] r@[i] == chunked_scan_at(*op, s, cs, i) by {
                if i >= start {
                    let k = i - start;
                    assert(r@[old_r.len() + k] == vals@[k]);
                    lemma_chunk_of(i, c as int, cs as int);
                    assert(local@[k] == fold1(*op, s.subrange(start, end).subrange(0, k + 1)));
                    assert(s.subrange(start, end).subrange(0, k + 1) =~= s.subrange(c * cs, i + 1));
                    if c > 0 {
                        assert(prefixes@[c - 1] == fold1(*op, sums@.subrange(0, c as int)));
                    }
                } else {
                    assert(r@[i] == old_r[i]);
                }
            }
        }
        c = c + 1;
    }
    proof {
        assert(r@.len() == len) by (nonlinear_arith)
            requires
                r@.len() == if n * cs < len { n * cs } else { len as int },
                n == ((len + cs - 1) as nat) / cs,
                cs > 0,
        {}
        assert(r@ =~= chunked_scan_of(*op, s, cs));
        if associative(*op) {
            lemma_chunked_scan_is_scan(*op, s, cs);
        }
    }
    r
}

/// The exclusive scan of `data` computed in chunks: the chunked inclusive
/// scan shifted right by one behind `identity`.
pub fn exclusive_scan_in_chunks<T: Copy, F: Fn(T, T) -> T>(
    data: &[T],
    chunk_size: usize,
    op: &F,
    identity: T,
) -> (r: Vec<T>)
    requires
        total_op(*op),
        chunk_size > 0,
        data@.len() + chunk_size - 1 <= usize::MAX,
    ensures
        r@.len() == data@.len(),
        forall|k: int| 0 <= k < r@.len() ==> #[trigger] r@[k] == if k == 0 { identity } else {
            chunked_scan_at(*op, data@, chunk_size as nat, k - 1)
        },
        associative(*op) ==> r@ == exclusive_scan_of(*op, data@, identity),
{
    let incl = scan_in_chunks(data, chunk_size, op);
    let r = scan_shift(incl.as_slice(), identity);
    proof {
        if associative(*op) {
            assert forall|k: int| 0 <= k < r@.len() implies #[trigger] r@[k] == exclusive_scan_of(*op, data@, identity)[k] by {
                if k > 0 {
                    assert(incl@[k - 1] == inclusive_scan_of(*op, data@)[k - 1]);
                }
            }
            assert(r@ =~= exclusive_scan_of(*op, data@, identity));
        }
    }
    r
}

proof fn lemma_foldl_concat<T, F: Fn(T, T) -> T>(op: F, e: T, a: Seq<T>, b: Seq<T>)
    requires
        associative(op),
        is_identity(op, e),
    ensures
        foldl(op, e, a + b) == apply(op, foldl(op, e, a), foldl(op, e, b)),
    decreases b.len(),
{
    if b.len() == 0 {
        assert(a + b =~= a);
        assert(apply(op, foldl(op, e, a), e) == foldl(op, e, a));
    } else {
        lemma_foldl_concat(op, e, a, b.drop_last());
        assert((a + b).drop_last() =~= a + b.drop_last());
        assert(apply(op, apply(op, foldl(op, e, a), foldl(op, e, b.drop_last())), b.last())
            == apply(op, foldl(op, e, a), apply(op, foldl(op, e, b.drop_last()), b.last())));
    }
}

/// Fold of chunk `j` of `s` from `e`.
pub open spec fn chunk_fold<T, F: Fn(T, T) -> T>(op: F, e: T, s: Seq<T>, cs: nat, j: int) -> T {
    let end = if (j + 1) * cs < s.len() { (j + 1) * cs } else { s.len() as int };
    foldl(op, e, s.subrange(j * cs, end))
}

/// Folds of all chunks of `s`, in chunk order.
pub open spec fn chunk_folds<T, F: Fn(T, T) -> T>(op: F, e: T, s: Seq<T>, cs: nat) -> Seq<T> {
    Seq::new(num_chunks(s.len(), cs), |j: int| chunk_fold(op, e, s, cs, j))
}

#[verifier::rlimit(30)]
proof fn lemma_chunk_folds_prefix<T, F: Fn(T, T) -> T>(op: F, e: T, s: Seq<T>, cs: nat, c: int)
    requires
        associative(op),
        is_identity(op, e),
        cs > 0,
        0 <= c <= num_chunks(s.len(), cs),
    ensures
        foldl(op, e, chunk_folds(op, e, s, cs).subrange(0, c)) == foldl(
            op,
            e,
            s.subrange(0, if c * cs < s.len() { c * cs } else { s.len() as int }),
        ),
    decreases c,
{
    let t = chunk_folds(op, e, s, cs);
    if c == 0 {
        assert(c * cs == 0) by (nonlinear_arith)
            requires
                c == 0,
        {}
        assert(t.subrange(0, 0) =~= Seq::<T>::empty());
        assert(s.subrange(0, 0) =~= Seq::<T>::empty());
    } else {
        lemma_chunk_folds_prefix(op, e, s, cs, c - 1);
        assert(c * cs == (c - 1) * cs + cs) by (nonlinear_arith);
        assert((c - 1) * cs < s.len()) by (nonlinear_arith)
            requires
                cs > 0,
                1 <= c,
                c <= ((s.len() + cs - 1) as nat) / cs,
        {}
        let lo = (c - 1) * cs;
        let hi = if c * cs < s.len() { c * cs } else { s.len() as int };
        assert(t.subrange(0, c).drop_last() =~= t.subrange(0, c - 1));
        assert(t[c - 1] == foldl(op, e, s.subrange(lo, hi)));
        lemma_foldl_concat(op, e, s.subrange(0, lo), s.subrange(lo, hi));
        assert(s.subrange(0, lo) + s.subrange(lo, hi) =~= s.subrange(0, hi));
    }
}

/// With an associative `op` and its identity `e`, folding the chunk
/// results (each folded from `e`) in chunk order gives the fold of all the
/// data.
pub proof fn lemma_chunked_reduce<T, F: Fn(T, T) -> T>(op: F, e: T, s: Seq<T>, cs: nat)
    requires
        associative(op),
        is_identity(op, e),
        cs > 0,
    ensures
        foldl(op, e, chunk_folds(op, e, s, cs)) == foldl(op, e, s),
{
    let n = num_chunks(s.len(), cs);
    lemma_chunk_folds_prefix(op, e, s, cs, n as int);
    assert(chunk_folds(op, e, s, cs).subrange(0, n as int) =~= chunk_folds(op, e, s, cs));
    assert(n * cs >= s.len()) by (nonlinear_arith)
        requires
            cs > 0,
            n == ((s.len() + cs - 1) as nat) / cs,
    {}
    assert(s.subrange(0, s.len() as int) =~= s);
}

/// A reduction of `data` in chunks of `chunk_size`: each chunk folded from
/// `identity`, then the chunk results folded from `identity` in chunk
/// order.
pub fn reduce_in_chunks<T: Copy, F: Fn(T, T) -> T>(data: &[T], chunk_size: usize, identity: T, op: &F) -> (r: T)
    requires
        total_op(*op),
        chunk_size > 0,
        data@.len() + chunk_size - 1 <= usize::MAX,
    ensures
        r == foldl(*op, identity, chunk_folds(*op, identity, data@, chunk_size as nat)),
        associative(*op) && is_identity(*op, identity) ==> r == foldl(*op, identity, data@),
{
    let len = data.len();
    let ghost s = data@;
    let ghost cs = chunk_size as nat;
    let n = chunk_count(len, chunk_size);
    let mut partials: Vec<T> = Vec::new();
    let mut c: usize = 0;
    while c < n
        invariant
            total_op(*op),
            s == data@,
            len == s.len(),
            chunk_size > 0,
            len + chunk_size - 1 <= usize::MAX,
            n == num_chunks(len as nat, cs),
            cs == chunk_size,
            0 <= c <= n,
            partials@.len() == c,
            forall|j: int| 0 <= j < c ==> #[trigger] partials@[j] == chunk_fold(*op, identity, s, cs, j),
        decreases n - c,
    {
        proof {
            assert(c * chunk_size < len && c * chunk_size + chunk_size <= usize::MAX) by (nonlinear_arith)
                requires
                    c < n,
                    n == ((len + chunk_size - 1) as nat) / (chunk_size as nat),
                    chunk_size > 0,
                    len + chunk_size - 1 <= usize::MAX,
            {}
            assert((c + 1) * cs == c * cs + cs) by (nonlinear_arith);
        }
        let (start, end) = chunk_bounds(len, chunk_size, c);
        let slice = slice_range(data, start, end);
        let v = fold_chunk(identity, slice.as_slice(), op);
        partials.push(v);
        c = c + 1;
    }
    proof {
        assert(partials@ =~= chunk_folds(*op, identity, s, cs));
    }
    let r = fold_chunk(identity, partials.as_slice(), op);
    proof {
        if associative(*op) && is_identity(*op, identity) {
            lemma_chunked_reduce(*op, identity, s, cs);
        }
    }
    r
}

/// The items `data[start..end]` as a vector.
pub fn slice_range<T: Copy>(data: &[T], start: usize, end: usize) -> (v: Vec<T>)
    requires
        start <= end <= data@.len(),
    ensures
        v@ == data@.subrange(start as int, end as int),
{
    let mut v: Vec<T> = Vec::new();
    let mut k = start;
    while k < end
        invariant
            start <= k <= end <= data@.len(),
            v@ == data@.subrange(start as int, k as int),
        decreases end - k,
    {
        v.push(data[k]);
        k = k + 1;
    }
    v
}

/// `less` accepts any two items and gives one answer for them.
pub open spec fn total_pred<T, P: Fn(&T, &T) -> bool>(less: P) -> bool {
    &&& forall|a: T, b: T| #[trigger] less.requires((&a, &b))
    &&& forall|a: T, b: T, r1: bool, r2: bool|
        #![trigger less.ensures((&a, &b), r1), less.ensures((&a, &b), r2)]
        less.ensures((&a, &b), r1) && less.ensures((&a, &b), r2) ==> r1 == r2
}

/// Whether `less` holds of `a` and `b`.
pub open spec fn holds<T, P: Fn(&T, &T) -> bool>(less: P, a: T, b: T) -> bool {
    less.ensures((&a, &b), true)
}

/// Scanning the runs from position `i` on, the run whose next item is
/// chosen: a run with items left replaces the best so far when there is
/// none yet or when its next item is less than the best one's.
pub open spec fn pick_from<T, P: Fn(&T, &T) -> bool>(runs: Seq<Seq<T>>, pos: Seq<int>, less: P, i: int, best: int) -> int
    decreases runs.len() - i,
{
    if i >= runs.len() {
        best
    } else {
        let b2 = if pos[i] < runs[i].len() && (best < 0 || holds(less, runs[i][pos[i]], runs[best][pos[best]])) {
            i
        } else {
            best
        };
        pick_from(runs, pos, less, i + 1, b2)
    }
}

/// Items not yet taken from the runs.
pub open spec fn left_in<T>(runs: Seq<Seq<T>>, pos: Seq<int>) -> int
    decreases runs.len(),
{
    if runs.len() == 0 {
        0
    } else {
        left_in(runs.drop_last(), pos) + (runs.last().len() - pos[runs.len() - 1])
    }
}

/// The merge of the runs from positions `pos`: repeatedly the chosen run's
/// next item, for at most `fuel` items.
pub open spec fn merge_from<T, P: Fn(&T, &T) -> bool>(runs: Seq<Seq<T>>, pos: Seq<int>, less: P, fuel: nat) -> Seq<T>
    decreases fuel,
{
    if fuel == 0 {
        Seq::empty()
    } else {
        let b = pick_from(runs, pos, less, 0, -1);
        if b < 0 {
            Seq::empty()
        } else {
            seq![runs[b][pos[b]]] + merge_from(runs, pos.update(b, pos[b] + 1), less, (fuel - 1) as nat)
        }
    }
}

/// The views of the runs.
pub open spec fn runs_view<T>(runs: Seq<Vec<T>>) -> Seq<Seq<T>> {
    runs.map_values(|r: Vec<T>| r@)
}

proof fn lemma_pick_from<T, P: Fn(&T, &T) -> bool>(runs: Seq<Seq<T>>, pos: Seq<int>, less: P, i: int, best: int)
    requires
        0 <= i <= runs.len(),
        pos.len() == runs.len(),
        -1 <= best < i,
        best >= 0 ==> pos[best] < runs[best].len(),
    ensures
        -1 <= pick_from(runs, pos, less, i, best) < runs.len(),
        pick_from(runs, pos, less, i, best) >= 0 ==> pos[pick_from(runs, pos, less, i, best)] < runs[pick_from(runs, pos, less, i, best)].len(),
        pick_from(runs, pos, less, i, best) < 0 <==> best < 0 && forall|j: int| i <= j < runs.len() ==> pos[j] >= runs[j].len(),
    decreases runs.len() - i,
{
    if i < runs.len() {
        let b2 = if pos[i] < runs[i].len() && (best < 0 || holds(less, runs[i][pos[i]], runs[best][pos[best]])) {
            i
        } else {
            best
        };
        lemma_pick_from(runs, pos, less, i + 1, b2);
    }
}

proof fn lemma_left_in<T>(runs: Seq<Seq<T>>, pos: Seq<int>, b: int)
    requires
        pos.len() >= runs.len(),
        forall|j: int| 0 <= j < runs.len() ==> 0 <= #[trigger] pos[j] <= runs[j].len(),
        0 <= b < runs.len(),
        pos[b] < runs[b].len(),
    ensures
        left_in(runs, pos.update(b, pos[b] + 1)) == left_in(runs, pos) - 1,
        left_in(runs, pos) >= 1,
    decreases runs.len(),
{
    lemma_left_nonneg(runs.drop_last(), pos);
    if b < runs.len() - 1 {
        lemma_left_in(runs.drop_last(), pos, b);
    } else {
        lemma_left_same(runs.drop_last(), pos, pos.update(b, pos[b] + 1));
    }
}

proof fn lemma_left_nonneg<T>(runs: Seq<Seq<T>>, pos: Seq<int>)
    requires
        pos.len() >= runs.len(),
        forall|j: int| 0 <= j < runs.len() ==> 0 <= #[trigger] pos[j] <= runs[j].len(),
    ensures
        left_in(runs, pos) >= 0,
        left_in(runs, pos) == 0 <==> forall|j: int| 0 <= j < runs.len() ==> pos[j] >= runs[j].len(),
    decreases runs.len(),
{
    if runs.len() > 0 {
        lemma_left_nonneg(runs.drop_last(), pos);
        if left_in(runs, pos) == 0 {
            assert forall|j: int| 0 <= j < runs.len() implies pos[j] >= runs[j].len() by {
                if j < runs.len() - 1 {
                    assert(runs.drop_last()[j] == runs[j]);
                }
            }
        }
    }
}

proof fn lemma_left_same<T>(runs: Seq<Seq<T>>, p: Seq<int>, q: Seq<int>)
    requires
        p.len() >= runs.len(),
        q.len() >= runs.len(),
        forall|j: int| 0 <= j < runs.len() ==> #[trigger] p[j] == q[j],
    ensures
        left_in(runs, p) == left_in(runs, q),
    decreases runs.len(),
{
    if runs.len() > 0 {
        lemma_left_same(runs.drop_last(), p, q);
    }
}

/// Merges runs by taking, again and again, the next item of the first run
/// whose next item is less (by `less`) than those of the runs before it
/// that still have items, until every run is used up.
pub fn merge_runs<T: Copy, P: Fn(&T, &T) -> bool>(runs: &Vec<Vec<T>>, less: &P) -> (merged: Vec<T>)
    requires
        total_pred(*less),
        left_in(runs_view(runs@), Seq::new(runs@.len(), |j: int| 0)) <= usize::MAX,
    ensures
        merged@ == merge_from(
            runs_view(runs@),
            Seq::new(runs@.len(), |j: int| 0),
            *less,
            left_in(runs_view(runs@), Seq::new(runs@.len(), |j: int| 0)) as nat,
        ),
{
    let ghost rv = runs_view(runs@);
    let ghost zeros = Seq::new(runs@.len(), |j: int| 0);
    let ghost total = left_in(rv, zeros);
    let n = runs.len();
    let mut pos: Vec<usize> = Vec::new();
    let mut k: usize = 0;
    while k < n
        invariant
            0 <= k <= n,
            n == runs@.len(),
            pos@.len() == k,
            forall|j: int| 0 <= j < k ==> #[trigger] pos@[j] == 0,
        decreases n - k,
    {
        pos.push(0);
        k = k + 1;
    }
    let ghost mut ps: Seq<int> = zeros;
    proof {
        lemma_left_nonneg(rv, ps);
    }
    let mut merged: Vec<T> = Vec::new();
    loop
        invariant
            n == runs@.len(),
            rv == runs_view(runs@),
            total_pred(*less),
            total == left_in(rv, zeros),
            total <= usize::MAX,
            pos@.len() == n,
            ps.len() == n,
            forall|j: int| 0 <= j < n ==> #[trigger] ps[j] == pos@[j],
            forall|j: int| 0 <= j < n ==> 0 <= #[trigger] ps[j] <= rv[j].len(),
            merged@.len() + left_in(rv, ps) == total,
            merged@ + merge_from(rv, ps, *less, left_in(rv, ps) as nat) == merge_from(rv, zeros, *less, total as nat),
        ensures
            merged@ == merge_from(rv, zeros, *less, total as nat),
        decreases left_in(rv, ps),
    {
        proof {
            lemma_left_nonneg(rv, ps);
        }
        let mut best: usize = n;
        let mut i: usize = 0;
        while i < n
            invariant
                n == runs@.len(),
                rv == runs_view(runs@),
                total_pred(*less),
                pos@.len() == n,
                ps.len() == n,
                forall|j: int| 0 <= j < n ==> #[trigger] ps[j] == pos@[j],
                forall|j: int| 0 <= j < n ==> 0 <= #[trigger] ps[j] <= rv[j].len(),
                0 <= i <= n,
                best == n || best < i,
                best < n ==> ps[best as int] < rv[best as int].len(),
                pick_from(rv, ps, *less, 0, -1) == pick_from(rv, ps, *less, i as int, if best == n { -1 } else { best as int }),
            decreases n - i,
        {
            let p = pos[i];
            assert(rv[i as int] == runs@[i as int]@);
            if p < runs[i].len() {
                let v = runs[i][p];
                if best == n {
                    best = i;
                } else {
                    let bp = pos[best];
                    assert(rv[best as int] == runs@[best as int]@);
                    let w = runs[best][bp];
                    let r = less(&v, &w);
                    proof {
                        assert(less.ensures((&v, &w), r));
                        if r {
                            assert(holds(*less, v, w));
                        } else {
                            assert(!holds(*less, v, w)) by {
                                if holds(*less, v, w) {
                                    assert(less.ensures((&v, &w), true));
                                }
                            }
                        }
                    }
                    if r {
                        best = i;
                    }
                }
            }
            i = i + 1;
        }
        proof {
            lemma_pick_from(rv, ps, *less, 0, -1);
        }
        if best == n {
            proof {
                assert(pick_from(rv, ps, *less, 0, -1) < 0);
                assert(left_in(rv, ps) == 0) by {
                    lemma_left_nonneg(rv, ps);
                }
                assert(merge_from(rv, ps, *less, 0) =~= Seq::<T>::empty());
                assert(merged@ + Seq::<T>::empty() =~= merged@);
            }
            break;
        }
        let bp = pos[best];
        assert(rv[best as int] == runs@[best as int]@);
        let blen = runs[best].len();
        assert(bp < blen);
        let item = runs[best][bp];
        let ghost before = merged@;
        let ghost old_ps = ps;
        merged.push(item);
        pos.set(best, bp + 1);
        proof {
            lemma_left_in(rv, old_ps, best as int);
            ps = old_ps.update(best as int, old_ps[best as int] + 1);
            let fuel = left_in(rv, old_ps) as nat;
            assert(merge_from(rv, old_ps, *less, fuel) == seq![item] + merge_from(rv, ps, *less, (fuel - 1) as nat));
            assert(merged@ =~= before + seq![item]);
            assert(merged@ + merge_from(rv, ps, *less, left_in(rv, ps) as nat) =~= before + merge_from(rv, old_ps, *less, fuel));
        }
    }
    merged
}

/// `less` is a strict order: nothing is less than itself, and `a < b`
/// with `b < c` gives `a < c`.
pub open spec fn strict_order<T, P: Fn(&T, &T) -> bool>(less: P) -> bool {
    &&& forall|a: T| !#[trigger] holds(less, a, a)
    &&& forall|a: T, b: T, c: T| #[trigger] holds(less, a, b) && #[trigger] holds(less, b, c) ==> holds(less, a, c)
}

/// No item of `s` is less than the one before it.
pub open spec fn sorted_by<T, P: Fn(&T, &T) -> bool>(s: Seq<T>, less: P) -> bool {
    forall|k: int| 0 < k < s.len() ==> !#[trigger] holds(less, s[k], s[k - 1])
}

/// The items of all runs.
pub open spec fn runs_multiset<T>(runs: Seq<Seq<T>>) -> Multiset<T>
    decreases runs.len(),
{
    if runs.len() == 0 {
        Multiset::empty()
    } else {
        runs_multiset(runs.drop_last()).add(runs.last().to_multiset())
    }
}

/// The items of the runs not yet taken at positions `pos`.
pub open spec fn left_multiset<T>(runs: Seq<Seq<T>>, pos: Seq<int>) -> Multiset<T>
    decreases runs.len(),
{
    if runs.len() == 0 {
        Multiset::empty()
    } else {
        left_multiset(runs.drop_last(), pos).add(
            runs.last().subrange(pos[runs.len() - 1], runs.last().len() as int).to_multiset(),
        )
    }
}

/// The chosen run's next item is not greater than any other run's next
/// item.
proof fn lemma_pick_least<T, P: Fn(&T, &T) -> bool>(runs: Seq<Seq<T>>, pos: Seq<int>, less: P, i: int, best: int)
    requires
        strict_order(less),
        0 <= i <= runs.len(),
        pos.len() == runs.len(),
        -1 <= best < i,
        best >= 0 ==> pos[best] < runs[best].len(),
        best < 0 ==> forall|j: int| 0 <= j < i ==> pos[j] >= runs[j].len(),
        best >= 0 ==> forall|j: int|
            0 <= j < i && pos[j] < runs[j].len() ==> !holds(less, runs[j][pos[j]], runs[best][pos[best]]),
    ensures
        ({
            let b = pick_from(runs, pos, less, i, best);
            b >= 0 ==> forall|j: int|
                0 <= j < runs.len() && pos[j] < runs[j].len() ==> !holds(less, runs[j][pos[j]], runs[b][pos[b]])
        }),
    decreases runs.len() - i,
{
    if i < runs.len() {
        let b2 = if pos[i] < runs[i].len() && (best < 0 || holds(less, runs[i][pos[i]], runs[best][pos[best]])) {
            i
        } else {
            best
        };
        if b2 == i {
            assert forall|j: int| 0 <= j < i + 1 && pos[j] < runs[j].len() implies !holds(
                less,
                runs[j][pos[j]],
                runs[i][pos[i]],
            ) by {
                if j < i {
                    if holds(less, runs[j][pos[j]], runs[i][pos[i]]) {
                        assert(holds(less, runs[j][pos[j]], runs[best][pos[best]]));
                    }
                } else {
                    assert(!holds(less, runs[i][pos[i]], runs[i][pos[i]]));
                }
            };
        }
        lemma_pick_least(runs, pos, less, i + 1, b2);
    }
}

/// Merging runs that are each sorted by a strict order gives a sorted
/// sequence whose first item, if any, is not less than `floor` when no
/// run's next item is.
proof fn lemma_merge_from_sorted<T, P: Fn(&T, &T) -> bool>(runs: Seq<Seq<T>>, pos: Seq<int>, less: P, fuel: nat)
    requires
        strict_order(less),
        pos.len() == runs.len(),
        forall|j: int| 0 <= j < runs.len() ==> 0 <= #[trigger] pos[j] <= runs[j].len(),
        forall|j: int| 0 <= j < runs.len() ==> sorted_by(#[trigger] runs[j], less),
    ensures
        sorted_by(merge_from(runs, pos, less, fuel), less),
        merge_from(runs, pos, less, fuel).len() > 0 ==> exists|j: int|
            0 <= j < runs.len() && pos[j] < runs[j].len() && merge_from(runs, pos, less, fuel)[0] == #[trigger] runs[j][pos[j]],
    decreases fuel,
{
    if fuel > 0 {
        let b = pick_from(runs, pos, less, 0, -1);
        lemma_pick_from(runs, pos, less, 0, -1);
        if b >= 0 {
            let x = runs[b][pos[b]];
            let p2 = pos.update(b, pos[b] + 1);
            let rest = merge_from(runs, p2, less, (fuel - 1) as nat);
            let out = merge_from(runs, pos, less, fuel);
            assert(out == seq![x] + rest);
            assert forall|j: int| 0 <= j < runs.len() implies 0 <= #[trigger] p2[j] <= runs[j].len() by {
                if j == b {
                } else {
                    assert(p2[j] == pos[j]);
                }
            };
            lemma_merge_from_sorted(runs, p2, less, (fuel - 1) as nat);
            lemma_pick_least(runs, pos, less, 0, -1);
            if rest.len() > 0 {
                let j = choose|j: int| 0 <= j < runs.len() && p2[j] < runs[j].len() && rest[0] == #[trigger] runs[j][p2[j]];
                if j == b {
                    assert(sorted_by(runs[b], less));
                    assert(!holds(less, runs[b][pos[b] + 1], runs[b][pos[b] + 1 - 1]));
                } else {
                    assert(p2[j] == pos[j]);
                }
                assert(!holds(less, rest[0], x));
            }
            assert forall|k: int| 0 < k < out.len() implies !#[trigger] holds(less, out[k], out[k - 1]) by {
                if k == 1 {
                    assert(out[1] == rest[0]);
                } else {
                    assert(out[k] == rest[k - 1] && out[k - 1] == rest[k - 2]);
                }
            };
            assert(out[0] == runs[b][pos[b]]);
        }
    }
}

/// Taking the next item of run `b` takes it out of what is left.
proof fn lemma_left_multiset_take<T>(runs: Seq<Seq<T>>, pos: Seq<int>, b: int)
    requires
        pos.len() >= runs.len(),
        forall|j: int| 0 <= j < runs.len() ==> 0 <= #[trigger] pos[j] <= runs[j].len(),
        0 <= b < runs.len(),
        pos[b] < runs[b].len(),
    ensures
        left_multiset(runs, pos) == left_multiset(runs, pos.update(b, pos[b] + 1)).insert(runs[b][pos[b]]),
    decreases runs.len(),
{
    let q = pos.update(b, pos[b] + 1);
    let n = runs.len();
    if b < n - 1 {
        lemma_left_multiset_take(runs.drop_last(), pos, b);
        assert(runs.drop_last()[b] == runs[b]);
        assert(q[n - 1] == pos[n - 1]);
        let tail = runs.last().subrange(pos[n - 1], runs.last().len() as int).to_multiset();
        assert(left_multiset(runs.drop_last(), pos).add(tail) =~= left_multiset(runs.drop_last(), q).insert(runs[b][pos[b]]).add(tail));
        assert(left_multiset(runs.drop_last(), pos).add(tail) =~= left_multiset(runs.drop_last(), q).add(tail).insert(runs[b][pos[b]]));
    } else {
        lemma_left_multiset_same(runs.drop_last(), pos, q);
        let r = runs.last();
        let s1 = r.subrange(pos[b], r.len() as int);
        let s2 = r.subrange(pos[b] + 1, r.len() as int);
        assert(s1.remove(0) =~= s2);
        broadcast use vstd::seq_lib::group_to_multiset_ensures;
        assert(s1.remove(0).to_multiset() =~= s1.to_multiset().remove(s1[0]));
        assert(s1.contains(s1[0]));
        assert(s1.to_multiset().count(s1[0]) > 0);
        assert(s1.to_multiset() =~= s2.to_multiset().insert(r[pos[b]]));
        assert(left_multiset(runs, pos) =~= left_multiset(runs, q).insert(runs[b][pos[b]]));
    }
}

proof fn lemma_left_multiset_same<T>(runs: Seq<Seq<T>>, p: Seq<int>, q: Seq<int>)
    requires
        p.len() >= runs.len(),
        q.len() >= runs.len(),
        forall|j: int| 0 <= j < runs.len() ==> #[trigger] p[j] == q[j],
    ensures
        left_multiset(runs, p) == left_multiset(runs, q),
    decreases runs.len(),
{
    if runs.len() > 0 {
        lemma_left_multiset_same(runs.drop_last(), p, q);
    }
}

/// With nothing taken, what is left is every run's items.
proof fn lemma_left_multiset_start<T>(runs: Seq<Seq<T>>, pos: Seq<int>)
    requires
        pos.len() >= runs.len(),
        forall|j: int| 0 <= j < runs.len() ==> #[trigger] pos[j] == 0,
    ensures
        left_multiset(runs, pos) == runs_multiset(runs),
    decreases runs.len(),
{
    if runs.len() > 0 {
        lemma_left_multiset_start(runs.drop_last(), pos);
        assert(runs.last().subrange(0, runs.last().len() as int) =~= runs.last());
    }
}

/// A merge run to the end takes each item left exactly once.
proof fn lemma_merge_from_items<T, P: Fn(&T, &T) -> bool>(runs: Seq<Seq<T>>, pos: Seq<int>, less: P)
    requires
        pos.len() == runs.len(),
        forall|j: int| 0 <= j < runs.len() ==> 0 <= #[trigger] pos[j] <= runs[j].len(),
    ensures
        merge_from(runs, pos, less, left_in(runs, pos) as nat).to_multiset() == left_multiset(runs, pos),
    decreases left_in(runs, pos),
{
    lemma_left_nonneg(runs, pos);
    let fuel = left_in(runs, pos) as nat;
    lemma_pick_from(runs, pos, less, 0, -1);
    let b = pick_from(runs, pos, less, 0, -1);
    broadcast use vstd::seq_lib::group_to_multiset_ensures;
    if fuel == 0 {
        assert(forall|j: int| 0 <= j < runs.len() ==> pos[j] >= runs[j].len());
        lemma_left_multiset_empty(runs, pos);
        assert(merge_from(runs, pos, less, fuel) =~= Seq::<T>::empty());
        assert(Seq::<T>::empty().to_multiset() =~= Multiset::empty()) by {
            assert(Seq::<T>::empty().to_multiset().len() == 0);
        };
    } else {
        assert(b >= 0);
        let p2 = pos.update(b, pos[b] + 1);
        lemma_left_in(runs, pos, b);
        lemma_left_multiset_take(runs, pos, b);
        assert forall|j: int| 0 <= j < runs.len() implies 0 <= #[trigger] p2[j] <= runs[j].len() by {
            if j != b {
                assert(p2[j] == pos[j]);
            }
        };
        lemma_merge_from_items(runs, p2, less);
        let rest = merge_from(runs, p2, less, (fuel - 1) as nat);
        let x = runs[b][pos[b]];
        let out = merge_from(runs, pos, less, fuel);
        assert(out == seq![x] + rest);
        assert(out.remove(0) =~= rest);
        assert(out.contains(x)) by {
            assert(out[0] == x);
        };
        assert(out.to_multiset().remove(x) =~= rest.to_multiset());
        assert(out.to_multiset().count(x) > 0);
        assert(out.to_multiset() =~= rest.to_multiset().insert(x));
    }
}

/// With every run used up, nothing is left.
proof fn lemma_left_multiset_empty<T>(runs: Seq<Seq<T>>, pos: Seq<int>)
    requires
        pos.len() >= runs.len(),
        forall|j: int| 0 <= j < runs.len() ==> runs[j].len() <= #[trigger] pos[j] <= runs[j].len(),
    ensures
        left_multiset(runs, pos) == Multiset::<T>::empty(),
    decreases runs.len(),
{
    if runs.len() > 0 {
        lemma_left_multiset_empty(runs.drop_last(), pos);
        let r = runs.last();
        assert(r.subrange(pos[runs.len() - 1], r.len() as int) =~= Seq::<T>::empty());
        broadcast use vstd::seq_lib::group_to_multiset_ensures;
        assert(Seq::<T>::empty().to_multiset().len() == 0);
        assert(Seq::<T>::empty().to_multiset() =~= Multiset::empty());
        assert(left_multiset(runs, pos) =~= Multiset::empty());
    }
}

/// Merging whole runs takes every item of every run exactly once; when the
/// runs are each sorted by a strict order, the merge is sorted by it too.
pub proof fn lemma_merge_runs_sorts<T, P: Fn(&T, &T) -> bool>(runs: Seq<Seq<T>>, less: P)
    ensures
        ({
            let zeros = Seq::new(runs.len(), |j: int| 0);
            let out = merge_from(runs, zeros, less, left_in(runs, zeros) as nat);
            &&& out.to_multiset() == runs_multiset(runs)
            &&& strict_order(less) && (forall|j: int| 0 <= j < runs.len() ==> sorted_by(#[trigger] runs[j], less))
                ==> sorted_by(out, less)
        }),
{
    let zeros = Seq::new(runs.len(), |j: int| 0);
    assert forall|j: int| 0 <= j < runs.len() implies 0 <= #[trigger] zeros[j] <= runs[j].len() by {};
    lemma_merge_from_items(runs, zeros, less);
    lemma_left_multiset_start(runs, zeros);
    if strict_order(less) && (forall|j: int| 0 <= j < runs.len() ==> sorted_by(#[trigger] runs[j], less)) {
        lemma_merge_from_sorted(runs, zeros, less, left_in(runs, zeros) as nat);
    }
}

/// The end of chunk `c` of `len` items in chunks of `cs`.
pub open spec fn chunk_end(len: nat, cs: nat, c: int) -> int {
    if (c + 1) * cs < len {
        (c + 1) * cs
    } else {
        len as int
    }
}

/// Position `i` lies in chunk `c`.
pub open spec fn in_chunk(i: int, len: nat, cs: nat, c: int) -> bool {
    c * cs <= i < chunk_end(len, cs, c)
}

/// What position `i` holds after the local scans: the scan of its chunk
/// up to it.
pub open spec fn local_scan_at<T, F: Fn(T, T) -> T>(op: F, s: Seq<T>, cs: nat, i: int) -> T {
    fold1(op, s.subrange((i / (cs as int)) * cs, i + 1))
}

/// What position `i` holds after the fix-ups that follow the local scans,
/// with `prefixes` the scan of the chunk totals: unchanged in the first
/// chunk, else `op` of the prefix of the chunks before and its value.
pub open spec fn fixed_scan_at<T, F: Fn(T, T) -> T>(op: F, s: Seq<T>, cs: nat, prefixes: Seq<T>, i: int) -> T {
    let c = i / (cs as int);
    if c == 0 {
        local_scan_at(op, s, cs, i)
    } else {
        apply(op, prefixes[c - 1], local_scan_at(op, s, cs, i))
    }
}

proof fn lemma_position_chunk(i: int, len: nat, cs: nat)
    requires
        cs > 0,
        0 <= i < len,
    ensures
        in_chunk(i, len, cs, i / (cs as int)),
        0 <= i / (cs as int) < num_chunks(len, cs),
        forall|c: int| #[trigger] in_chunk(i, len, cs, c) ==> c == i / (cs as int),
{
    let q = i / (cs as int);
    assert(q * cs <= i < q * cs + cs && q >= 0) by (nonlinear_arith)
        requires
            cs > 0,
            i >= 0,
            q == i / (cs as int),
    {}
    assert((q + 1) * cs == q * cs + cs) by (nonlinear_arith);
    assert(q < num_chunks(len, cs)) by (nonlinear_arith)
        requires
            cs > 0,
            q * cs <= i < len,
    {}
    assert forall|c: int| #[trigger] in_chunk(i, len, cs, c) implies c == q by {
        assert((c + 1) * cs == c * cs + cs) by (nonlinear_arith);
        if c < 0 {
            assert((c + 1) * cs <= 0) by (nonlinear_arith)
                requires
                    c < 0,
                    cs > 0,
            {}
            assert(false);
        } else {
            assert(c * cs <= i < c * cs + cs);
            lemma_chunk_of(i, c, cs as int);
        }
    };
}

/// A chunked scan laid out as tasks: every position lies in exactly one
/// chunk; the local scan of that chunk writes `local_scan_at` there, and
/// the fix-up of that chunk (after the first), given the scan of the
/// chunk totals, turns it into `fixed_scan_at`.  That is the chunked
/// scan, and with an associative `op` the inclusive scan of the data; the
/// shift behind `identity` is then the exclusive scan.
pub proof fn lemma_scan_phases<T, F: Fn(T, T) -> T>(op: F, s: Seq<T>, cs: nat, identity: T)
    requires
        cs > 0,
    ensures
        forall|i: int| 0 <= i < s.len() ==> in_chunk(i, s.len(), cs, #[trigger] (i / (cs as int))),
        forall|i: int, c: int| 0 <= i < s.len() && #[trigger] in_chunk(i, s.len(), cs, c) ==> c == i / (cs as int),
        forall|i: int| 0 <= i < s.len() ==> #[trigger] fixed_scan_at(
            op,
            s,
            cs,
            inclusive_scan_of(op, chunk_totals(op, s, cs)),
            i,
        ) == chunked_scan_at(op, s, cs, i),
        associative(op) ==> forall|i: int| 0 <= i < s.len() ==> #[trigger] chunked_scan_at(op, s, cs, i)
            == inclusive_scan_of(op, s)[i],
        associative(op) ==> forall|k: int| 0 <= k < s.len() ==> #[trigger] exclusive_scan_of(op, s, identity)[k]
            == if k == 0 { identity } else { inclusive_scan_of(op, s)[k - 1] },
{
    let totals = chunk_totals(op, s, cs);
    assert forall|i: int| 0 <= i < s.len() implies in_chunk(i, s.len(), cs, #[trigger] (i / (cs as int))) by {
        lemma_position_chunk(i, s.len(), cs);
    };
    assert forall|i: int, c: int| 0 <= i < s.len() && #[trigger] in_chunk(i, s.len(), cs, c) implies c == i / (cs as int) by {
        lemma_position_chunk(i, s.len(), cs);
    };
    assert forall|i: int| 0 <= i < s.len() implies #[trigger] fixed_scan_at(op, s, cs, inclusive_scan_of(op, totals), i)
        == chunked_scan_at(op, s, cs, i) by {
        lemma_position_chunk(i, s.len(), cs);
        let c = i / (cs as int);
        if c > 0 {
            assert(inclusive_scan_of(op, totals)[c - 1] == fold1(op, totals.subrange(0, c)));
        }
    };
    if associative(op) {
        lemma_chunked_scan_is_scan(op, s, cs);
        assert forall|i: int| 0 <= i < s.len() implies #[trigger] chunked_scan_at(op, s, cs, i) == inclusive_scan_of(op, s)[i] by {
            assert(chunked_scan_of(op, s, cs)[i] == chunked_scan_at(op, s, cs, i));
        };
    }
}

/// The local scan task of chunk `c`: writes the scan of the chunk into its
/// positions of `result` and returns the chunk's total.
pub fn scan_local_step<T: Copy, F: Fn(T, T) -> T>(data: &[T], chunk_size: usize, c: usize, result: &mut Vec<T>, op: &F) -> (total: T)
    requires
        total_op(*op),
        chunk_size > 0,
        data@.len() + chunk_size - 1 <= usize::MAX,
        c < num_chunks(data@.len(), chunk_size as nat),
        old(result)@.len() == data@.len(),
    ensures
        final(result)@.len() == data@.len(),
        forall|i: int| 0 <= i < data@.len() ==> #[trigger] final(result)@[i] == if in_chunk(i, data@.len(), chunk_size as nat, c as int) {
            local_scan_at(*op, data@, chunk_size as nat, i)
        } else {
            old(result)@[i]
        },
        total == chunk_total(*op, data@, chunk_size as nat, c as int),
{
    let len = data.len();
    let ghost cs = chunk_size as nat;
    proof {
        assert(c * chunk_size < len && c * chunk_size + chunk_size <= usize::MAX) by (nonlinear_arith)
            requires
                c < ((len + chunk_size - 1) as nat) / (chunk_size as nat),
                chunk_size > 0,
                len + chunk_size - 1 <= usize::MAX,
        {}
        assert((c + 1) * cs == c * cs + cs) by (nonlinear_arith);
    }
    let (start, end) = chunk_bounds(len, chunk_size, c);
    let (local, sum) = scan_chunk(data, start, end, op);
    let ghost r0 = result@;
    let mut k: usize = 0;
    while k < local.len()
        invariant
            start == c * cs,
            end == chunk_end(len as nat, cs, c as int),
            start < end <= len,
            len == data@.len(),
            local@.len() == end - start,
            result@.len() == len,
            0 <= k <= local@.len(),
            forall|i: int| 0 <= i < len ==> #[trigger] result@[i] == if start <= i < start + k { local@[i - start] } else { r0[i] },
        decreases local@.len() - k,
    {
        result.set(start + k, local[k]);
        k = k + 1;
    }
    proof {
        assert forall|i: int| 0 <= i < data@.len() implies #[trigger] result@[i] == if in_chunk(i, data@.len(), cs, c as int) {
            local_scan_at(*op, data@, cs, i)
        } else {
            r0[i]
        } by {
            if in_chunk(i, data@.len(), cs, c as int) {
                lemma_chunk_of(i, c as int, cs as int);
                let q = i - start;
                assert(local@[q] == fold1(*op, data@.subrange(start as int, end as int).subrange(0, q + 1)));
                assert(data@.subrange(start as int, end as int).subrange(0, q + 1) =~= data@.subrange(c * cs, i + 1));
            }
        };
    }
    sum
}

/// The fix-up task of chunk `c` (not the first): `op` of the prefix of the
/// chunks before it, `prefixes[c - 1]`, and each value in its positions.
pub fn scan_fixup_step<T: Copy, F: Fn(T, T) -> T>(prefixes: &[T], chunk_size: usize, c: usize, result: &mut Vec<T>, op: &F)
    requires
        total_op(*op),
        chunk_size > 0,
        old(result)@.len() + chunk_size - 1 <= usize::MAX,
        1 <= c < num_chunks(old(result)@.len(), chunk_size as nat),
        c <= prefixes@.len(),
    ensures
        final(result)@.len() == old(result)@.len(),
        forall|i: int| 0 <= i < old(result)@.len() ==> #[trigger] final(result)@[i] == if in_chunk(
            i,
            old(result)@.len(),
            chunk_size as nat,
            c as int,
        ) {
            apply(*op, prefixes@[c - 1], old(result)@[i])
        } else {
            old(result)@[i]
        },
{
    let len = result.len();
    let ghost cs = chunk_size as nat;
    proof {
        assert(c * chunk_size < len && c * chunk_size + chunk_size <= usize::MAX) by (nonlinear_arith)
            requires
                c < ((len + chunk_size - 1) as nat) / (chunk_size as nat),
                chunk_size > 0,
                len + chunk_size - 1 <= usize::MAX,
        {}
        assert((c + 1) * cs == c * cs + cs) by (nonlinear_arith);
    }
    let (start, end) = chunk_bounds(len, chunk_size, c);
    let prefix = prefixes[c - 1];
    let ghost r0 = result@;
    let mut k = start;
    while k < end
        invariant
            total_op(*op),
            start == c * cs,
            end == chunk_end(len as nat, cs, c as int),
            start <= k <= end <= len,
            r0.len() == len,
            result@.len() == len,
            forall|i: int| 0 <= i < len ==> #[trigger] result@[i] == if start <= i < k { apply(*op, prefix, r0[i]) } else { r0[i] },
        decreases end - k,
    {
        let v = call_op(op, prefix, result[k]);
        result.set(k, v);
        k = k + 1;
    }
    result.len();
}

/// The reduce task of chunk `c`: the chunk folded from `identity`.
pub fn reduce_chunk_step<T: Copy, F: Fn(T, T) -> T>(data: &[T], chunk_size: usize, c: usize, identity: T, op: &F) -> (r: T)
    requires
        total_op(*op),
        chunk_size > 0,
        data@.len() + chunk_size - 1 <= usize::MAX,
        c < num_chunks(data@.len(), chunk_size as nat),
    ensures
        r == chunk_fold(*op, identity, data@, chunk_size as nat, c as int),
{
    let len = data.len();
    proof {
        assert(c * chunk_size < len && c * chunk_size + chunk_size <= usize::MAX) by (nonlinear_arith)
            requires
                c < ((len + chunk_size - 1) as nat) / (chunk_size as nat),
                chunk_size > 0,
                len + chunk_size - 1 <= usize::MAX,
        {}
        assert((c + 1) * (chunk_size as nat) == c * (chunk_size as nat) + chunk_size) by (nonlinear_arith);
    }
    let (start, end) = chunk_bounds(len, chunk_size, c);
    let items = slice_range(data, start, end);
    fold_chunk(identity, items.as_slice(), op)
}

/// `data` cut into chunks of `chunk_size` items (the last one may be
/// shorter), in order; every item lands in exactly one chunk.
pub fn split_into_chunks<T>(data: Vec<T>, chunk_size: usize) -> (r: Vec<Vec<T>>)
    requires
        chunk_size > 0,
        data@.len() + chunk_size - 1 <= usize::MAX,
    ensures
        r@.len() == num_chunks(data@.len(), chunk_size as nat),
        forall|c: int| 0 <= c < r@.len() ==> (#[trigger] r@[c])@ == data@.subrange(
            c * chunk_size,
            chunk_end(data@.len(), chunk_size as nat, c),
        ),
{
    let ghost d = data@;
    let ghost cs = chunk_size as nat;
    let len = data.len();
    let mut rest = data;
    let mut chunks: Vec<Vec<T>> = Vec::new();
    proof {
        assert(chunks@.len() * cs == 0) by (nonlinear_arith)
            requires
                chunks@.len() == 0,
        {}
        assert(d.subrange(0, len as int) =~= d);
    }
    while rest.len() > 0
        invariant
            d.len() == len,
            cs == chunk_size,
            chunk_size > 0,
            len + chunk_size - 1 <= usize::MAX,
            chunks@.len() * cs <= len || rest@.len() == 0,
            rest@ == d.subrange(if chunks@.len() * cs < len { (chunks@.len() * cs) as int } else { len as int }, len as int),
            chunks@.len() > 0 ==> (chunks@.len() - 1) * cs < len,
            forall|c: int| 0 <= c < chunks@.len() ==> (#[trigger] chunks@[c])@ == d.subrange(c * cs, chunk_end(len as nat, cs, c)),
        decreases rest@.len(),
    {
        let ghost c = chunks@.len() as int;
        proof {
            assert((c + 1) * cs == c * cs + cs) by (nonlinear_arith);
            assert(c * cs < len);
        }
        let at = if chunk_size < rest.len() { chunk_size } else { rest.len() };
        let tail = rest.split_off(at);
        chunks.push(rest);
        proof {
            assert(chunks@[c]@ =~= d.subrange(c * cs, chunk_end(len as nat, cs, c)));
            assert(chunks@.len() * cs == c * cs + cs) by (nonlinear_arith)
                requires
                    chunks@.len() == c + 1,
            {}
        }
        rest = tail;
        proof {
            assert(rest@ =~= d.subrange(if chunks@.len() * cs < len { (chunks@.len() * cs) as int } else { len as int }, len as int));
        }
    }
    proof {
        let k = chunks@.len();
        assert(k == num_chunks(len as nat, cs)) by (nonlinear_arith)
            requires
                cs > 0,
                k * cs >= len,
                k > 0 ==> (k - 1) * cs < len,
                k == 0 ==> len == 0,
        {}
    }
    chunks
}

/// The items of `v` in reverse order.
fn reversed<T>(v: Vec<T>) -> (r: Vec<T>)
    ensures
        r@.len() == v@.len(),
        forall|k: int| 0 <= k < v@.len() ==> #[trigger] r@[k] == v@[v@.len() - 1 - k],
{
    let ghost v0 = v@;
    let mut v = v;
    let mut r: Vec<T> = Vec::new();
    while v.len() > 0
        invariant
            v@ == v0.subrange(0, v@.len() as int),
            r@.len() + v@.len() == v0.len(),
            forall|k: int| 0 <= k < r@.len() ==> #[trigger] r@[k] == v0[v0.len() - 1 - k],
        decreases v@.len(),
    {
        let x = v.pop().unwrap();
        r.push(x);
        proof {
            assert(v@ =~= v0.subrange(0, v@.len() as int));
        }
    }
    r
}

/// The task body of a for-each chunk: `f` on each item, in order.
pub fn for_each_item<T, F: Fn(T)>(items: Vec<T>, f: &F)
    requires
        forall|x: T| #[trigger] f.requires((x,)),
    ensures
        forall|k: int| 0 <= k < items@.len() ==> #[trigger] f.ensures((items@[k],), ()),
{
    let ghost v0 = items@;
    let mut rev = reversed(items);
    let mut k: usize = 0;
    let total = rev.len();
    while rev.len() > 0
        invariant
            forall|x: T| #[trigger] f.requires((x,)),
            total == v0.len(),
            rev@.len() + k == v0.len(),
            forall|j: int| 0 <= j < rev@.len() ==> #[trigger] rev@[j] == v0[v0.len() - 1 - j],
            forall|j: int| 0 <= j < k ==> #[trigger] f.ensures((v0[j],), ()),
        decreases rev@.len(),
    {
        let ghost before = rev@;
        let x = rev.pop().unwrap();
        proof {
            assert(x == before[before.len() - 1]);
            assert(x == v0[k as int]);
        }
        f(x);
        k = k + 1;
    }
}

/// The task body of a transform chunk: `f` of each item, in order.
pub fn map_items<T, U, F: Fn(T) -> U>(items: Vec<T>, f: &F) -> (r: Vec<U>)
    requires
        forall|x: T| #[trigger] f.requires((x,)),
    ensures
        r@.len() == items@.len(),
        forall|k: int| 0 <= k < items@.len() ==> #[trigger] f.ensures((items@[k],), r@[k]),
{
    let ghost v0 = items@;
    let mut rev = reversed(items);
    let mut r: Vec<U> = Vec::new();
    while rev.len() > 0
        invariant
            forall|x: T| #[trigger] f.requires((x,)),
            rev@.len() + r@.len() == v0.len(),
            forall|j: int| 0 <= j < rev@.len() ==> #[trigger] rev@[j] == v0[v0.len() - 1 - j],
            forall|j: int| 0 <= j < r@.len() ==> #[trigger] f.ensures((v0[j],), r@[j]),
        decreases rev@.len(),
    {
        let ghost before = rev@;
        let x = rev.pop().unwrap();
        proof {
            assert(x == v0[r@.len() as int]);
        }
        let y = f(x);
        r.push(y);
    }
    r
}

} // verus!
