//! Streams, stream pools and stream sets: which stream of a pool is lent
//! out next, how many operations each has pending, how pool and set
//! streams are named, and which stream of a set a batch uses.

use vstd::prelude::*;

use crate::gpu_backend::{BackendKind, GpuError, StubBackend, StubStream, kind_display, next_id};
use crate::text::{decimal, push_decimal, push_str, to_owned_string};

verus! {

/// How a pool chooses the stream it lends out.
#[derive(Debug, Clone, Copy, PartialEq, Eq, Structural)]
pub enum StreamAssignment {
    /// The streams in a fixed rotation.
    RoundRobin,
    /// The stream with the fewest pending operations, the first of them on
    /// ties.
    LeastPending,
}

/// `x + 1` as `u64` arithmetic wraps it.
pub open spec fn winc64(x: u64) -> u64 {
    if x == u64::MAX {
        0
    } else {
        (x + 1) as u64
    }
}

/// `x + 1` as `usize` arithmetic wraps it.
pub open spec fn winc_usize(x: usize) -> usize {
    if x == usize::MAX {
        0
    } else {
        (x + 1) as usize
    }
}

/// Position `i` holds a least count, the first such.
pub open spec fn is_first_least(p: Seq<u64>, i: int) -> bool {
    &&& 0 <= i < p.len()
    &&& forall|j: int| 0 <= j < p.len() ==> p[i] <= #[trigger] p[j]
    &&& forall|j: int| 0 <= j < i ==> p[i] < #[trigger] p[j]
}

/// The load of each stream of a pool and the pool's rotation.
pub struct StreamLoad {
    pending: Vec<u64>,
    strategy: StreamAssignment,
    next_robin: usize,
}

impl StreamLoad {
    /// Pending operations of each stream.
    pub closed spec fn pending_view(&self) -> Seq<u64> {
        self.pending@
    }

    /// The assignment strategy.
    pub closed spec fn strategy_view(&self) -> StreamAssignment {
        self.strategy
    }

    /// The rotation counter.
    pub closed spec fn rotation(&self) -> usize {
        self.next_robin
    }

    /// A pool of `count` idle streams.
    pub fn new(count: usize, strategy: StreamAssignment) -> (l: Self)
        ensures
            l.pending_view() == Seq::new(count as nat, |i: int| 0u64),
            l.strategy_view() == strategy,
            l.rotation() == 0,
    {
        let mut pending: Vec<u64> = Vec::new();
        let mut k: usize = 0;
        while k < count
            invariant
                0 <= k <= count,
                pending@ == Seq::new(k as nat, |i: int| 0u64),
            decreases count - k,
        {
            pending.push(0);
            proof {
                assert(pending@ =~= Seq::new((k + 1) as nat, |i: int| 0u64));
            }
            k = k + 1;
        }
        StreamLoad { pending, strategy, next_robin: 0 }
    }

    /// Number of streams.
    pub fn len(&self) -> (n: usize)
        ensures
            n == self.pending_view().len(),
    {
        self.pending.len()
    }

    /// Whether the pool has no stream.
    pub fn is_empty(&self) -> (b: bool)
        ensures
            b == (self.pending_view().len() == 0),
    {
        self.pending.len() == 0
    }

    /// Lends out a stream: the next in rotation, or the least loaded; its
    /// pending count goes up by one.  Returns its position.
    pub fn acquire(&mut self) -> (i: usize)
        requires
            old(self).pending_view().len() > 0,
        ensures
            i < old(self).pending_view().len(),
            final(self).strategy_view() == old(self).strategy_view(),
            final(self).pending_view() == old(self).pending_view().update(i as int, winc64(old(self).pending_view()[i as int])),
            old(self).strategy_view() == StreamAssignment::RoundRobin ==> i == (old(self).rotation() as int) % (old(self).pending_view().len() as int)
                && final(self).rotation() == winc_usize(old(self).rotation()),
            old(self).strategy_view() == StreamAssignment::LeastPending ==> is_first_least(old(self).pending_view(), i as int)
                && final(self).rotation() == old(self).rotation(),
    {
        let i = match self.strategy {
            StreamAssignment::RoundRobin => {
                let idx = self.next_robin % self.pending.len();
                self.next_robin = self.next_robin.wrapping_add(1);
                idx
            },
            StreamAssignment::LeastPending => {
                let mut best: usize = 0;
                let mut k: usize = 1;
                while k < self.pending.len()
                    invariant
                        1 <= k <= self.pending@.len(),
                        best < k,
                        forall|j: int| 0 <= j < k ==> self.pending@[best as int] <= #[trigger] self.pending@[j],
                        forall|j: int| 0 <= j < best ==> self.pending@[best as int] < #[trigger] self.pending@[j],
                    decreases self.pending@.len() - k,
                {
                    if self.pending[k] < self.pending[best] {
                        best = k;
                    }
                    k = k + 1;
                }
                best
            },
        };
        let v = self.pending[i].wrapping_add(1);
        self.pending.set(i, v);
        i
    }

    /// Counts one more operation on stream `i`.
    pub fn record_op(&mut self, i: usize)
        requires
            i < old(self).pending_view().len(),
        ensures
            final(self).pending_view() == old(self).pending_view().update(i as int, winc64(old(self).pending_view()[i as int])),
            final(self).strategy_view() == old(self).strategy_view(),
            final(self).rotation() == old(self).rotation(),
    {
        let v = self.pending[i].wrapping_add(1);
        self.pending.set(i, v);
    }

    /// Gives stream `i` back: its pending count goes down by one, unless it
    /// is zero.
    pub fn release(&mut self, i: usize)
        requires
            i < old(self).pending_view().len(),
        ensures
            final(self).pending_view() == if old(self).pending_view()[i as int] > 0 {
                old(self).pending_view().update(i as int, (old(self).pending_view()[i as int] - 1) as u64)
            } else {
                old(self).pending_view()
            },
            final(self).strategy_view() == old(self).strategy_view(),
            final(self).rotation() == old(self).rotation(),
    {
        if self.pending[i] > 0 {
            let v = self.pending[i] - 1;
            self.pending.set(i, v);
        }
    }

    /// Pending operations of stream `i`.
    pub fn pending_ops(&self, i: usize) -> (n: u64)
        requires
            i < self.pending_view().len(),
        ensures
            n == self.pending_view()[i as int],
    {
        self.pending[i]
    }
}

/// The check a pool makes of its size: at least one stream.
pub fn check_pool_size(kind: BackendKind, count: usize) -> (r: Result<(), GpuError>)
    ensures
        count > 0 ==> r is Ok,
        count == 0 ==> (r matches Err(e) && e.backend == kind && e.message@ == "StreamPool count must be > 0"@),
{
    if count == 0 {
        return Err(GpuError::new(kind, "StreamPool count must be > 0"));
    }
    Ok(())
}

/// The label of stream `i` of a pool: the backend's name, `-stream-`, `i`.
pub fn pool_stream_label(kind: BackendKind, i: usize) -> (s: String)
    ensures
        s@ == kind_display(kind) + "-stream-"@ + decimal(i as nat),
{
    let mut s = String::new();
    push_str(&mut s, kind.display_name());
    push_str(&mut s, "-stream-");
    push_decimal(&mut s, i);
    s
}

/// The label of stream `i` of a set: the prefix, `-`, `i`.
pub fn set_stream_label(prefix: &str, i: usize) -> (s: String)
    ensures
        s@ == prefix@ + "-"@ + decimal(i as nat),
{
    let mut s = String::new();
    push_str(&mut s, prefix);
    push_str(&mut s, "-");
    push_decimal(&mut s, i);
    s
}

/// The stream of a set of `depth` streams that batch `index` uses.
pub fn set_slot(index: usize, depth: usize) -> (i: usize)
    requires
        depth > 0,
    ensures
        i == index % depth,
{
    index % depth
}

/// The stream number `i` places after `x`, wrapping.
pub open spec fn id_after(x: u64, i: nat) -> u64
    decreases i,
{
    if i == 0 {
        x
    } else {
        next_id(id_after(x, (i - 1) as nat))
    }
}

/// A named stream.
pub struct GpuStream {
    inner: StubStream,
    label: String,
}

impl GpuStream {
    /// The stream's number.
    pub closed spec fn id_view(&self) -> u64 {
        self.inner.id
    }

    /// The stream's label.
    pub closed spec fn label_view(&self) -> Seq<char> {
        self.label@
    }

    /// A new stream of `backend`, labelled `label`.
    pub fn new(backend: &mut StubBackend, label: &str) -> (r: Result<Self, GpuError>)
        ensures
            r matches Ok(s) && s.id_view() == old(backend).next_stream_id() && s.label_view() == label@,
            final(backend).next_stream_id() == next_id(old(backend).next_stream_id()),
            final(backend).device() == old(backend).device(),
    {
        let inner = backend.create_stream()?;
        Ok(GpuStream { inner, label: to_owned_string(label) })
    }

    /// The stream's number.
    pub fn id(&self) -> (n: u64)
        ensures
            n == self.id_view(),
    {
        self.inner.id
    }

    /// Waits for the work queued on the stream: a stub stream has none.
    pub fn synchronize(&self) -> (r: Result<(), GpuError>)
        ensures
            r is Ok,
    {
        Ok(())
    }

    /// The stream's label.
    pub fn label(&self) -> (s: &str)
        ensures
            s@ == self.label_view(),
    {
        self.label.as_str()
    }
}

/// Whether `s` are streams numbered from `first` on, labelled by `label`.
pub open spec fn numbered_streams(s: Seq<GpuStream>, first: u64, label: spec_fn(nat) -> Seq<char>) -> bool {
    forall|i: int| 0 <= i < s.len() ==> (#[trigger] s[i]).id_view() == id_after(first, i as nat) && s[i].label_view() == label(i as nat)
}

/// `count` new streams of `backend`, stream `i` labelled
/// `stream_label(pool_kind, prefix, i)`.
fn make_streams(backend: &mut StubBackend, count: usize, pool_kind: Option<BackendKind>, prefix: &str) -> (r: Vec<GpuStream>)
    ensures
        r@.len() == count,
        numbered_streams(r@, old(backend).next_stream_id(), |i: nat| stream_label(pool_kind, prefix@, i)),
        final(backend).next_stream_id() == id_after(old(backend).next_stream_id(), count as nat),
        final(backend).device() == old(backend).device(),
{
    let ghost first = backend.next_stream_id();
    let mut streams: Vec<GpuStream> = Vec::new();
    let mut i: usize = 0;
    while i < count
        invariant
            i <= count,
            streams@.len() == i,
            numbered_streams(streams@, first, |j: nat| stream_label(pool_kind, prefix@, j)),
            backend.next_stream_id() == id_after(first, i as nat),
            backend.device() == old(backend).device(),
        decreases count - i,
    {
        let label = match pool_kind {
            Some(kind) => pool_stream_label(kind, i),
            None => set_stream_label(prefix, i),
        };
        let inner = match backend.create_stream() {
            Ok(s) => s,
            Err(_) => StubStream { id: 0 },
        };
        streams.push(GpuStream { inner, label });
        proof {
            assert(id_after(first, (i + 1) as nat) == next_id(id_after(first, i as nat)));
        }
        i = i + 1;
    }
    streams
}

/// The label of stream `i`: that of a pool of `kind`'s streams, or, with
/// no kind, that of a set's streams under `prefix`.
pub open spec fn stream_label(pool_kind: Option<BackendKind>, prefix: Seq<char>, i: nat) -> Seq<char> {
    match pool_kind {
        Some(kind) => kind_display(kind) + "-stream-"@ + decimal(i),
        None => prefix + "-"@ + decimal(i),
    }
}

/// A fixed set of streams lent out one at a time.
pub struct StreamPool {
    streams: Vec<GpuStream>,
    load: StreamLoad,
}

/// A stream lent out by a pool; give it back with `StreamPool::release`.
pub struct StreamGuard {
    index: usize,
}

impl StreamGuard {
    /// The position of the lent stream in its pool.
    pub closed spec fn index_view(&self) -> usize {
        self.index
    }

    /// The lent stream.
    pub fn stream<'a>(&self, pool: &'a StreamPool) -> (s: &'a GpuStream)
        requires
            pool.wf(),
            self.index_view() < pool.streams_view().len(),
        ensures
            *s == pool.streams_view()[self.index_view() as int],
    {
        &pool.streams[self.index]
    }

    /// Counts one more operation queued on the lent stream.
    pub fn record_op(&self, pool: &mut StreamPool)
        requires
            old(pool).wf(),
            self.index_view() < old(pool).streams_view().len(),
        ensures
            final(pool).wf(),
            final(pool).streams_view() == old(pool).streams_view(),
            final(pool).strategy() == old(pool).strategy(),
            final(pool).pending() == old(pool).pending().update(
                self.index_view() as int,
                winc64(old(pool).pending()[self.index_view() as int]),
            ),
    {
        pool.load.record_op(self.index);
    }

    /// The operations pending on the lent stream.
    pub fn pending_ops(&self, pool: &StreamPool) -> (n: u64)
        requires
            pool.wf(),
            self.index_view() < pool.streams_view().len(),
        ensures
            n == pool.pending()[self.index_view() as int],
    {
        pool.load.pending_ops(self.index)
    }
}

impl StreamPool {
    /// The pool's streams.
    pub closed spec fn streams_view(&self) -> Seq<GpuStream> {
        self.streams@
    }

    /// Pending operations of each stream.
    pub closed spec fn pending(&self) -> Seq<u64> {
        self.load.pending_view()
    }

    /// How the pool chooses the stream it lends out.
    pub closed spec fn strategy(&self) -> StreamAssignment {
        self.load.strategy_view()
    }

    /// The rotation counter.
    pub closed spec fn rotation(&self) -> usize {
        self.load.rotation()
    }

    /// Internal consistency: at least one stream, with one count each.
    pub closed spec fn wf(&self) -> bool {
        &&& self.streams@.len() > 0
        &&& self.load.pending_view().len() == self.streams@.len()
    }

    /// A consistent pool has at least one stream and one pending count
    /// per stream.
    pub proof fn lemma_wf(&self)
        requires
            self.wf(),
        ensures
            self.streams_view().len() > 0,
            self.pending().len() == self.streams_view().len(),
    {
    }

    /// `count` new streams of `backend` labelled `Stub-stream-i`, none of
    /// them busy; an error when `count` is zero.
    pub fn new(backend: &mut StubBackend, count: usize, strategy: StreamAssignment) -> (r: Result<Self, GpuError>)
        ensures
            count == 0 ==> (r matches Err(e) && e.backend == BackendKind::Stub
                && e.message@ == "StreamPool count must be > 0"@ && *final(backend) == *old(backend)),
            count > 0 ==> (r matches Ok(p) && p.wf() && p.streams_view().len() == count
                && numbered_streams(p.streams_view(), old(backend).next_stream_id(),
                    |i: nat| stream_label(Some(BackendKind::Stub), Seq::empty(), i))
                && p.pending() == Seq::new(count as nat, |i: int| 0u64) && p.strategy() == strategy && p.rotation() == 0
                && final(backend).next_stream_id() == id_after(old(backend).next_stream_id(), count as nat)),
            final(backend).device() == old(backend).device(),
    {
        let kind = backend.kind();
        check_pool_size(kind, count)?;
        let streams = make_streams(backend, count, Some(kind), "");
        Ok(StreamPool { streams, load: StreamLoad::new(count, strategy) })
    }

    /// Number of streams.
    pub fn len(&self) -> (n: usize)
        requires
            self.wf(),
        ensures
            n == self.streams_view().len(),
    {
        self.streams.len()
    }

    /// Whether the pool has no stream.
    pub fn is_empty(&self) -> (b: bool)
        ensures
            b == (self.streams_view().len() == 0),
    {
        self.streams.len() == 0
    }

    /// Lends out a stream: the next in rotation, or the first least loaded;
    /// its pending count goes up by one.
    pub fn acquire(&mut self) -> (r: Result<StreamGuard, GpuError>)
        requires
            old(self).wf(),
        ensures
            final(self).wf(),
            final(self).streams_view() == old(self).streams_view(),
            final(self).strategy() == old(self).strategy(),
            r matches Ok(g) && ({
                let i = g.index_view();
                &&& i < old(self).streams_view().len()
                &&& final(self).pending() == old(self).pending().update(i as int, winc64(old(self).pending()[i as int]))
                &&& old(self).strategy() == StreamAssignment::RoundRobin ==> i == (old(self).rotation() as int) % (
                old(self).streams_view().len() as int) && final(self).rotation() == winc_usize(old(self).rotation())
                &&& old(self).strategy() == StreamAssignment::LeastPending ==> is_first_least(old(self).pending(), i as int)
                    && final(self).rotation() == old(self).rotation()
            }),
    {
        let index = self.load.acquire();
        Ok(StreamGuard { index })
    }

    /// Takes a lent stream back: its pending count goes down by one,
    /// unless it is zero.
    pub fn release(&mut self, guard: StreamGuard)
        requires
            old(self).wf(),
            guard.index_view() < old(self).streams_view().len(),
        ensures
            final(self).wf(),
            final(self).streams_view() == old(self).streams_view(),
            final(self).strategy() == old(self).strategy(),
            final(self).rotation() == old(self).rotation(),
            ({
                let i = guard.index_view() as int;
                final(self).pending() == if old(self).pending()[i] > 0 {
                    old(self).pending().update(i, (old(self).pending()[i] - 1) as u64)
                } else {
                    old(self).pending()
                }
            }),
    {
        self.load.release(guard.index);
    }

    /// Waits for every stream of the pool.
    pub fn synchronize_all(&self) -> (r: Result<(), GpuError>)
        ensures
            r is Ok,
    {
        let mut i: usize = 0;
        while i < self.streams.len()
            decreases self.streams@.len() - i,
        {
            self.streams[i].synchronize()?;
            i = i + 1;
        }
        Ok(())
    }

    /// The pool's streams.
    pub fn iter(&self) -> (s: &[GpuStream])
        ensures
            s@ == self.streams_view(),
    {
        self.streams.as_slice()
    }
}

/// A fixed set of streams that a pipelined stage uses in turn.
pub struct StreamSet {
    streams: Vec<GpuStream>,
    depth: usize,
}

impl StreamSet {
    /// The set's streams.
    pub closed spec fn streams_view(&self) -> Seq<GpuStream> {
        self.streams@
    }

    /// The number of streams.
    pub closed spec fn depth_view(&self) -> usize {
        self.depth
    }

    /// Internal consistency: `depth` streams.
    pub closed spec fn wf(&self) -> bool {
        self.streams@.len() == self.depth
    }

    /// `depth` new streams of `backend`, labelled `prefix-i`.
    pub fn new(backend: &mut StubBackend, depth: usize, prefix: &str) -> (r: Result<Self, GpuError>)
        ensures
            r matches Ok(s) && s.wf() && s.depth_view() == depth
                && numbered_streams(s.streams_view(), old(backend).next_stream_id(), |i: nat| stream_label(None, prefix@, i)),
            final(backend).next_stream_id() == id_after(old(backend).next_stream_id(), depth as nat),
            final(backend).device() == old(backend).device(),
    {
        let streams = make_streams(backend, depth, None, prefix);
        Ok(StreamSet { streams, depth })
    }

    /// The stream that batch `index` uses: number `index % depth`.
    pub fn get(&self, index: usize) -> (s: &GpuStream)
        requires
            self.wf(),
            self.depth_view() > 0,
        ensures
            *s == self.streams_view()[(index % self.depth_view()) as int],
    {
        &self.streams[set_slot(index, self.depth)]
    }

    /// The number of streams.
    pub fn depth(&self) -> (n: usize)
        ensures
            n == self.depth_view(),
    {
        self.depth
    }

    /// Waits for every stream of the set.
    pub fn synchronize_all(&self) -> (r: Result<(), GpuError>)
        ensures
            r is Ok,
    {
        let mut i: usize = 0;
        while i < self.streams.len()
            decreases self.streams@.len() - i,
        {
            self.streams[i].synchronize()?;
            i = i + 1;
        }
        Ok(())
    }
}

} // verus!
