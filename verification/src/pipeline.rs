//! A bounded stream of tokens between pipeline stages, and the task chains
//! that pipelines place in a graph.

use vstd::prelude::*;
use std::collections::VecDeque;

use crate::task::{TaskHandle, TaskId, TaskKind, TaskNode};
use crate::taskflow::{Taskflow, same_but_links, same_but_name, set_add};
use crate::text::{decimal, decimal_string, push_str};

verus! {

/// A data item flowing through a pipeline, with its admission number.
pub struct Token<T> {
    pub data: T,
    pub index: usize,
}

impl<T> Token<T> {
    /// A token carrying `data` with number `index`.
    pub fn new(data: T, index: usize) -> (t: Self)
        ensures
            t.data == data,
            t.index == index,
    {
        Token { data, index }
    }
}

/// How a stage processes tokens.
#[derive(Clone, Copy, Debug, PartialEq, Eq, Structural)]
pub enum StageType {
    /// One token at a time.
    Serial,
    /// Several tokens at once, on this many workers.
    Parallel(usize),
}

/// The message of a push refused because the pipeline holds as many
/// tokens as it may.
pub open spec fn capacity_message() -> Seq<char> {
    "Pipeline at capacity"@
}

/// A queue of tokens with two limits: how many tokens may be buffered,
/// beyond which a producer waits, and how many may be in flight, beyond
/// which a push is refused.
pub struct ConcurrentPipeline<T> {
    queue: VecDeque<Token<T>>,
    buffer_size: usize,
    tokens_in_flight: usize,
    max_tokens: usize,
    stopped: bool,
}

impl<T> ConcurrentPipeline<T> {
    /// The buffered tokens, oldest first.
    pub closed spec fn buffered(&self) -> Seq<Token<T>> {
        self.queue@
    }

    /// How many tokens may be buffered.
    pub closed spec fn buffer_limit(&self) -> usize {
        self.buffer_size
    }

    /// Tokens pushed and not yet popped, as counted.
    pub closed spec fn in_flight(&self) -> usize {
        self.tokens_in_flight
    }

    /// How many tokens may be in flight.
    pub closed spec fn token_limit(&self) -> usize {
        self.max_tokens
    }

    /// Whether the pipeline was stopped.
    pub closed spec fn stopped_flag(&self) -> bool {
        self.stopped
    }

    /// A push would have to wait for a pop: the pipeline is not at
    /// capacity and its buffer is full.
    pub open spec fn must_wait(&self) -> bool {
        self.in_flight() < self.token_limit() && self.buffered().len() >= self.buffer_limit()
    }

    /// An empty pipeline with the given limits.
    pub fn new(buffer_size: usize, max_tokens: usize) -> (p: Self)
        ensures
            p.buffered().len() == 0,
            p.buffer_limit() == buffer_size,
            p.in_flight() == 0,
            p.token_limit() == max_tokens,
            !p.stopped_flag(),
            p.must_wait() == (max_tokens > 0 && buffer_size == 0),
    {
        ConcurrentPipeline { queue: VecDeque::new(), buffer_size, tokens_in_flight: 0, max_tokens, stopped: false }
    }

    /// A push waits only on a full buffer below the token limit: with room
    /// in the buffer, or at the token limit, it goes ahead at once.
    pub proof fn lemma_waits_only_on_full_buffer(&self)
        ensures
            self.buffered().len() < self.buffer_limit() ==> !self.must_wait(),
            self.in_flight() >= self.token_limit() ==> !self.must_wait(),
            self.must_wait() ==> self.buffered().len() >= self.buffer_limit() && self.in_flight() < self.token_limit(),
    {
    }

    /// Whether a push would have to wait for a pop: only when the buffer
    /// holds `buffer_limit` tokens or more and the token limit is not
    /// reached.
    pub fn would_block(&self) -> (b: bool)
        ensures
            b == self.must_wait(),
            self.buffered().len() < self.buffer_limit() ==> !b,
            self.in_flight() >= self.token_limit() ==> !b,
    {
        self.tokens_in_flight < self.max_tokens && self.queue.len() >= self.buffer_size
    }

    /// Pushes `data` unless the pipeline is at capacity; the token is
    /// numbered by the count of tokens in flight before it.  A caller that
    /// would have to wait for a pop does so first.
    pub fn push(&mut self, data: T) -> (r: Result<(), &'static str>)
        requires
            !old(self).must_wait(),
        ensures
            final(self).buffer_limit() == old(self).buffer_limit(),
            final(self).token_limit() == old(self).token_limit(),
            final(self).stopped_flag() == old(self).stopped_flag(),
            old(self).in_flight() >= old(self).token_limit() ==> (r matches Err(m) && m@ == capacity_message())
                && final(self).buffered() == old(self).buffered() && final(self).in_flight() == old(self).in_flight(),
            old(self).in_flight() < old(self).token_limit() ==> r is Ok
                && final(self).buffered() == old(self).buffered().push(Token { data, index: old(self).in_flight() })
                && final(self).in_flight() == old(self).in_flight() + 1,
    {
        if self.tokens_in_flight >= self.max_tokens {
            proof {
                reveal_strlit("Pipeline at capacity");
            }
            return Err("Pipeline at capacity");
        }
        let index = self.tokens_in_flight;
        self.tokens_in_flight = self.tokens_in_flight + 1;
        self.queue.push_back(Token::new(data, index));
        Ok(())
    }

    /// Takes the oldest buffered token, if any.
    pub fn try_pop(&mut self) -> (r: Option<Token<T>>)
        ensures
            final(self).buffer_limit() == old(self).buffer_limit(),
            final(self).token_limit() == old(self).token_limit(),
            final(self).stopped_flag() == old(self).stopped_flag(),
            old(self).buffered().len() == 0 ==> r is None && final(self).buffered() == old(self).buffered()
                && final(self).in_flight() == old(self).in_flight(),
            old(self).buffered().len() > 0 ==> r == Some(old(self).buffered()[0])
                && final(self).buffered() == old(self).buffered().drop_first()
                && final(self).in_flight() == if old(self).in_flight() == 0 {
                    usize::MAX
                } else {
                    (old(self).in_flight() - 1) as usize
                },
    {
        let token = self.queue.pop_front();
        if token.is_some() {
            self.tokens_in_flight = self.tokens_in_flight.wrapping_sub(1);
        }
        token
    }

    /// Stops the pipeline.
    pub fn stop(&mut self)
        ensures
            final(self).stopped_flag(),
            final(self).buffered() == old(self).buffered(),
            final(self).buffer_limit() == old(self).buffer_limit(),
            final(self).in_flight() == old(self).in_flight(),
            final(self).token_limit() == old(self).token_limit(),
    {
        self.stopped = true;
    }

    /// Whether the pipeline was stopped.
    pub fn is_stopped(&self) -> (b: bool)
        ensures
            b == self.stopped_flag(),
    {
        self.stopped
    }

    /// Tokens pushed and not yet popped.
    pub fn tokens_in_flight(&self) -> (n: usize)
        ensures
            n == self.in_flight(),
    {
        self.tokens_in_flight
    }
}

/// The name of stage `i` of a chain: the prefix, then `i`.
pub open spec fn stage_name(prefix: Seq<char>, i: nat) -> Seq<char> {
    prefix + decimal(i)
}

/// The nodes from position `first` on are a chain of static tasks named
/// after the prefix and their stage number, each but the last followed by
/// the next.
pub open spec fn is_stage_chain(t: Seq<TaskNode>, first: int, count: int, prefix: Seq<char>) -> bool {
    &&& t.len() == first + count
    &&& forall|i: int| 0 <= i < count ==> {
        let n = #[trigger] t[first + i];
        &&& n.name@ == stage_name(prefix, i as nat)
        &&& n.kind == TaskKind::Static
        &&& n.successors@ == if i + 1 < count { seq![t[first + i + 1].id] } else { Seq::<TaskId>::empty() }
        &&& n.dependents@ == if i > 0 { seq![t[first + i - 1].id] } else { Seq::<TaskId>::empty() }
    }
}

/// Adds one task per work, named after `prefix` and its stage number,
/// each running after the one before; returns their handles in order.
pub fn chain_stages<W>(tf: &mut Taskflow<W>, works: Vec<W>, prefix: &str) -> (hs: Vec<TaskHandle>)
    requires
        old(tf).wf(),
        old(tf).base_id() + old(tf).nodes().len() + works@.len() < usize::MAX,
    ensures
        final(tf).wf(),
        final(tf).base_id() == old(tf).base_id(),
        final(tf).branch_tables() == old(tf).branch_tables(),
        final(tf).nodes().subrange(0, old(tf).nodes().len() as int) == old(tf).nodes(),
        is_stage_chain(final(tf).nodes(), old(tf).nodes().len() as int, works@.len() as int, prefix@),
        final(tf).works() == old(tf).works() + works@.map_values(|w: W| Some(w)),
        hs@.len() == works@.len(),
        forall|i: int| 0 <= i < hs@.len() ==> #[trigger] hs@[i].spec_id() == old(tf).base_id() + old(tf).nodes().len() + i,
{
    let ghost w0 = works@;
    let ghost old_works = tf.works();
    let mut works = works;
    let n = works.len();
    let t0 = tf.size();
    let base = tf.first_id() + t0;
    let ghost old_nodes = tf.nodes();
    let mut hs: Vec<TaskHandle> = Vec::new();
    let mut rest: Vec<W> = Vec::new();
    // Take the works out in order.
    while works.len() > 0
        invariant
            n == w0.len(),
            works@.len() <= n,
            works@ == w0.subrange(0, works@.len() as int),
            rest@.len() + works@.len() == n,
            forall|k: int| 0 <= k < rest@.len() ==> #[trigger] rest@[k] == w0[n - 1 - k],
        decreases works@.len(),
    {
        let w = works.pop().unwrap();
        rest.push(w);
    }
    let mut i: usize = 0;
    proof {
        tf.lemma_wf();
    }
    while i < n
        invariant
            tf.wf(),
            rest@.len() + i == n,
            n == w0.len(),
            forall|k: int| 0 <= k < rest@.len() ==> #[trigger] rest@[k] == w0[n - 1 - k],
            tf.works() == old_works + w0.subrange(0, i as int).map_values(|w: W| Some(w)),
            t0 == old_nodes.len(),
            base == tf.base_id() + t0,
            base + n < usize::MAX,
            tf.base_id() == old(tf).base_id(),
            tf.branch_tables() == old(tf).branch_tables(),
            tf.nodes().len() == t0 + i,
            tf.nodes().subrange(0, t0 as int) == old_nodes,
            hs@.len() == i,
            forall|k: int| 0 <= k < i ==> #[trigger] hs@[k].spec_id() == base + k,
            forall|k: int| 0 <= k < i ==> {
                let nd = #[trigger] tf.nodes()[t0 + k];
                &&& nd.id == base + k
                &&& nd.name@ == stage_name(prefix@, k as nat)
                &&& nd.kind == TaskKind::Static
                &&& nd.successors@ == if k + 1 < i { seq![(base + k + 1) as TaskId] } else { Seq::<TaskId>::empty() }
                &&& nd.dependents@ == if k > 0 { seq![(base + k - 1) as TaskId] } else { Seq::<TaskId>::empty() }
            },
        decreases n - i,
    {
        let w = rest.pop().unwrap();
        proof {
            assert(w == w0[i as int]);
            tf.lemma_wf();
        }
        let ghost g0 = tf.nodes();
        let h = tf.emplace(w);
        let mut name = String::new();
        push_str(&mut name, prefix);
        let digits = decimal_string(i);
        push_str(&mut name, digits.as_str());
        let ghost g1 = tf.nodes();
        tf.set_name(h.get_id(), name.as_str());
        let ghost g2 = tf.nodes();
        proof {
            assert forall|j: int| 0 <= j < t0 + i implies #[trigger] g2[j] == g0[j] by {
                assert(g1[j] == g0[j]);
                assert(g0[j].id == tf.base_id() + j);
            }
            assert(g1[t0 + i as int] == g1.last());
            assert(same_but_name(g2[t0 + i as int], g1[t0 + i as int]));
            assert(g2[t0 + i as int].name@ == stage_name(prefix@, i as nat));
        }
        if i > 0 {
            let prev = hs[i - 1];
            prev.precede(tf, &h);
        }
        proof {
            let g3 = tf.nodes();
            assert forall|k: int| 0 <= k < i + 1 implies {
                let nd = #[trigger] tf.nodes()[t0 + k];
                &&& nd.id == base + k
                &&& nd.name@ == stage_name(prefix@, k as nat)
                &&& nd.kind == TaskKind::Static
                &&& nd.successors@ == if k + 1 < i + 1 { seq![(base + k + 1) as TaskId] } else { Seq::<TaskId>::empty() }
                &&& nd.dependents@ == if k > 0 { seq![(base + k - 1) as TaskId] } else { Seq::<TaskId>::empty() }
            } by {
                if k < i {
                    assert(g2[t0 + k] == g0[t0 + k]);
                    let nd0 = g0[t0 + k];
                    assert(nd0.id == base + k);
                    assert(nd0.name@ == stage_name(prefix@, k as nat));
                    assert(same_but_links(g3[t0 + k], g2[t0 + k]));
                    if k + 1 < i {
                        assert(g3[t0 + k] == g2[t0 + k]);
                    } else {
                        assert(nd0.successors@ == Seq::<TaskId>::empty());
                        assert(g2[t0 + k].id == base + i - 1);
                        assert(set_add(Seq::<TaskId>::empty(), (base + i) as TaskId) =~= seq![(base + k + 1) as TaskId]);
                        assert(g3[t0 + k].successors@ == seq![(base + k + 1) as TaskId]);
                        assert(g3[t0 + k].dependents@ == nd0.dependents@);
                    }
                } else {
                    assert(k == i);
                    assert(g2[t0 + k].id == base + i);
                    assert(g2[t0 + k].successors@ == Seq::<TaskId>::empty());
                    assert(g2[t0 + k].dependents@ == Seq::<TaskId>::empty());
                    if i > 0 {
                        assert(same_but_links(g3[t0 + k], g2[t0 + k]));
                        assert(set_add(Seq::<TaskId>::empty(), (base + i - 1) as TaskId) =~= seq![(base + k - 1) as TaskId]);
                        assert(g3[t0 + k].successors@ == Seq::<TaskId>::empty());
                        assert(g3[t0 + k].dependents@ == seq![(base + k - 1) as TaskId]);
                    } else {
                        assert(g3[t0 + k] == g2[t0 + k]);
                    }
                }
            }
            assert forall|j: int| 0 <= j < t0 implies g3[j] == old_nodes[j] by {
                assert(g0.subrange(0, t0 as int)[j] == old_nodes[j]);
                assert(g2[j] == g0[j]);
            }
            assert(tf.nodes().subrange(0, t0 as int) =~= old_nodes);
            assert(tf.works() =~= old_works + w0.subrange(0, i as int + 1).map_values(|w: W| Some(w)));
            tf.lemma_wf();
        }
        hs.push(h);
        i = i + 1;
    }
    proof {
        assert(w0.subrange(0, n as int) =~= w0);
        assert forall|k: int| 0 <= k < n implies {
            let nd = #[trigger] tf.nodes()[t0 + k];
            &&& nd.name@ == stage_name(prefix@, k as nat)
            &&& nd.kind == TaskKind::Static
            &&& nd.successors@ == if k + 1 < n { seq![tf.nodes()[t0 + k + 1].id] } else { Seq::<TaskId>::empty() }
            &&& nd.dependents@ == if k > 0 { seq![tf.nodes()[t0 + k - 1].id] } else { Seq::<TaskId>::empty() }
        } by {
            if k + 1 < n {
                assert(tf.nodes()[t0 + (k + 1)].id == base + k + 1);
            }
            if k > 0 {
                assert(tf.nodes()[t0 + (k - 1)].id == base + k - 1);
            }
        }
    }
    hs
}

} // verus!
