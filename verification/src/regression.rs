//! Order statistics and JSON text used by performance-regression checks.

use vstd::prelude::*;
use vstd::relations::{sorted_by, total_ordering};
use crate::text::{push_char, push_str};
use crate::parse::chars_of;
use crate::profiler::TaskStats;

verus! {

/// `s` in ascending order.
pub open spec fn ascending(s: Seq<u64>) -> Seq<u64> {
    s.sort_by(|a: u64, b: u64| a <= b)
}

/// The rank (zero-based position in ascending order) that percentile `pct`
/// selects among `n > 0` values: `pct * n / 100`, capped at the last one.
pub open spec fn percentile_rank(n: nat, pct: nat) -> int {
    let idx = (pct * n) / 100;
    if idx < n {
        idx as int
    } else {
        n - 1
    }
}

/// The `pct`-th percentile of `s` by the nearest-rank rule above; 0 for no
/// values.
pub open spec fn percentile_of(s: Seq<u64>, pct: nat) -> u64 {
    if s.len() == 0 {
        0
    } else {
        ascending(s)[percentile_rank(s.len(), pct)]
    }
}

/// Sorts in ascending order with std's `slice::sort_unstable`, which
/// permutes the elements so that each is no greater than the next.
#[verifier::external_body]
fn sort_ascending(v: &mut Vec<u64>)
    ensures
        final(v)@.to_multiset() == old(v)@.to_multiset(),
        sorted_by(final(v)@, |a: u64, b: u64| a <= b),
{
    v.sort_unstable();
}

proof fn lemma_ascending_unique(s: Seq<u64>, t: Seq<u64>)
    requires
        t.to_multiset() == s.to_multiset(),
        sorted_by(t, |a: u64, b: u64| a <= b),
    ensures
        t == ascending(s),
{
    let leq = |a: u64, b: u64| a <= b;
    assert(total_ordering(leq));
    s.lemma_sort_by_ensures(leq);
    vstd::seq_lib::lemma_sorted_unique(t, ascending(s), leq);
}

/// The `pct`-th percentile of `durations` (the element at rank
/// `pct * len / 100` in ascending order, capped at the largest), or 0 when
/// there are none.
pub fn percentile_us(durations: &[u64], pct: u8) -> (r: u64)
    requires
        pct * durations@.len() <= usize::MAX,
    ensures
        r == percentile_of(durations@, pct as nat),
{
    if durations.len() == 0 {
        return 0;
    }
    let mut sorted: Vec<u64> = Vec::new();
    let mut i: usize = 0;
    while i < durations.len()
        invariant
            0 <= i <= durations@.len(),
            sorted@ == durations@.subrange(0, i as int),
        decreases durations@.len() - i,
    {
        sorted.push(durations[i]);
        i = i + 1;
    }
    assert(sorted@ =~= durations@);
    sort_ascending(&mut sorted);
    proof {
        lemma_ascending_unique(durations@, sorted@);
        assert(sorted@.len() == durations@.len()) by {
            broadcast use vstd::seq_lib::group_to_multiset_ensures;
            assert(sorted@.to_multiset().len() == durations@.to_multiset().len());
        }
    }
    let n = sorted.len();
    let idx = ((pct as usize) * n) / 100;
    let k = if idx < n { idx } else { n - 1 };
    sorted[k]
}

/// The text that stands for `c` inside a JSON string literal.
pub open spec fn json_char(c: char) -> Seq<char> {
    if c == '\\' {
        "\\\\"@
    } else if c == '"' {
        "\\\""@
    } else if c == '\n' {
        "\\n"@
    } else if c == '\r' {
        "\\r"@
    } else {
        seq![c]
    }
}

/// `s` with backslashes, quotes, line feeds and carriage returns escaped.
pub open spec fn json_escaped(s: Seq<char>) -> Seq<char>
    decreases s.len(),
{
    if s.len() == 0 {
        Seq::empty()
    } else {
        json_escaped(s.drop_last()) + json_char(s.last())
    }
}

/// `s` as a quoted JSON string literal.
pub fn json_string(s: &str) -> (r: String)
    ensures
        r@ == seq!['"'] + json_escaped(s@) + seq!['"'],
{
    let v = chars_of(s);
    let mut r = String::new();
    push_char(&mut r, '"');
    let mut i: usize = 0;
    while i < v.len()
        invariant
            0 <= i <= v@.len(),
            v@ == s@,
            r@ == seq!['"'] + json_escaped(v@.subrange(0, i as int)),
        decreases v@.len() - i,
    {
        let c = v[i];
        if c == '\\' {
            push_str(&mut r, "\\\\");
        } else if c == '"' {
            push_str(&mut r, "\\\"");
        } else if c == '\n' {
            push_str(&mut r, "\\n");
        } else if c == '\r' {
            push_str(&mut r, "\\r");
        } else {
            push_char(&mut r, c);
        }
        proof {
            let sub = v@.subrange(0, i as int + 1);
            assert(sub.drop_last() =~= v@.subrange(0, i as int));
            assert(sub.last() == c);
            assert(r@ =~= seq!['"'] + json_escaped(sub));
        }
        i = i + 1;
    }
    proof {
        assert(v@.subrange(0, v@.len() as int) =~= v@);
    }
    push_char(&mut r, '"');
    r
}

/// How far past its threshold a regression is.
#[derive(Debug, Clone, Copy, PartialEq, Eq, Structural)]
pub enum Severity {
    /// Past the threshold.
    Warning,
    /// Past twice the threshold.
    Critical,
}

impl Severity {
    /// The label reports print.
    pub fn label(&self) -> (s: &'static str)
        ensures
            s@ == match self {
                Severity::Warning => "WARNING"@,
                Severity::Critical => "CRITICAL"@,
            },
    {
        proof {
            reveal_strlit("WARNING");
            reveal_strlit("CRITICAL");
        }
        match self {
            Severity::Warning => "WARNING",
            Severity::Critical => "CRITICAL",
        }
    }
}

/// The tasks' durations in whole microseconds, kept to 64 bits.
pub open spec fn durations_us(s: Seq<TaskStats>) -> Seq<u64> {
    s.map_values(|t: TaskStats| (t.duration_ns / 1000) as u64)
}

/// Each task's duration in whole microseconds (kept to 64 bits).
pub fn task_durations_us(stats: &[TaskStats]) -> (r: Vec<u64>)
    ensures
        r@ == durations_us(stats@),
{
    let mut r: Vec<u64> = Vec::new();
    let mut i: usize = 0;
    while i < stats.len()
        invariant
            0 <= i <= stats@.len(),
            r@ == durations_us(stats@.subrange(0, i as int)),
        decreases stats@.len() - i,
    {
        r.push((stats[i].duration_ns / 1000) as u64);
        proof {
            assert(durations_us(stats@.subrange(0, i as int + 1)) =~= durations_us(stats@.subrange(0, i as int)).push(
                (stats@[i as int].duration_ns / 1000) as u64,
            ));
        }
        i = i + 1;
    }
    proof {
        assert(stats@.subrange(0, stats@.len() as int) =~= stats@);
    }
    r
}

/// Sum of the values.
pub open spec fn sum_u64(s: Seq<u64>) -> int
    decreases s.len(),
{
    if s.len() == 0 {
        0
    } else {
        sum_u64(s.drop_last()) + s.last()
    }
}

proof fn lemma_sum_prefix(s: Seq<u64>, i: int)
    requires
        0 <= i <= s.len(),
    ensures
        0 <= sum_u64(s.subrange(0, i)) <= sum_u64(s),
    decreases s.len() - i,
{
    if i < s.len() {
        lemma_sum_prefix(s, i + 1);
        assert(s.subrange(0, i + 1).drop_last() =~= s.subrange(0, i));
        lemma_sum_nonneg(s.subrange(0, i));
    } else {
        assert(s.subrange(0, i) =~= s);
        lemma_sum_nonneg(s);
    }
}

proof fn lemma_sum_nonneg(s: Seq<u64>)
    ensures
        sum_u64(s) >= 0,
    decreases s.len(),
{
    if s.len() > 0 {
        lemma_sum_nonneg(s.drop_last());
    }
}

/// The mean of the values, rounded down; 0 for none.
pub fn mean_us(values: &[u64]) -> (r: u64)
    requires
        sum_u64(values@) <= u64::MAX,
    ensures
        values@.len() == 0 ==> r == 0,
        values@.len() > 0 ==> r == sum_u64(values@) / (values@.len() as int),
{
    if values.len() == 0 {
        return 0;
    }
    let mut total: u64 = 0;
    let mut i: usize = 0;
    while i < values.len()
        invariant
            0 <= i <= values@.len(),
            sum_u64(values@) <= u64::MAX,
            total == sum_u64(values@.subrange(0, i as int)),
        decreases values@.len() - i,
    {
        proof {
            lemma_sum_prefix(values@, i as int + 1);
            assert(values@.subrange(0, i as int + 1).drop_last() =~= values@.subrange(0, i as int));
        }
        total = total + values[i];
        i = i + 1;
    }
    proof {
        assert(values@.subrange(0, values@.len() as int) =~= values@);
    }
    total / (values.len() as u64)
}

} // verus!
