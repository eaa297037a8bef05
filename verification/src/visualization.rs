//! Graph export in the DOT language.

use vstd::prelude::*;
use crate::text::{decimal, push_decimal, push_str};

verus! {

/// DOT lines that declare the labelled nodes.
pub open spec fn dot_node_lines(tasks: Seq<(usize, String)>) -> Seq<char>
    decreases tasks.len(),
{
    if tasks.len() == 0 {
        Seq::empty()
    } else {
        let t = tasks.last();
        dot_node_lines(tasks.drop_last()) + "  "@ + decimal(t.0 as nat) + " [label=\""@ + t.1@ + "\"];\n"@
    }
}

/// DOT lines that declare the edges.
pub open spec fn dot_edge_lines(deps: Seq<(usize, usize)>) -> Seq<char>
    decreases deps.len(),
{
    if deps.len() == 0 {
        Seq::empty()
    } else {
        let d = deps.last();
        dot_edge_lines(deps.drop_last()) + "  "@ + decimal(d.0 as nat) + " -> "@ + decimal(d.1 as nat) + ";\n"@
    }
}

/// The DOT document for the given nodes and edges.
pub open spec fn dot_graph_text(tasks: Seq<(usize, String)>, deps: Seq<(usize, usize)>) -> Seq<char> {
    "digraph Taskflow {\n  rankdir=LR;\n  node [shape=box, style=rounded];\n\n"@ + dot_node_lines(tasks) + "\n"@
        + dot_edge_lines(deps) + "}\n"@
}

/// Renders labelled nodes and edges as a left-to-right DOT digraph.
pub fn generate_dot_graph(tasks: &[(usize, String)], dependencies: &[(usize, usize)]) -> (dot: String)
    ensures
        dot@ == dot_graph_text(tasks@, dependencies@),
{
    let mut dot = String::new();
    push_str(&mut dot, "digraph Taskflow {\n  rankdir=LR;\n  node [shape=box, style=rounded];\n\n");
    let ghost head = dot@;
    let mut i: usize = 0;
    while i < tasks.len()
        invariant
            0 <= i <= tasks@.len(),
            dot@ == head + dot_node_lines(tasks@.subrange(0, i as int)),
        decreases tasks@.len() - i,
    {
        let t = &tasks[i];
        push_str(&mut dot, "  ");
        push_decimal(&mut dot, t.0);
        push_str(&mut dot, " [label=\"");
        push_str(&mut dot, t.1.as_str());
        push_str(&mut dot, "\"];\n");
        proof {
            let sub = tasks@.subrange(0, i as int + 1);
            assert(sub.drop_last() =~= tasks@.subrange(0, i as int));
            assert(sub.last() == tasks@[i as int]);
            assert(dot@ =~= head + dot_node_lines(sub));
        }
        i = i + 1;
    }
    proof {
        assert(tasks@.subrange(0, tasks@.len() as int) =~= tasks@);
    }
    push_str(&mut dot, "\n");
    let ghost mid = dot@;
    let mut k: usize = 0;
    while k < dependencies.len()
        invariant
            0 <= k <= dependencies@.len(),
            dot@ == mid + dot_edge_lines(dependencies@.subrange(0, k as int)),
        decreases dependencies@.len() - k,
    {
        let d = dependencies[k];
        push_str(&mut dot, "  ");
        push_decimal(&mut dot, d.0);
        push_str(&mut dot, " -> ");
        push_decimal(&mut dot, d.1);
        push_str(&mut dot, ";\n");
        proof {
            let sub = dependencies@.subrange(0, k as int + 1);
            assert(sub.drop_last() =~= dependencies@.subrange(0, k as int));
            assert(sub.last() == dependencies@[k as int]);
            assert(dot@ =~= mid + dot_edge_lines(sub));
        }
        k = k + 1;
    }
    proof {
        assert(dependencies@.subrange(0, dependencies@.len() as int) =~= dependencies@);
    }
    push_str(&mut dot, "}\n");
    proof {
        assert(dot@ =~= dot_graph_text(tasks@, dependencies@));
    }
    dot
}

} // verus!
