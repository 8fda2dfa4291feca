use crate::cycle::has_edge;
use crate::cycle::step_ok;
use crate::cycle::valid_cycle;
use crate::cycle::verify_spec;
use crate::graph::graph_from_words;
use vstd::prelude::*;

verus! {

/// Generation is deterministic in the word stream: equal streams of raw
/// 32-bit words give equal graphs, so two graphs generated from
/// equivalent generator states are equal.
pub proof fn lemma_generation_deterministic(w1: Seq<u32>, w2: Seq<u32>, n: nat)
    requires
        w1 == w2,
    ensures
        graph_from_words(w1, n) == graph_from_words(w2, n),
{
}

/// Solver soundness glue: every closed alternating walk of odd sequence
/// length at least 5 — the shape the solver's contract guarantees for
/// anything it returns — passes the verifier's acceptance predicate.
pub proof fn lemma_cycle_passes_verification(g: Seq<(u32, u32)>, c: Seq<u32>)
    requires
        valid_cycle(g, c),
    ensures
        verify_spec(g, c),
{
}

/// The verifier rejects every even-length sequence.
pub proof fn lemma_verifier_rejects_even_length(g: Seq<(u32, u32)>, c: Seq<u32>)
    requires
        c.len() % 2 == 0,
    ensures
        !verify_spec(g, c),
{
}

/// Pruning safety on the top side: a top vertex that starts a cycle whose
/// first and last interior vertices differ — a fact the solver's contract
/// guarantees for every cycle it returns — has at least two distinct
/// forward neighbours. Hence dropping a top vertex that lists fewer than
/// two neighbours never discards such a cycle through it.
pub proof fn lemma_low_degree_top_not_on_cycle(g: Seq<(u32, u32)>, c: Seq<u32>, nbrs: Seq<u32>)
    requires
        valid_cycle(g, c),
        c[1] != c[c.len() - 2],
        forall|b: u32| #[trigger] nbrs.contains(b) <==> has_edge(g, c[0], b),
    ensures
        nbrs.len() >= 2,
{
    let l = c.len() as int;
    assert(step_ok(g, c, 1));
    assert(has_edge(g, c[0], c[1]));
    assert(step_ok(g, c, l - 1));
    assert((l - 1) % 2 == 0);
    assert(has_edge(g, c[l - 1], c[l - 2]));
    assert(c[l - 1] == c[0]);
    assert(nbrs.contains(c[1]));
    assert(nbrs.contains(c[l - 2]));
    let i1 = choose|i: int| 0 <= i < nbrs.len() && nbrs[i] == c[1];
    let i2 = choose|i: int| 0 <= i < nbrs.len() && nbrs[i] == c[l - 2];
    assert(i1 != i2);
}

/// Pruning safety on the bottom side: a bottom vertex interior to a cycle
/// whose two surrounding top vertices differ has at least two distinct
/// backward neighbours. Hence dropping a bottom vertex that lists fewer
/// than two neighbours never discards such a cycle through it.
pub proof fn lemma_low_degree_bottom_not_on_cycle(
    g: Seq<(u32, u32)>,
    c: Seq<u32>,
    i: int,
    nbrs: Seq<u32>,
)
    requires
        valid_cycle(g, c),
        1 <= i < c.len() - 1,
        i % 2 == 1,
        c[i - 1] != c[i + 1],
        forall|t: u32| #[trigger] nbrs.contains(t) <==> has_edge(g, t, c[i]),
    ensures
        nbrs.len() >= 2,
{
    assert(step_ok(g, c, i));
    assert(has_edge(g, c[i - 1], c[i]));
    assert(step_ok(g, c, i + 1));
    assert((i + 1) % 2 == 0);
    assert(has_edge(g, c[i + 1], c[i]));
    assert(nbrs.contains(c[i - 1]));
    assert(nbrs.contains(c[i + 1]));
    let i1 = choose|k: int| 0 <= k < nbrs.len() && nbrs[k] == c[i - 1];
    let i2 = choose|k: int| 0 <= k < nbrs.len() && nbrs[k] == c[i + 1];
    assert(i1 != i2);
}

} // verus!
