use crate::graph::Graph;
use vstd::prelude::*;

verus! {

/// The graph holds a directed edge from top vertex `t` to bottom vertex `b`.
pub open spec fn has_edge(g: Seq<(u32, u32)>, t: u32, b: u32) -> bool {
    exists|j: int| 0 <= j < g.len() && g[j] == (t, b)
}

/// Step `i` of a walk `c` uses a legal edge in the legal orientation:
/// steps at odd positions go top to bottom, steps at even positions
/// bottom to top.
pub open spec fn step_ok(g: Seq<(u32, u32)>, c: Seq<u32>, i: int) -> bool {
    if i % 2 == 1 {
        has_edge(g, c[i - 1], c[i])
    } else {
        has_edge(g, c[i], c[i - 1])
    }
}

/// What the verifier accepts: a sequence of odd length whose every step is
/// a legal edge in alternating orientation. Closure of the walk is not
/// checked here; the solver's own contract supplies it.
pub open spec fn verify_spec(g: Seq<(u32, u32)>, c: Seq<u32>) -> bool {
    &&& c.len() % 2 == 1
    &&& forall|i: int| 1 <= i < c.len() ==> step_ok(g, c, i)
}

/// A closed alternating walk as the solver emits it: odd sequence length
/// at least 5, ending at its starting vertex, every step legal.
pub open spec fn valid_cycle(g: Seq<(u32, u32)>, c: Seq<u32>) -> bool {
    &&& c.len() >= 5
    &&& c.len() % 2 == 1
    &&& c[0] == c[c.len() - 1]
    &&& forall|i: int| 1 <= i < c.len() ==> step_ok(g, c, i)
}

/// Edge `l` of the graph carries step `i` of the walk `c`.
spec fn edge_matches(g: Seq<(u32, u32)>, c: Seq<u32>, i: int, l: int) -> bool {
    if i % 2 == 1 {
        g[l] == (c[i - 1], c[i])
    } else {
        g[l] == (c[i], c[i - 1])
    }
}

impl Graph {
    /// Check a candidate cycle against the edge list: the sequence length
    /// must be odd, and each consecutive pair of vertices must be joined
    /// by a graph edge in the alternating orientation.
    pub fn verify(&self, cycle: &[u32]) -> (r: bool)
        ensures
            r == verify_spec(self@, cycle@),
    {
        let n = cycle.len();

        if n % 2 == 0 {
            return false;
        }

        let mut i: usize = 1;
        while i < n
            invariant
                1 <= i <= n,
                n == cycle@.len(),
                n % 2 == 1,
                forall|k: int| 1 <= k < i ==> step_ok(self@, cycle@, k),
            decreases n - i,
        {
            let mut found = false;
            let mut j: usize = 0;
            let en = self.len();
            while j < en && !found
                invariant
                    j <= en,
                    en == self@.len(),
                    1 <= i < n,
                    n == cycle@.len(),
                    found ==> step_ok(self@, cycle@, i as int),
                    !found ==> forall|l: int|
                        0 <= l < j ==> !edge_matches(self@, cycle@, i as int, l),
                decreases en - j,
            {
                let e = self.edge(j);
                if i % 2 == 1 {
                    if e.0 == cycle[i - 1] && e.1 == cycle[i] {
                        found = true;
                        proof {
                            assert(self@[j as int] == (cycle@[i - 1], cycle@[i as int]));
                        }
                    }
                } else {
                    if e.1 == cycle[i - 1] && e.0 == cycle[i] {
                        found = true;
                        proof {
                            assert(self@[j as int] == (cycle@[i as int], cycle@[i - 1]));
                        }
                    }
                }
                j += 1;
            }
            if !found {
                proof {
                    assert(!step_ok(self@, cycle@, i as int)) by {
                        if step_ok(self@, cycle@, i as int) {
                            if (i as int) % 2 == 1 {
                                let w = choose|w: int|
                                    0 <= w < self@.len() && self@[w] == (
                                        cycle@[i - 1],
                                        cycle@[i as int],
                                    );
                                assert(edge_matches(self@, cycle@, i as int, w));
                            } else {
                                let w = choose|w: int|
                                    0 <= w < self@.len() && self@[w] == (
                                        cycle@[i as int],
                                        cycle@[i - 1],
                                    );
                                assert(edge_matches(self@, cycle@, i as int, w));
                            }
                        }
                    }
                }
                return false;
            }
            i += 1;
        }
        true
    }
}

} // verus!
