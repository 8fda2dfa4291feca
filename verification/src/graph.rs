use vstd::arithmetic::power2::lemma2_to64;
use vstd::arithmetic::power2::lemma_pow2_pos;
use vstd::arithmetic::power2::lemma_pow2_strictly_increases;
use vstd::arithmetic::power2::pow2;
use vstd::bits::lemma_u64_shl_is_mul;
use vstd::prelude::*;

verus! {

/// An immutable bipartite proof-of-work graph: an ordered sequence of
/// `N = 2^n` directed edges `(top, bottom)` whose endpoints index into
/// `{0 .. N-1}`.
#[derive(Debug, Clone, PartialEq, Eq, Hash)]
pub struct Graph {
    pub(crate) edges: Vec<(u32, u32)>,
}

impl View for Graph {
    type V = Seq<(u32, u32)>;

    closed spec fn view(&self) -> Seq<(u32, u32)> {
        self.edges@
    }
}

/// Structural invariant of a generated graph: both endpoints of every edge
/// index into the edge sequence, and the vertex space fits 32-bit
/// identifiers.
pub open spec fn graph_wf(g: Seq<(u32, u32)>) -> bool {
    &&& g.len() <= 0x1_0000_0000
    &&& forall|i: int| 0 <= i < g.len() ==> (#[trigger] g[i]).0 < g.len() && g[i].1 < g.len()
}

/// The edge built from two raw 32-bit words: each word is reduced modulo
/// the edge count `m`.
pub open spec fn edge_from_words(a: u32, b: u32, m: nat) -> (u32, u32) {
    (((a as nat) % m) as u32, ((b as nat) % m) as u32)
}

/// The graph of `2^n` edges generated from a stream of raw 32-bit words:
/// edge `i` consumes words `2*i` and `2*i + 1`, in that order.
pub open spec fn graph_from_words(words: Seq<u32>, n: nat) -> Seq<(u32, u32)> {
    Seq::new(pow2(n), |i: int| edge_from_words(words[2 * i], words[2 * i + 1], pow2(n)))
}

proof fn lemma_pow2_n_le_32(n: u8)
    requires
        n <= 32,
    ensures
        1 <= pow2(n as nat) <= 0x1_0000_0000,
        1u64 << n == pow2(n as nat),
{
    lemma2_to64();
    lemma_pow2_pos(n as nat);
    if n < 32 {
        lemma_pow2_strictly_increases(n as nat, 32);
    }
    lemma_u64_shl_is_mul(1u64, n as u64);
}

impl Graph {
    /// The graph invariant, established by every constructor.
    pub open spec fn wf(&self) -> bool {
        graph_wf(self@)
    }

    /// Number of edges in the graph.
    pub fn len(&self) -> (r: usize)
        ensures
            r == self@.len(),
    {
        self.edges.len()
    }

    /// The edge stored at position `j`.
    pub fn edge(&self, j: usize) -> (e: (u32, u32))
        requires
            j < self@.len(),
        ensures
            e == self@[j as int],
    {
        self.edges[j]
    }

    /// Build the graph of `2^n` edges from an explicit stream of raw
    /// 32-bit words, two per edge. The result is a pure function of the
    /// word stream, which makes generation reproducible.
    pub fn from_words(words: &Vec<u32>, n: u8) -> (g: Graph)
        requires
            n <= 32,
            words@.len() == 2 * pow2(n as nat),
            2 * pow2(n as nat) <= usize::MAX,
        ensures
            g@ == graph_from_words(words@, n as nat),
            g.wf(),
            g@.len() == pow2(n as nat),
    {
        proof {
            lemma_pow2_n_le_32(n);
        }
        let m: u64 = 1u64 << n;
        let count: usize = m as usize;
        let mut edges: Vec<(u32, u32)> = Vec::with_capacity(count);
        let mut i: usize = 0;
        while i < count
            invariant
                n <= 32,
                m == pow2(n as nat),
                1 <= m <= 0x1_0000_0000,
                count == m,
                words@.len() == 2 * pow2(n as nat),
                2 * pow2(n as nat) <= usize::MAX,
                i <= count,
                edges@.len() == i,
                forall|k: int|
                    0 <= k < i ==> #[trigger] edges@[k] == edge_from_words(
                        words@[2 * k],
                        words@[2 * k + 1],
                        pow2(n as nat),
                    ),
            decreases count - i,
        {
            let a = words[2 * i];
            let b = words[2 * i + 1];
            let top = ((a as u64) % m) as u32;
            let bottom = ((b as u64) % m) as u32;
            proof {
                assert((a as u64) % m < m);
                assert((b as u64) % m < m);
                assert(top as nat == (a as nat) % (m as nat));
                assert(bottom as nat == (b as nat) % (m as nat));
            }
            edges.push((top, bottom));
            i += 1;
        }
        let g = Graph { edges };
        proof {
            assert(g@ =~= graph_from_words(words@, n as nat));
            assert forall|j: int| 0 <= j < g@.len() implies (#[trigger] g@[j]).0 < g@.len()
                && g@[j].1 < g@.len() by {
                assert(g@[j] == edge_from_words(words@[2 * j], words@[2 * j + 1], pow2(n as nat)));
            }
        }
        g
    }

    /// Generate a graph of `2^n` edges, drawing two 32-bit words per edge
    /// from the caller's generator. The edge sequence is a pure function
    /// of the drawn word stream.
    pub fn new<R: rand_core::Rng>(rng: &mut R, n: u8) -> (g: Graph)
        requires
            n <= 32,
            2 * pow2(n as nat) <= usize::MAX,
        ensures
            g.wf(),
            g@.len() == pow2(n as nat),
    {
        proof {
            lemma_pow2_n_le_32(n);
        }
        let m: u64 = 1u64 << n;
        let total: usize = (2 * m) as usize;
        let mut words: Vec<u32> = Vec::with_capacity(total);
        let mut i: usize = 0;
        while i < total
            invariant
                i <= total,
                words@.len() == i,
            decreases total - i,
        {
            let w = next_word(rng);
            words.push(w);
            i += 1;
        }
        Self::from_words(&words, n)
    }
}

/// Relies on `rand_core::Rng::next_u32` to draw one 32-bit word from
/// the caller's generator; nothing is assumed about the value drawn.
#[verifier::external_body]
fn next_word<R: rand_core::Rng>(rng: &mut R) -> u32 {
    rng.next_u32()
}

} // verus!
