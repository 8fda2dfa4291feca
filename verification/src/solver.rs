use crate::cycle::has_edge;
use crate::cycle::step_ok;
use crate::cycle::valid_cycle;
use crate::cycle::verify_spec;
use crate::graph::Graph;
use vstd::prelude::*;

verus! {

/// Adjacency structure `ls` lists vertex `v` under key `u`.
pub open spec fn adj_contains(ls: Seq<Vec<u32>>, u: u32, v: u32) -> bool {
    (u as int) < ls.len() && ls[u as int]@.contains(v)
}

/// The two adjacency sides list each other mutually: `v` is listed under
/// `u` on one side exactly when `u` is listed under `v` on the other.
pub open spec fn adj_mutual(a: Seq<Vec<u32>>, b: Seq<Vec<u32>>) -> bool {
    forall|u: u32, v: u32|
        #![trigger adj_contains(a, u, v)]
        #![trigger adj_contains(b, v, u)]
        adj_contains(a, u, v) <==> adj_contains(b, v, u)
}

/// Every pair listed on either adjacency side is a graph edge.
pub open spec fn adj_sound(g: Seq<(u32, u32)>, top: Seq<Vec<u32>>, bot: Seq<Vec<u32>>) -> bool {
    &&& forall|t: u32, b: u32| #[trigger] adj_contains(top, t, b) ==> has_edge(g, t, b)
    &&& forall|b: u32, t: u32| #[trigger] adj_contains(bot, b, t) ==> has_edge(g, t, b)
}

/// No adjacency list holds the same neighbour twice.
pub open spec fn lists_no_dup(ls: Seq<Vec<u32>>) -> bool {
    forall|i: int| 0 <= i < ls.len() ==> (#[trigger] ls[i])@.no_duplicates()
}

/// Top vertex `t` has at least two distinct forward neighbours in the
/// graph, so the first pruning pass keeps it.
pub open spec fn top_kept(g: Seq<(u32, u32)>, t: u32) -> bool {
    exists|b1: u32, b2: u32|
        #![trigger has_edge(g, t, b1), has_edge(g, t, b2)]
        b1 != b2 && has_edge(g, t, b1) && has_edge(g, t, b2)
}

/// The edge survives the first pruning pass: it is a graph edge whose top
/// vertex is kept.
pub open spec fn surviving_edge(g: Seq<(u32, u32)>, t: u32, b: u32) -> bool {
    has_edge(g, t, b) && top_kept(g, t)
}

/// Bottom vertex `b` still has at least two distinct incoming top
/// vertices after the first pruning pass, so the second pass keeps it.
pub open spec fn bot_kept(g: Seq<(u32, u32)>, b: u32) -> bool {
    exists|t1: u32, t2: u32|
        #![trigger surviving_edge(g, t1, b), surviving_edge(g, t2, b)]
        t1 != t2 && surviving_edge(g, t1, b) && surviving_edge(g, t2, b)
}

/// A graph edge among the first `k` edges of the list.
spec fn has_edge_prefix(g: Seq<(u32, u32)>, k: int, t: u32, b: u32) -> bool {
    exists|j: int| 0 <= j < k && g[j] == (t, b)
}

proof fn lemma_push_contains(s: Seq<u32>, x: u32)
    ensures
        forall|y: u32| #[trigger] s.push(x).contains(y) <==> (s.contains(y) || y == x),
{
    assert forall|y: u32| #[trigger] s.push(x).contains(y) <==> (s.contains(y) || y == x) by {
        if s.contains(y) {
            let i = choose|i: int| 0 <= i < s.len() && s[i] == y;
            assert(s.push(x)[i] == y);
        }
        if y == x {
            assert(s.push(x)[s.len() as int] == y);
        }
        if s.push(x).contains(y) {
            let i = choose|i: int| 0 <= i < s.push(x).len() && s.push(x)[i] == y;
            if i < s.len() {
                assert(s[i] == y);
            }
        }
    }
}

proof fn lemma_push_no_dup(s: Seq<u32>, x: u32)
    requires
        s.no_duplicates(),
        !s.contains(x),
    ensures
        s.push(x).no_duplicates(),
{
    let s2 = s.push(x);
    assert forall|i: int, j: int| 0 <= i < s2.len() && 0 <= j < s2.len() && i != j implies s2[i]
        != s2[j] by {
        if i < s.len() && j < s.len() {
            assert(s2[i] == s[i] && s2[j] == s[j]);
        } else if i < s.len() {
            assert(s2[j] == x && s2[i] == s[i]);
            assert(!s.contains(x));
            if s[i] == x {
                assert(s.contains(x));
            }
        } else if j < s.len() {
            assert(s2[i] == x && s2[j] == s[j]);
            if s[j] == x {
                assert(s.contains(x));
            }
        }
    }
}

/// Linear membership scan over one adjacency list.
fn vec_contains(v: &Vec<u32>, x: u32) -> (r: bool)
    ensures
        r == v@.contains(x),
{
    let n = v.len();
    let mut j: usize = 0;
    while j < n
        invariant
            j <= n,
            n == v@.len(),
            forall|l: int| 0 <= l < j ==> v@[l] != x,
        decreases n - j,
    {
        if v[j] == x {
            return true;
        }
        j += 1;
    }
    proof {
        if v@.contains(x) {
            let l = choose|l: int| 0 <= l < v@.len() && v@[l] == x;
            assert(false);
        }
    }
    false
}

/// Copy of a list with every occurrence of `x` dropped, in stable order.
fn remove_value(v: &Vec<u32>, x: u32) -> (r: Vec<u32>)
    requires
        v@.no_duplicates(),
    ensures
        r@.no_duplicates(),
        forall|y: u32| #[trigger] r@.contains(y) <==> (v@.contains(y) && y != x),
{
    let n = v.len();
    let mut r: Vec<u32> = Vec::new();
    let mut j: usize = 0;
    while j < n
        invariant
            j <= n,
            n == v@.len(),
            v@.no_duplicates(),
            r@.no_duplicates(),
            forall|y: u32| #[trigger] r@.contains(y) <==> (v@.subrange(0, j as int).contains(y)
                && y != x),
        decreases n - j,
    {
        let ghost pre = v@.subrange(0, j as int);
        let e = v[j];
        if e != x {
            proof {
                if r@.contains(e) {
                    assert(pre.contains(e));
                    let l = choose|l: int| 0 <= l < pre.len() && pre[l] == e;
                    assert(v@[l] == e && v@[j as int] == e);
                }
                lemma_push_contains(r@, e);
                lemma_push_no_dup(r@, e);
            }
            r.push(e);
        }
        proof {
            assert(v@.subrange(0, j as int + 1) =~= pre.push(v@[j as int]));
            lemma_push_contains(pre, v@[j as int]);
        }
        j += 1;
    }
    proof {
        assert(v@.subrange(0, n as int) =~= v@);
    }
    r
}

proof fn lemma_mutual_sym(a: Seq<Vec<u32>>, b: Seq<Vec<u32>>)
    requires
        adj_mutual(a, b),
    ensures
        adj_mutual(b, a),
{
    assert forall|u: u32, v: u32|
        #![trigger adj_contains(b, u, v)]
        #![trigger adj_contains(a, v, u)]
        adj_contains(b, u, v) <==> adj_contains(a, v, u) by {
        assert(adj_contains(a, v, u) <==> adj_contains(b, u, v));
    }
}

/// One pruning pass: every key on side `a` that lists fewer than two
/// neighbours is dropped, and its pairs leave both sides.
fn prune_pass(a: &mut Vec<Vec<u32>>, b: &mut Vec<Vec<u32>>)
    requires
        adj_mutual(old(a)@, old(b)@),
        lists_no_dup(old(a)@),
        lists_no_dup(old(b)@),
        old(a)@.len() <= 0x1_0000_0000,
    ensures
        final(a)@.len() == old(a)@.len(),
        final(b)@.len() == old(b)@.len(),
        adj_mutual(final(a)@, final(b)@),
        lists_no_dup(final(a)@),
        lists_no_dup(final(b)@),
        forall|u: u32, v: u32| #[trigger] adj_contains(final(a)@, u, v) ==> adj_contains(
            old(a)@,
            u,
            v,
        ),
        forall|u: u32, v: u32| #[trigger] adj_contains(final(b)@, u, v) ==> adj_contains(
            old(b)@,
            u,
            v,
        ),
        forall|u: int|
            0 <= u < old(a)@.len() ==> (#[trigger] final(a)@[u])@.len() == 0 || final(a)@[u] == old(
                a,
            )@[u],
        forall|u: int|
            0 <= u < old(a)@.len() && old(a)@[u]@.len() < 2 ==> (#[trigger] final(a)@[u])@.len()
                == 0,
        forall|u: int|
            0 <= u < old(a)@.len() && old(a)@[u]@.len() >= 2 ==> (#[trigger] final(a)@[u]) == old(
                a,
            )@[u],
{
    let an = a.len();
    let mut i: usize = 0;
    while i < an
        invariant
            an == a@.len(),
            a@.len() == old(a)@.len(),
            b@.len() == old(b)@.len(),
            an <= 0x1_0000_0000,
            i <= an,
            adj_mutual(a@, b@),
            lists_no_dup(a@),
            lists_no_dup(b@),
            forall|u: u32, v: u32| #[trigger] adj_contains(a@, u, v) ==> adj_contains(
                old(a)@,
                u,
                v,
            ),
            forall|u: u32, v: u32| #[trigger] adj_contains(b@, u, v) ==> adj_contains(
                old(b)@,
                u,
                v,
            ),
            forall|u: int| 0 <= u < an ==> (#[trigger] a@[u])@.len() == 0 || a@[u] == old(a)@[u],
            forall|u: int| 0 <= u < i && old(a)@[u]@.len() < 2 ==> (#[trigger] a@[u])@.len() == 0,
            forall|u: int| 0 <= u < an && old(a)@[u]@.len() >= 2 ==> (#[trigger] a@[u]) == old(
                a,
            )@[u],
        decreases an - i,
    {
        if a[i].len() < 2 {
            let iu = i as u32;
            let ghost a0 = a@;
            let ghost b0 = b@;
            let ghost l0 = a@[i as int]@;
            let ln = a[i].len();
            let mut j: usize = 0;
            while j < ln
                invariant
                    a@ == a0,
                    i < an,
                    an == a0.len(),
                    an <= 0x1_0000_0000,
                    iu == i as u32,
                    iu as int == i as int,
                    l0 == a0[i as int]@,
                    ln == l0.len(),
                    j <= ln,
                    adj_mutual(a0, b0),
                    lists_no_dup(a0),
                    b@.len() == b0.len(),
                    lists_no_dup(b@),
                    forall|u: u32, v: u32| u != iu ==> ((#[trigger] adj_contains(b@, v, u))
                        <==> adj_contains(b0, v, u)),
                    forall|v: u32| #[trigger] adj_contains(b@, v, iu) <==> (adj_contains(
                        b0,
                        v,
                        iu,
                    ) && !l0.subrange(0, j as int).contains(v)),
                    forall|u: u32, v: u32| #[trigger] adj_contains(b@, u, v) ==> adj_contains(
                        b0,
                        u,
                        v,
                    ),
                decreases ln - j,
            {
                let v = a[i][j];
                proof {
                    assert(l0[j as int] == v);
                    assert(l0.contains(v));
                    assert(adj_contains(a0, iu, v));
                    assert(adj_contains(b0, v, iu));
                }
                let vi = v as usize;
                let ghost bpre = b@;
                let nl = remove_value(&b[vi], iu);
                b[vi] = nl;
                proof {
                    let ghost bnow = b@;
                    assert(bnow[vi as int]@ == nl@);
                    assert(v as int == vi as int);
                    assert(l0.subrange(0, j as int + 1) =~= l0.subrange(0, j as int).push(
                        l0[j as int],
                    ));
                    lemma_push_contains(l0.subrange(0, j as int), l0[j as int]);
                    assert forall|u: u32, v2: u32| u != iu implies ((#[trigger] adj_contains(
                        bnow,
                        v2,
                        u,
                    )) <==> adj_contains(bpre, v2, u)) by {
                        if v2 == v {
                            assert(bnow[v2 as int]@.contains(u) <==> (bpre[v2 as int]@.contains(u)
                                && u != iu));
                        } else {
                            assert(v2 as int != vi as int);
                            if (v2 as int) < bnow.len() {
                                assert(bnow[v2 as int] == bpre[v2 as int]);
                            }
                        }
                    }
                    assert forall|v2: u32| #[trigger] adj_contains(bnow, v2, iu) <==> (
                    adj_contains(b0, v2, iu) && !l0.subrange(0, j as int + 1).contains(v2)) by {
                        if v2 == v {
                            assert(!bnow[v2 as int]@.contains(iu));
                            assert(l0.subrange(0, j as int + 1).contains(v2));
                        } else {
                            assert(v2 as int != vi as int);
                            if (v2 as int) < bnow.len() {
                                assert(bnow[v2 as int] == bpre[v2 as int]);
                            }
                            assert(adj_contains(bnow, v2, iu) <==> adj_contains(bpre, v2, iu));
                            assert(l0.subrange(0, j as int + 1).contains(v2) <==> l0.subrange(
                                0,
                                j as int,
                            ).contains(v2));
                        }
                    }
                    assert forall|u: u32, v2: u32| #[trigger] adj_contains(bnow, u, v2) implies
                        adj_contains(b0, u, v2) by {
                        if u == v {
                            assert(bnow[u as int]@.contains(v2) ==> bpre[u as int]@.contains(v2));
                        } else {
                            if (u as int) < bnow.len() {
                                assert(bnow[u as int] == bpre[u as int]);
                            }
                        }
                    }
                    assert forall|i2: int| 0 <= i2 < bnow.len() implies (#[trigger] bnow[i2])@
                        .no_duplicates() by {
                        if i2 == vi as int {
                            assert(bnow[i2]@ == nl@);
                        } else {
                            assert(bnow[i2] == bpre[i2]);
                        }
                    }
                }
                j += 1;
            }
            proof {
                assert(l0.subrange(0, ln as int) =~= l0);
                assert forall|v: u32| !(#[trigger] adj_contains(b@, v, iu)) by {
                    if adj_contains(b@, v, iu) {
                        assert(adj_contains(b0, v, iu) && !l0.contains(v));
                        assert(adj_contains(a0, iu, v));
                        assert(l0.contains(v));
                    }
                }
            }
            let ghost apre = a@;
            let ghost bnow = b@;
            a[i] = Vec::new();
            proof {
                assert(a@[i as int]@ =~= Seq::<u32>::empty());
                assert forall|u: u32, v: u32|
                    #![trigger adj_contains(a@, u, v)]
                    #![trigger adj_contains(bnow, v, u)]
                    adj_contains(a@, u, v) <==> adj_contains(bnow, v, u) by {
                    if u == iu {
                        assert(!a@[u as int]@.contains(v));
                        assert(!adj_contains(bnow, v, iu));
                    } else {
                        if (u as int) < a@.len() {
                            assert(a@[u as int] == apre[u as int]);
                        }
                        assert(adj_contains(a@, u, v) <==> adj_contains(a0, u, v));
                        assert(adj_contains(a0, u, v) <==> adj_contains(b0, v, u));
                        assert(adj_contains(bnow, v, u) <==> adj_contains(b0, v, u));
                    }
                }
                assert forall|u: u32, v: u32| #[trigger] adj_contains(a@, u, v) implies
                    adj_contains(a0, u, v) by {
                    if u != iu {
                        if (u as int) < a@.len() {
                            assert(a@[u as int] == apre[u as int]);
                        }
                    } else {
                        assert(!a@[u as int]@.contains(v));
                    }
                }
                assert forall|i2: int| 0 <= i2 < a@.len() implies (#[trigger] a@[i2])@
                    .no_duplicates() by {
                    if i2 != i as int {
                        assert(a@[i2] == apre[i2]);
                    }
                }
                assert forall|u: int| 0 <= u < an implies ((#[trigger] a@[u])@.len() == 0 || a@[u]
                    == old(a)@[u]) by {
                    if u != i as int {
                        assert(a@[u] == apre[u]);
                        assert(apre[u] == a0[u]);
                    }
                }
                assert forall|u: int| 0 <= u < i as int + 1 && old(a)@[u]@.len() < 2 implies (
                #[trigger] a@[u])@.len() == 0 by {
                    if u != i as int {
                        assert(a@[u] == a0[u]);
                    }
                }
                assert forall|u: int|
                    0 <= u < an && old(a)@[u]@.len() >= 2 implies (#[trigger] a@[u]) == old(
                        a,
                    )@[u] by {
                    if u != i as int {
                        assert(a@[u] == a0[u]);
                    } else {
                        assert(a0[u] == old(a)@[u]);
                        assert(a0[u]@.len() < 2);
                    }
                }
            }
        } else {
            proof {
                assert(a@[i as int]@.len() >= 2);
            }
        }
        i += 1;
    }
}

impl Graph {
    /// Build both adjacency maps from the edge list, then prune, once per
    /// side, every vertex that lists fewer than two neighbours. The two
    /// maps come back mutually consistent and duplicate-free, and a pair
    /// is listed exactly when it is a graph edge whose top vertex has two
    /// distinct forward neighbours and whose bottom vertex keeps two
    /// distinct surviving top vertices.
    pub fn pruned_adjacency(&self) -> (r: (Vec<Vec<u32>>, Vec<Vec<u32>>))
        requires
            self.wf(),
        ensures
            r.0@.len() == self@.len(),
            r.1@.len() == self@.len(),
            adj_mutual(r.0@, r.1@),
            adj_sound(self@, r.0@, r.1@),
            lists_no_dup(r.0@),
            lists_no_dup(r.1@),
            forall|b: int|
                0 <= b < r.1@.len() ==> (#[trigger] r.1@[b])@.len() == 0 || r.1@[b]@.len() >= 2,
            forall|t: u32, b: u32| #[trigger] adj_contains(r.0@, t, b) <==> (has_edge(self@, t, b)
                && top_kept(self@, t) && bot_kept(self@, b)),
            forall|b: u32, t: u32| #[trigger] adj_contains(r.1@, b, t) <==> (has_edge(self@, t, b)
                && top_kept(self@, t) && bot_kept(self@, b)),
    {
        let (mut top, mut bot) = self.build_adjacency();
        let ghost top0 = top@;
        let ghost bot0 = bot@;
        proof {
            assert forall|u: u32, v: u32|
                #![trigger adj_contains(top0, u, v)]
                #![trigger adj_contains(bot0, v, u)]
                adj_contains(top0, u, v) <==> adj_contains(bot0, v, u) by {
                assert(adj_contains(top0, u, v) <==> has_edge(self@, u, v));
                assert(adj_contains(bot0, v, u) <==> has_edge(self@, u, v));
            }
        }
        prune_pass(&mut top, &mut bot);
        let ghost top1 = top@;
        let ghost bot1 = bot@;
        proof {
            lemma_mutual_sym(top1, bot1);
        }
        prune_pass(&mut bot, &mut top);
        proof {
            lemma_mutual_sym(bot@, top@);
            assert forall|t: u32, b: u32| #[trigger] adj_contains(top@, t, b) implies has_edge(
                self@,
                t,
                b,
            ) by {
                assert(adj_contains(top1, t, b));
                assert(adj_contains(top0, t, b));
            }
            assert forall|b: u32, t: u32| #[trigger] adj_contains(bot@, b, t) implies has_edge(
                self@,
                t,
                b,
            ) by {
                assert(adj_contains(bot1, b, t));
                assert(adj_contains(bot0, b, t));
            }
            assert forall|b: int|
                0 <= b < bot@.len() implies ((#[trigger] bot@[b])@.len() == 0 || bot@[b]@.len()
                    >= 2) by {
                if bot@[b]@.len() != 0 {
                    assert(bot@[b] == bot1[b]);
                    assert(bot1[b]@.len() >= 2);
                }
            }
            assert forall|t: u32|
                #![trigger top_kept(self@, t)]
                top_kept(self@, t) <==> ((t as int) < top0.len() && top0[t as int]@.len()
                    >= 2) by {
                if top_kept(self@, t) {
                    let (b1, b2) = choose|b1: u32, b2: u32|
                        b1 != b2 && has_edge(self@, t, b1) && has_edge(self@, t, b2);
                    let j = choose|j: int| 0 <= j < self@.len() && self@[j] == (t, b1);
                    assert((t as int) < self@.len());
                    assert(adj_contains(top0, t, b1));
                    assert(adj_contains(top0, t, b2));
                    let l = top0[t as int]@;
                    let i1 = choose|i: int| 0 <= i < l.len() && l[i] == b1;
                    let i2 = choose|i: int| 0 <= i < l.len() && l[i] == b2;
                    assert(i1 != i2);
                }
                if (t as int) < top0.len() && top0[t as int]@.len() >= 2 {
                    let l = top0[t as int]@;
                    let e0 = l[0];
                    let e1 = l[1];
                    assert(l.no_duplicates());
                    assert(e0 != e1);
                    assert(l.contains(e0));
                    assert(l.contains(e1));
                    assert(adj_contains(top0, t, e0));
                    assert(adj_contains(top0, t, e1));
                    assert(has_edge(self@, t, e0));
                    assert(has_edge(self@, t, e1));
                    assert(top_kept(self@, t));
                }
            }
            assert forall|b: u32, t: u32|
                #![trigger adj_contains(bot1, b, t)]
                #![trigger surviving_edge(self@, t, b)]
                adj_contains(bot1, b, t) <==> surviving_edge(self@, t, b) by {
                if adj_contains(bot1, b, t) {
                    assert(adj_contains(top1, t, b));
                    assert((t as int) < top1.len() && top1[t as int]@.contains(b));
                    assert(top0[t as int]@.len() >= 2);
                    assert(top1[t as int] == top0[t as int]);
                    assert(adj_contains(top0, t, b));
                    assert(has_edge(self@, t, b));
                    assert(top_kept(self@, t));
                }
                if surviving_edge(self@, t, b) {
                    assert(has_edge(self@, t, b));
                    assert(top_kept(self@, t));
                    assert((t as int) < top0.len() && top0[t as int]@.len() >= 2);
                    assert(top1[t as int] == top0[t as int]);
                    assert(adj_contains(top0, t, b));
                    assert(adj_contains(top1, t, b));
                    assert(adj_contains(bot1, b, t));
                }
            }
            assert forall|b: u32|
                #![trigger bot_kept(self@, b)]
                bot_kept(self@, b) <==> ((b as int) < bot1.len() && bot1[b as int]@.len()
                    >= 2) by {
                if bot_kept(self@, b) {
                    let (t1, t2) = choose|t1: u32, t2: u32|
                        t1 != t2 && surviving_edge(self@, t1, b) && surviving_edge(self@, t2, b);
                    assert(has_edge(self@, t1, b));
                    let j = choose|j: int| 0 <= j < self@.len() && self@[j] == (t1, b);
                    assert((b as int) < self@.len());
                    assert(adj_contains(bot1, b, t1));
                    assert(adj_contains(bot1, b, t2));
                    let l = bot1[b as int]@;
                    let i1 = choose|i: int| 0 <= i < l.len() && l[i] == t1;
                    let i2 = choose|i: int| 0 <= i < l.len() && l[i] == t2;
                    assert(i1 != i2);
                }
                if (b as int) < bot1.len() && bot1[b as int]@.len() >= 2 {
                    let l = bot1[b as int]@;
                    let e0 = l[0];
                    let e1 = l[1];
                    assert(l.no_duplicates());
                    assert(e0 != e1);
                    assert(l.contains(e0));
                    assert(l.contains(e1));
                    assert(adj_contains(bot1, b, e0));
                    assert(adj_contains(bot1, b, e1));
                    assert(surviving_edge(self@, e0, b));
                    assert(surviving_edge(self@, e1, b));
                    assert(bot_kept(self@, b));
                }
            }
            assert forall|b: u32, t: u32| #[trigger] adj_contains(bot@, b, t) <==> (has_edge(
                self@,
                t,
                b,
            ) && top_kept(self@, t) && bot_kept(self@, b)) by {
                if adj_contains(bot@, b, t) {
                    assert(bot1[b as int]@.len() >= 2);
                    assert(bot@[b as int] == bot1[b as int]);
                    assert(adj_contains(bot1, b, t));
                    assert(surviving_edge(self@, t, b));
                    assert(bot_kept(self@, b));
                }
                if has_edge(self@, t, b) && top_kept(self@, t) && bot_kept(self@, b) {
                    assert(surviving_edge(self@, t, b));
                    assert((b as int) < bot1.len() && bot1[b as int]@.len() >= 2);
                    assert(bot@[b as int] == bot1[b as int]);
                    assert(adj_contains(bot1, b, t));
                    assert(adj_contains(bot@, b, t));
                }
            }
            assert forall|t: u32, b: u32| #[trigger] adj_contains(top@, t, b) <==> (has_edge(
                self@,
                t,
                b,
            ) && top_kept(self@, t) && bot_kept(self@, b)) by {
                assert(adj_contains(top@, t, b) <==> adj_contains(bot@, b, t));
                assert(adj_contains(bot@, b, t) <==> (has_edge(self@, t, b) && top_kept(self@, t)
                    && bot_kept(self@, b)));
            }
        }
        (top, bot)
    }

    /// Scan the edge list once and collect, for each top vertex, its
    /// distinct bottom neighbours in first-seen order, and symmetrically
    /// for each bottom vertex.
    fn build_adjacency(&self) -> (r: (Vec<Vec<u32>>, Vec<Vec<u32>>))
        requires
            self.wf(),
        ensures
            r.0@.len() == self@.len(),
            r.1@.len() == self@.len(),
            forall|t: u32, b: u32| #[trigger] adj_contains(r.0@, t, b) <==> has_edge(self@, t, b),
            forall|b: u32, t: u32| #[trigger] adj_contains(r.1@, b, t) <==> has_edge(self@, t, b),
            lists_no_dup(r.0@),
            lists_no_dup(r.1@),
    {
        let m = self.len();
        let mut top: Vec<Vec<u32>> = Vec::new();
        let mut bot: Vec<Vec<u32>> = Vec::new();
        let mut i: usize = 0;
        while i < m
            invariant
                i <= m,
                top@.len() == i,
                bot@.len() == i,
                forall|k: int| 0 <= k < i ==> (#[trigger] top@[k])@.len() == 0,
                forall|k: int| 0 <= k < i ==> (#[trigger] bot@[k])@.len() == 0,
            decreases m - i,
        {
            top.push(Vec::new());
            bot.push(Vec::new());
            i += 1;
        }
        let mut k: usize = 0;
        while k < m
            invariant
                self.wf(),
                m == self@.len(),
                top@.len() == m,
                bot@.len() == m,
                k <= m,
                forall|t: u32, b: u32| #[trigger] adj_contains(top@, t, b) <==> has_edge_prefix(
                    self@,
                    k as int,
                    t,
                    b,
                ),
                forall|b: u32, t: u32| #[trigger] adj_contains(bot@, b, t) <==> has_edge_prefix(
                    self@,
                    k as int,
                    t,
                    b,
                ),
                lists_no_dup(top@),
                lists_no_dup(bot@),
            decreases m - k,
        {
            let ghost top0 = top@;
            let ghost bot0 = bot@;
            let e = self.edge(k);
            let t = e.0;
            let b = e.1;
            let ti = t as usize;
            let bi = b as usize;
            if !vec_contains(&top[ti], b) {
                proof {
                    lemma_push_contains(top@[ti as int]@, b);
                    lemma_push_no_dup(top@[ti as int]@, b);
                }
                top[ti].push(b);
            }
            if !vec_contains(&bot[bi], t) {
                proof {
                    lemma_push_contains(bot@[bi as int]@, t);
                    lemma_push_no_dup(bot@[bi as int]@, t);
                }
                bot[bi].push(t);
            }
            proof {
                assert forall|t2: u32, b2: u32| #[trigger] adj_contains(top@, t2, b2)
                    <==> has_edge_prefix(self@, k as int + 1, t2, b2) by {
                    if adj_contains(top@, t2, b2) {
                        if t2 == t && b2 == b {
                            assert(self@[k as int] == (t, b));
                            assert(has_edge_prefix(self@, k as int + 1, t2, b2));
                        } else {
                            assert(adj_contains(top0, t2, b2));
                            assert(has_edge_prefix(self@, k as int, t2, b2));
                            let j = choose|j: int| 0 <= j < k && self@[j] == (t2, b2);
                            assert(has_edge_prefix(self@, k as int + 1, t2, b2));
                        }
                    }
                    if has_edge_prefix(self@, k as int + 1, t2, b2) {
                        let j = choose|j: int| 0 <= j < k as int + 1 && self@[j] == (t2, b2);
                        if j < k as int {
                            assert(has_edge_prefix(self@, k as int, t2, b2));
                            assert(adj_contains(top0, t2, b2));
                            assert(adj_contains(top@, t2, b2));
                        } else {
                            assert(self@[k as int] == (t2, b2));
                            assert(t2 == t && b2 == b);
                            assert(adj_contains(top@, t, b));
                        }
                    }
                }
                assert forall|b2: u32, t2: u32| #[trigger] adj_contains(bot@, b2, t2)
                    <==> has_edge_prefix(self@, k as int + 1, t2, b2) by {
                    if adj_contains(bot@, b2, t2) {
                        if t2 == t && b2 == b {
                            assert(self@[k as int] == (t, b));
                            assert(has_edge_prefix(self@, k as int + 1, t2, b2));
                        } else {
                            assert(adj_contains(bot0, b2, t2));
                            assert(has_edge_prefix(self@, k as int, t2, b2));
                            let j = choose|j: int| 0 <= j < k && self@[j] == (t2, b2);
                            assert(has_edge_prefix(self@, k as int + 1, t2, b2));
                        }
                    }
                    if has_edge_prefix(self@, k as int + 1, t2, b2) {
                        let j = choose|j: int| 0 <= j < k as int + 1 && self@[j] == (t2, b2);
                        if j < k as int {
                            assert(has_edge_prefix(self@, k as int, t2, b2));
                            assert(adj_contains(bot0, b2, t2));
                            assert(adj_contains(bot@, b2, t2));
                        } else {
                            assert(self@[k as int] == (t2, b2));
                            assert(t2 == t && b2 == b);
                            assert(adj_contains(bot@, b, t));
                        }
                    }
                }
            }
            k += 1;
        }
        proof {
            assert forall|t2: u32, b2: u32| #[trigger] adj_contains(top@, t2, b2) <==> has_edge(
                self@,
                t2,
                b2,
            ) by {
                if adj_contains(top@, t2, b2) {
                    let j = choose|j: int| 0 <= j < m && self@[j] == (t2, b2);
                    assert(has_edge(self@, t2, b2));
                }
                if has_edge(self@, t2, b2) {
                    let j = choose|j: int| 0 <= j < self@.len() && self@[j] == (t2, b2);
                    assert(has_edge_prefix(self@, m as int, t2, b2));
                }
            }
            assert forall|b2: u32, t2: u32| #[trigger] adj_contains(bot@, b2, t2) <==> has_edge(
                self@,
                t2,
                b2,
            ) by {
                if adj_contains(bot@, b2, t2) {
                    let j = choose|j: int| 0 <= j < m && self@[j] == (t2, b2);
                    assert(has_edge(self@, t2, b2));
                }
                if has_edge(self@, t2, b2) {
                    let j = choose|j: int| 0 <= j < self@.len() && self@[j] == (t2, b2);
                    assert(has_edge_prefix(self@, m as int, t2, b2));
                }
            }
        }
        (top, bot)
    }
}

/// A depth-first-search position: the same numeric identifier names two
/// distinct graph positions, one on each side of the bipartite structure.
#[derive(Clone, Copy)]
enum GraphSide {
    Top(u32),
    Bottom(u32),
}

/// Number of entries still unset in a visited map.
spec fn count_false(s: Seq<bool>) -> nat
    decreases s.len(),
{
    if s.len() == 0 {
        0
    } else {
        (if s[0] {
            0nat
        } else {
            1nat
        }) + count_false(s.subrange(1, s.len() as int))
    }
}

proof fn lemma_count_false_update(s: Seq<bool>, i: int)
    requires
        0 <= i < s.len(),
        !s[i],
    ensures
        count_false(s.update(i, true)) + 1 == count_false(s),
    decreases s.len(),
{
    let s2 = s.update(i, true);
    if i == 0 {
        assert(s2.subrange(1, s2.len() as int) =~= s.subrange(1, s.len() as int));
        assert(s2[0]);
    } else {
        assert(s2[0] == s[0]);
        assert(s2.subrange(1, s2.len() as int) =~= s.subrange(1, s.len() as int).update(
            i - 1,
            true,
        ));
        assert(!s.subrange(1, s.len() as int)[i - 1]);
        lemma_count_false_update(s.subrange(1, s.len() as int), i - 1);
    }
}

/// Element-wise copy of a walk, so that each stack frame owns its path.
fn copy_path(v: &Vec<u32>) -> (r: Vec<u32>)
    ensures
        r@ == v@,
{
    let n = v.len();
    let mut r: Vec<u32> = Vec::new();
    let mut j: usize = 0;
    while j < n
        invariant
            j <= n,
            n == v@.len(),
            r@ == v@.subrange(0, j as int),
        decreases n - j,
    {
        let e = v[j];
        r.push(e);
        proof {
            assert(v@.subrange(0, j as int + 1) =~= v@.subrange(0, j as int).push(v@[j as int]));
        }
        j += 1;
    }
    proof {
        assert(v@.subrange(0, n as int) =~= v@);
    }
    r
}

/// Well-formedness of one search-stack frame: the walk starts at the
/// search origin, ends at the frame's node on the side its parity gives,
/// and every step so far is a legal alternating edge.
spec fn entry_wf(g: Seq<(u32, u32)>, target: u32, node: GraphSide, p: Seq<u32>) -> bool {
    &&& p.len() >= 1
    &&& p[0] == target
    &&& (match node {
        GraphSide::Top(v) => p.len() % 2 == 1 && p[p.len() - 1] == v && (v as int) < g.len(),
        GraphSide::Bottom(v) => p.len() % 2 == 0 && p[p.len() - 1] == v && (v as int) < g.len(),
    })
    &&& forall|i: int| 0 <= i < p.len() ==> ((#[trigger] p[i]) as int) < g.len()
    &&& forall|i: int| 1 <= i < p.len() ==> step_ok(g, p, i)
}

/// Position `i` of a walk is marked in the visited map of its side: even
/// positions sit on the top side, odd positions on the bottom side.
spec fn pos_visited(vt: Seq<bool>, vb: Seq<bool>, p: Seq<u32>, i: int) -> bool {
    if i % 2 == 0 {
        vt[p[i] as int]
    } else {
        vb[p[i] as int]
    }
}

/// Every position of the walk but the last is marked visited.
spec fn interior_visited(vt: Seq<bool>, vb: Seq<bool>, p: Seq<u32>) -> bool {
    forall|i: int| 0 <= i < p.len() - 1 ==> #[trigger] pos_visited(vt, vb, p, i)
}

/// Every position of the walk is marked visited.
spec fn all_visited(vt: Seq<bool>, vb: Seq<bool>, p: Seq<u32>) -> bool {
    forall|i: int| 0 <= i < p.len() ==> #[trigger] pos_visited(vt, vb, p, i)
}

/// No two positions of the walk but the last name the same side-tagged
/// node: even positions count as top-side visits, odd positions as
/// bottom-side visits, and no tagged node is visited twice before the
/// walk closes.
pub open spec fn interior_distinct(p: Seq<u32>) -> bool {
    forall|i: int, j: int| 0 <= i < j < p.len() - 1 ==> !(i % 2 == j % 2 && p[i] == p[j])
}

/// No two positions of the walk name the same side-tagged node.
spec fn full_distinct(p: Seq<u32>) -> bool {
    forall|i: int, j: int| 0 <= i < j < p.len() ==> !(i % 2 == j % 2 && p[i] == p[j])
}

/// Depth-bounded iterative depth-first search for closed walks returning
/// to `target`, reporting each closure to the handler.
fn dfs_from<F: Fn(&[u32]) -> bool>(
    g: &Graph,
    top: &Vec<Vec<u32>>,
    bot: &Vec<Vec<u32>>,
    target: u32,
    max_depth: usize,
    handler: &F,
) -> (r: Option<Vec<u32>>)
    requires
        g.wf(),
        top@.len() == g@.len(),
        bot@.len() == g@.len(),
        adj_sound(g@, top@, bot@),
        (target as int) < g@.len(),
        forall|s: &[u32]|
            valid_cycle(g@, s@) && interior_distinct(s@) ==> #[trigger] call_requires(
                *handler,
                (s,),
            ),
    ensures
        r matches Some(c) ==> valid_cycle(g@, c@) && interior_distinct(c@) && c@[1] != c@[c@.len()
            - 2] && c@.len() <= max_depth && (exists|s: &[u32]|
            s@ == c@ && call_ensures(*handler, (s,), true)),
{
    let m = g.len();
    let mut visited_top: Vec<bool> = vec![false; m];
    let mut visited_bot: Vec<bool> = vec![false; m];
    let mut stack: Vec<(GraphSide, Vec<u32>)> = Vec::new();
    let mut start_path: Vec<u32> = Vec::new();
    start_path.push(target);
    stack.push((GraphSide::Top(target), start_path));
    while stack.len() > 0
        invariant
            m == g@.len(),
            g.wf(),
            top@.len() == m,
            bot@.len() == m,
            adj_sound(g@, top@, bot@),
            (target as int) < m,
            visited_top@.len() == m,
            visited_bot@.len() == m,
            forall|s: &[u32]|
            valid_cycle(g@, s@) && interior_distinct(s@) ==> #[trigger] call_requires(
                *handler,
                (s,),
            ),
            forall|k: int| 0 <= k < stack@.len() ==> entry_wf(
                g@,
                target,
                (#[trigger] stack@[k]).0,
                stack@[k].1@,
            ),
            forall|k: int| 0 <= k < stack@.len() ==> interior_distinct(
                (#[trigger] stack@[k]).1@,
            ),
            forall|k: int| 0 <= k < stack@.len() ==> interior_visited(
                visited_top@,
                visited_bot@,
                (#[trigger] stack@[k]).1@,
            ),
            forall|k: int|
                0 <= k < stack@.len() ==> ((#[trigger] stack@[k]).1@.len() <= max_depth
                    || stack@[k].1@.len() == 1),
        decreases count_false(visited_top@) + count_false(visited_bot@), stack@.len(),
    {
        let ghost st_pre = stack@;
        let popped = stack.pop().unwrap();
        let node = popped.0;
        let path = popped.1;
        proof {
            assert(st_pre[st_pre.len() - 1].0 == node && st_pre[st_pre.len() - 1].1 == path);
            assert(entry_wf(g@, target, node, path@));
            assert(interior_distinct(path@));
            assert(interior_visited(visited_top@, visited_bot@, path@));
        }
        let ghost vt0 = visited_top@;
        let ghost vb0 = visited_bot@;
        let (vx, on_top): (u32, bool) = match node {
            GraphSide::Top(v) => (v, true),
            GraphSide::Bottom(v) => (v, false),
        };
        let vi = vx as usize;
        let fresh = if on_top {
            !visited_top[vi]
        } else {
            !visited_bot[vi]
        };
        if fresh {
            if on_top {
                proof {
                    lemma_count_false_update(visited_top@, vi as int);
                }
                visited_top[vi] = true;
            } else {
                proof {
                    lemma_count_false_update(visited_bot@, vi as int);
                }
                visited_bot[vi] = true;
            }
            proof {
                assert forall|k: int| 0 <= k < stack@.len() implies interior_visited(
                    visited_top@,
                    visited_bot@,
                    (#[trigger] stack@[k]).1@,
                ) by {
                    let pk = stack@[k].1@;
                    assert(interior_visited(vt0, vb0, pk));
                    assert forall|i: int| 0 <= i < pk.len() - 1 implies #[trigger] pos_visited(
                        visited_top@,
                        visited_bot@,
                        pk,
                        i,
                    ) by {
                        assert(pos_visited(vt0, vb0, pk, i));
                        assert(entry_wf(g@, target, stack@[k].0, pk));
                        assert((pk[i] as int) < m);
                    }
                }
                let p = path@;
                let l = p.len() as int;
                assert forall|i: int, j: int| 0 <= i < j < l implies !(i % 2 == j % 2 && p[i]
                    == p[j]) by {
                    if j < l - 1 {
                        assert(interior_distinct(p));
                    } else if i % 2 == j % 2 {
                        assert(p[j] == vx);
                        assert(pos_visited(vt0, vb0, p, i));
                        if on_top {
                            assert(j % 2 == 0);
                            assert(!vt0[vx as int]);
                        } else {
                            assert(j % 2 == 1);
                            assert(!vb0[vx as int]);
                        }
                    }
                }
                assert(full_distinct(p));
                assert forall|i: int| 0 <= i < l implies #[trigger] pos_visited(
                    visited_top@,
                    visited_bot@,
                    p,
                    i,
                ) by {
                    if i < l - 1 {
                        assert(pos_visited(vt0, vb0, p, i));
                        assert((p[i] as int) < m);
                    } else {
                        assert(p[i] == vx);
                    }
                }
                assert(all_visited(visited_top@, visited_bot@, p));
            }
        }
        if fresh && path.len() < max_depth {
            if on_top {
                let ln = top[vi].len();
                let mut j: usize = 0;
                while j < ln
                    invariant
                        m == g@.len(),
                        g.wf(),
                        top@.len() == m,
                        bot@.len() == m,
                        adj_sound(g@, top@, bot@),
                        (target as int) < m,
                        j <= ln,
                        vi < m,
                        vi == vx as usize,
                        node == GraphSide::Top(vx),
                        ln == top@[vi as int]@.len(),
                        entry_wf(g@, target, node, path@),
                        path@.len() < max_depth,
                        full_distinct(path@),
                        all_visited(visited_top@, visited_bot@, path@),
                        forall|k: int| 0 <= k < stack@.len() ==> entry_wf(
                            g@,
                            target,
                            (#[trigger] stack@[k]).0,
                            stack@[k].1@,
                        ),
                        forall|k: int| 0 <= k < stack@.len() ==> interior_distinct(
                            (#[trigger] stack@[k]).1@,
                        ),
                        forall|k: int| 0 <= k < stack@.len() ==> interior_visited(
                            visited_top@,
                            visited_bot@,
                            (#[trigger] stack@[k]).1@,
                        ),
                        forall|k: int|
                            0 <= k < stack@.len() ==> ((#[trigger] stack@[k]).1@.len() <= max_depth
                                || stack@[k].1@.len() == 1),
                    decreases ln - j,
                {
                    let nb = top[vi][j];
                    proof {
                        assert(top@[vi as int]@[j as int] == nb);
                        assert(top@[vi as int]@.contains(nb));
                        assert(adj_contains(top@, vx, nb));
                        assert(has_edge(g@, vx, nb));
                        let l = choose|l: int| 0 <= l < g@.len() && g@[l] == (vx, nb);
                        assert((nb as int) < g@.len());
                    }
                    let mut p2 = copy_path(&path);
                    p2.push(nb);
                    proof {
                        let p = path@;
                        let q = p2@;
                        assert(q == p.push(nb));
                        assert(q[0] == p[0]);
                        assert(q[q.len() - 1] == nb);
                        assert forall|ii: int| 1 <= ii < q.len() implies step_ok(g@, q, ii) by {
                            if ii < p.len() {
                                assert(step_ok(g@, p, ii));
                                assert(q[ii] == p[ii] && q[ii - 1] == p[ii - 1]);
                            } else {
                                assert(ii == p.len());
                                assert(ii % 2 == 1);
                                assert(q[ii - 1] == p[p.len() - 1]);
                                assert(q[ii] == nb);
                                assert(has_edge(g@, vx, nb));
                            }
                        }
                        assert forall|ii: int| 0 <= ii < q.len() implies ((#[trigger] q[ii]) as int)
                            < g@.len() by {
                            if ii < p.len() {
                                assert(q[ii] == p[ii]);
                            } else {
                                assert(q[ii] == nb);
                            }
                        }
                        assert(entry_wf(g@, target, GraphSide::Bottom(nb), q));
                        assert forall|i1: int, i2: int| 0 <= i1 < i2 < q.len() - 1 implies !(i1 % 2
                            == i2 % 2 && q[i1] == q[i2]) by {
                            assert(q[i1] == p[i1] && q[i2] == p[i2]);
                        }
                        assert(interior_distinct(q));
                        assert forall|ii: int| 0 <= ii < q.len() - 1 implies #[trigger] pos_visited(
                            visited_top@,
                            visited_bot@,
                            q,
                            ii,
                        ) by {
                            assert(q[ii] == p[ii]);
                            assert(pos_visited(visited_top@, visited_bot@, p, ii));
                        }
                        assert(interior_visited(visited_top@, visited_bot@, q));
                    }
                    let ghost st0 = stack@;
                    stack.push((GraphSide::Bottom(nb), p2));
                    proof {
                        assert forall|k: int| 0 <= k < stack@.len() implies entry_wf(
                            g@,
                            target,
                            (#[trigger] stack@[k]).0,
                            stack@[k].1@,
                        ) && interior_distinct(stack@[k].1@) && interior_visited(
                            visited_top@,
                            visited_bot@,
                            stack@[k].1@,
                        ) && (stack@[k].1@.len() <= max_depth || stack@[k].1@.len() == 1) by {
                            if k < st0.len() {
                                assert(stack@[k] == st0[k]);
                            }
                        }
                    }
                    j += 1;
                }
            } else {
                let ln = bot[vi].len();
                let mut j: usize = 0;
                while j < ln
                    invariant
                        m == g@.len(),
                        g.wf(),
                        top@.len() == m,
                        bot@.len() == m,
                        adj_sound(g@, top@, bot@),
                        (target as int) < m,
                        j <= ln,
                        vi < m,
                        vi == vx as usize,
                        node == GraphSide::Bottom(vx),
                        ln == bot@[vi as int]@.len(),
                        entry_wf(g@, target, node, path@),
                        path@.len() < max_depth,
                        full_distinct(path@),
                        all_visited(visited_top@, visited_bot@, path@),
                        forall|k: int| 0 <= k < stack@.len() ==> entry_wf(
                            g@,
                            target,
                            (#[trigger] stack@[k]).0,
                            stack@[k].1@,
                        ),
                        forall|k: int| 0 <= k < stack@.len() ==> interior_distinct(
                            (#[trigger] stack@[k]).1@,
                        ),
                        forall|k: int| 0 <= k < stack@.len() ==> interior_visited(
                            visited_top@,
                            visited_bot@,
                            (#[trigger] stack@[k]).1@,
                        ),
                        forall|k: int|
                            0 <= k < stack@.len() ==> ((#[trigger] stack@[k]).1@.len() <= max_depth
                                || stack@[k].1@.len() == 1),
                    decreases ln - j,
                {
                    let nb = bot[vi][j];
                    proof {
                        assert(bot@[vi as int]@[j as int] == nb);
                        assert(bot@[vi as int]@.contains(nb));
                        assert(adj_contains(bot@, vx, nb));
                        assert(has_edge(g@, nb, vx));
                        let l = choose|l: int| 0 <= l < g@.len() && g@[l] == (nb, vx);
                        assert((nb as int) < g@.len());
                    }
                    let mut p2 = copy_path(&path);
                    p2.push(nb);
                    proof {
                        let p = path@;
                        let q = p2@;
                        assert(q == p.push(nb));
                        assert(q[0] == p[0]);
                        assert(q[q.len() - 1] == nb);
                        assert forall|ii: int| 1 <= ii < q.len() implies step_ok(g@, q, ii) by {
                            if ii < p.len() {
                                assert(step_ok(g@, p, ii));
                                assert(q[ii] == p[ii] && q[ii - 1] == p[ii - 1]);
                            } else {
                                assert(ii == p.len());
                                assert(ii % 2 == 0);
                                assert(q[ii - 1] == p[p.len() - 1]);
                                assert(q[ii] == nb);
                                assert(has_edge(g@, nb, vx));
                            }
                        }
                        assert forall|ii: int| 0 <= ii < q.len() implies ((#[trigger] q[ii]) as int)
                            < g@.len() by {
                            if ii < p.len() {
                                assert(q[ii] == p[ii]);
                            } else {
                                assert(q[ii] == nb);
                            }
                        }
                        assert(entry_wf(g@, target, GraphSide::Top(nb), q));
                        assert forall|i1: int, i2: int| 0 <= i1 < i2 < q.len() - 1 implies !(i1 % 2
                            == i2 % 2 && q[i1] == q[i2]) by {
                            assert(q[i1] == p[i1] && q[i2] == p[i2]);
                        }
                        assert(interior_distinct(q));
                        assert forall|ii: int| 0 <= ii < q.len() - 1 implies #[trigger] pos_visited(
                            visited_top@,
                            visited_bot@,
                            q,
                            ii,
                        ) by {
                            assert(q[ii] == p[ii]);
                            assert(pos_visited(visited_top@, visited_bot@, p, ii));
                        }
                        assert(interior_visited(visited_top@, visited_bot@, q));
                    }
                    let ghost st0 = stack@;
                    stack.push((GraphSide::Top(nb), p2));
                    proof {
                        assert forall|k: int| 0 <= k < stack@.len() implies entry_wf(
                            g@,
                            target,
                            (#[trigger] stack@[k]).0,
                            stack@[k].1@,
                        ) && interior_distinct(stack@[k].1@) && interior_visited(
                            visited_top@,
                            visited_bot@,
                            stack@[k].1@,
                        ) && (stack@[k].1@.len() <= max_depth || stack@[k].1@.len() == 1) by {
                            if k < st0.len() {
                                assert(stack@[k] == st0[k]);
                            }
                        }
                    }
                    j += 1;
                }
            }
        } else {
            let is_target = if on_top {
                vx == target
            } else {
                false
            };
            if is_target && path.len() > 3 {
                proof {
                    assert(path@.len() % 2 == 1);
                    assert(path@.len() >= 5);
                    assert(path@[0] == target);
                    assert(path@[path@.len() - 1] == target);
                    assert(valid_cycle(g@, path@));
                    let p = path@;
                    let l = p.len() as int;
                    assert(1int % 2 == (l - 2) % 2);
                    assert(!(1int % 2 == (l - 2) % 2 && p[1] == p[l - 2]));
                    assert(p[1] != p[l - 2]);
                    assert(p.len() <= max_depth || p.len() == 1);
                    assert(p.len() <= max_depth);
                }
                let sl = path.as_slice();
                proof {
                    assert(sl@ == path@);
                    assert(valid_cycle(g@, sl@));
                    assert(interior_distinct(sl@));
                }
                if (*handler)(sl) {
                    proof {
                        assert(sl@ == path@);
                        assert(call_ensures(*handler, (sl,), true));
                    }
                    return Some(path);
                }
            }
        }
    }
    None
}

impl Graph {
    /// Search the graph for closed odd walks of sequence length at most
    /// `max_depth`, handing each discovered cycle to `handler`; the first
    /// cycle the handler accepts is returned. Every slice handed to the
    /// handler, and any returned cycle, is a closed alternating walk of
    /// odd length at least 5 and at most `max_depth` that repeats no
    /// side-tagged vertex before the closure, and it passes the verifier.
    pub fn solve<F: Fn(&[u32]) -> bool>(&self, max_depth: usize, handler: F) -> (r: Option<
        Vec<u32>,
    >)
        requires
            self.wf(),
            forall|s: &[u32]|
                valid_cycle(self@, s@) && interior_distinct(s@) ==> #[trigger] call_requires(
                    handler,
                    (s,),
                ),
        ensures
            max_depth < 5 ==> r is None,
            r matches Some(c) ==> valid_cycle(self@, c@) && verify_spec(self@, c@)
                && interior_distinct(c@) && c@[1] != c@[c@.len() - 2] && c@.len() <= max_depth && (
            exists|s: &[u32]| s@ == c@ && call_ensures(handler, (s,), true)),
    {
        let (top, bot) = self.pruned_adjacency();
        let m = self.len();
        let mut t: usize = 0;
        while t < m
            invariant
                self.wf(),
                m == self@.len(),
                top@.len() == m,
                bot@.len() == m,
                adj_sound(self@, top@, bot@),
                t <= m,
                forall|s: &[u32]|
                valid_cycle(self@, s@) && interior_distinct(s@) ==> #[trigger] call_requires(
                    handler,
                    (s,),
                ),
            decreases m - t,
        {
            if top[t].len() > 0 {
                let res = dfs_from(self, &top, &bot, t as u32, max_depth, &handler);
                match res {
                    Some(c) => {
                        return Some(c);
                    },
                    None => {},
                }
            }
            t += 1;
        }
        None
    }

    /// Search for any cycle of sequence length exactly `diff`. A `diff`
    /// that is even or below 5 yields nothing at once, without consulting
    /// the graph.
    pub fn solve_for(&self, diff: usize) -> (r: Option<Vec<u32>>)
        requires
            self.wf(),
        ensures
            diff % 2 == 0 || diff < 5 ==> r is None,
            r matches Some(c) ==> c@.len() == diff && valid_cycle(self@, c@) && verify_spec(
                self@,
                c@,
            ) && interior_distinct(c@) && c@[1] != c@[c@.len() - 2],
    {
        if diff % 2 == 0 || diff < 5 {
            return None;
        }
        let check = |cycle: &[u32]| -> (b: bool)
            ensures
                b == (cycle@.len() == diff),
            { cycle.len() == diff };
        let res = self.solve(diff, check);
        proof {
            match &res {
                Some(c) => {
                    let s = choose|s: &[u32]| s@ == c@ && call_ensures(check, (s,), true);
                    assert(s@.len() == diff);
                },
                None => {},
            }
        }
        res
    }
}

} // verus!
