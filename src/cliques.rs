//! Enumeration of five mutually compatible keys.
use vstd::prelude::*;
use crate::graph::{compatible, lemma_push_contains, CompatGraph};

verus! {

/// Size of the word sets searched for.
pub const CLIQUE_SIZE: usize = 5;

/// `t` is a sequence of five nodes, every two of them compatible.
pub open spec fn is_clique(keys: Seq<u32>, t: Seq<usize>) -> bool {
    &&& t.len() == CLIQUE_SIZE
    &&& forall|p: int, q: int|
        0 <= p < q < t.len() ==> compatible(keys, #[trigger] t[p] as int, #[trigger] t[q] as int)
}

/// Every two nodes of `t` are compatible.
pub open spec fn pairwise(keys: Seq<u32>, t: Seq<usize>) -> bool {
    forall|p: int, q: int|
        0 <= p < q < t.len() ==> compatible(keys, #[trigger] t[p] as int, #[trigger] t[q] as int)
}

/// Node `x` is compatible with every node of `t`.
pub open spec fn fits(keys: Seq<u32>, t: Seq<usize>, x: usize) -> bool {
    forall|p: int| 0 <= p < t.len() ==> compatible(keys, #[trigger] t[p] as int, x as int)
}

fn contains_node(v: &Vec<usize>, x: usize) -> (r: bool)
    ensures
        r == v@.contains(x),
{
    let mut i: usize = 0;
    while i < v.len()
        invariant
            i <= v.len(),
            forall|j: int| 0 <= j < i ==> v[j] != x,
        decreases v.len() - i,
    {
        if v[i] == x {
            return true;
        }
        i = i + 1;
    }
    false
}

/// The nodes of `xs` that also stand in `ys`, in the order of `xs`.
pub fn intersect(xs: &Vec<usize>, ys: &Vec<usize>) -> (r: Vec<usize>)
    ensures
        forall|x: usize| r@.contains(x) <==> (xs@.contains(x) && ys@.contains(x)),
{
    let mut r: Vec<usize> = Vec::new();
    let mut i: usize = 0;
    while i < xs.len()
        invariant
            i <= xs.len(),
            forall|x: usize| r@.contains(x) <==> (xs@.take(i as int).contains(x) && ys@.contains(x)),
        decreases xs.len() - i,
    {
        let x = xs[i];
        let ghost before = r@;
        if contains_node(ys, x) {
            r.push(x);
        }
        proof {
            assert(xs@.take(i + 1) =~= xs@.take(i as int).push(x));
            assert forall|y: usize| r@.contains(y) <==> (xs@.take(i + 1).contains(y) && ys@.contains(y)) by {
                lemma_push_contains(xs@.take(i as int), x, y);
                if ys@.contains(x) {
                    lemma_push_contains(before, x, y);
                }
            }
        }
        i = i + 1;
    }
    proof {
        assert(xs@.take(xs.len() as int) =~= xs@);
    }
    r
}

fn copy_nodes(v: &Vec<usize>) -> (r: Vec<usize>)
    ensures
        r@ == v@,
{
    let mut r: Vec<usize> = Vec::new();
    let mut i: usize = 0;
    while i < v.len()
        invariant
            i <= v.len(),
            r@ == v@.take(i as int),
        decreases v.len() - i,
    {
        r.push(v[i]);
        proof {
            assert(v@.take(i + 1) =~= v@.take(i as int).push(v[i as int]));
        }
        i = i + 1;
    }
    proof {
        assert(v@.take(v.len() as int) =~= v@);
    }
    r
}

/// The node sequences of a list of cliques.
pub open spec fn node_seqs(v: Seq<Vec<usize>>) -> Seq<Seq<usize>> {
    v.map_values(|c: Vec<usize>| c@)
}

/// A sequence of at least `p.len() + 1` nodes starts with `p.push(x)` exactly
/// when it starts with `p` and holds `x` next.
proof fn lemma_take_push(t: Seq<usize>, p: Seq<usize>, x: usize)
    requires
        p.len() < t.len(),
    ensures
        (t.take(p.len() as int + 1) == p.push(x)) <==> (t.take(p.len() as int) == p && t[p.len() as int]
            == x),
{
    let l = p.len() as int;
    if t.take(l + 1) == p.push(x) {
        assert(t.take(l) =~= t.take(l + 1).take(l));
        assert(p.push(x).take(l) =~= p);
        assert(t[l] == t.take(l + 1)[l]);
    }
    if t.take(l) == p && t[l] == x {
        assert(t.take(l + 1) =~= p.push(x));
    }
}

/// Extends the partial clique `prefix` by every candidate in turn, where
/// `cand` holds exactly the nodes compatible with all of `prefix`, and adds
/// each completed clique to `out`.
fn extend(g: &CompatGraph, prefix: &mut Vec<usize>, cand: &Vec<usize>, out: &mut Vec<Vec<usize>>)
    requires
        g.wf(),
        1 <= old(prefix).len() < CLIQUE_SIZE,
        pairwise(g.keys@, old(prefix)@),
        forall|x: usize| cand@.contains(x) <==> fits(g.keys@, old(prefix)@, x),
    ensures
        final(prefix)@ == old(prefix)@,
        forall|t: Seq<usize>|
            #![trigger node_seqs(final(out)@).contains(t)]
            node_seqs(final(out)@).contains(t) <==> (node_seqs(old(out)@).contains(t) || (is_clique(
                g.keys@,
                t,
            ) && t.take(old(prefix)@.len() as int) == old(prefix)@)),
    decreases CLIQUE_SIZE - old(prefix)@.len(),
{
    let ghost keys = g.keys@;
    let ghost base = prefix@;
    let ghost out0 = node_seqs(out@);
    let len = prefix.len();
    let mut idx: usize = 0;
    while idx < cand.len()
        invariant
            g.wf(),
            keys == g.keys@,
            prefix@ == base,
            old(prefix)@ == base,
            len == base.len(),
            1 <= len < CLIQUE_SIZE,
            pairwise(keys, base),
            forall|x: usize| cand@.contains(x) <==> fits(keys, base, x),
            idx <= cand.len(),
            forall|t: Seq<usize>|
                node_seqs(out@).contains(t) <==> (out0.contains(t) || (is_clique(keys, t) && t.take(
                    len as int,
                ) == base && cand@.take(idx as int).contains(t[len as int]))),
        decreases cand.len() - idx,
    {
        let x = cand[idx];
        let ghost before = node_seqs(out@);
        let ghost s = base.push(x);
        proof {
            assert(cand@.take(idx + 1) =~= cand@.take(idx as int).push(x));
            assert(cand@.contains(x));
            assert(pairwise(keys, s)) by {
                assert forall|p: int, q: int| 0 <= p < q < s.len() implies compatible(
                    keys,
                    #[trigger] s[p] as int,
                    #[trigger] s[q] as int,
                ) by {
                    if q == len {
                        assert(s[p] == base[p]);
                    } else {
                        assert(s[p] == base[p] && s[q] == base[q]);
                    }
                }
            }
            assert(s.take(len as int) =~= base);
        }
        if len + 1 == CLIQUE_SIZE {
            let mut t = copy_nodes(prefix);
            t.push(x);
            out.push(t);
            proof {
                assert(node_seqs(out@) =~= before.push(s));
                assert(is_clique(keys, s));
                assert forall|t: Seq<usize>| node_seqs(out@).contains(t) <==> (out0.contains(t) || (
                is_clique(keys, t) && t.take(len as int) == base && cand@.take(idx + 1).contains(
                    t[len as int],
                ))) by {
                    lemma_push_contains(before, s, t);
                    if t.len() > len {
                        lemma_push_contains(cand@.take(idx as int), x, t[len as int]);
                    }
                    if is_clique(keys, t) && t.take(len as int) == base && t[len as int] == x {
                        lemma_take_push(t, base, x);
                        assert(t =~= t.take(len + 1));
                    }
                    if t == s {
                        assert(s[len as int] == x);
                    }
                }
            }
        } else {
            proof {
                assert(compatible(keys, base[0] as int, x as int));
            }
            let next = intersect(cand, &g.adj[x]);
            proof {
                assert forall|y: usize| next@.contains(y) <==> fits(keys, s, y) by {
                    assert(g.adj[x as int]@.contains(y) <==> compatible(keys, x as int, y as int));
                    if fits(keys, base, y) && compatible(keys, x as int, y as int) {
                        assert forall|p: int| 0 <= p < s.len() implies compatible(
                            keys,
                            #[trigger] s[p] as int,
                            y as int,
                        ) by {
                            if p < len {
                                assert(s[p] == base[p]);
                            }
                        }
                    }
                    if fits(keys, s, y) {
                        assert forall|p: int| 0 <= p < base.len() implies compatible(
                            keys,
                            #[trigger] base[p] as int,
                            y as int,
                        ) by {
                            assert(s[p] == base[p]);
                        }
                        assert(s[len as int] == x);
                    }
                }
            }
            prefix.push(x);
            assert(prefix@.len() == len + 1);
            extend(g, prefix, &next, out);
            prefix.pop();
            proof {
                assert(prefix@ =~= base);
                assert forall|t: Seq<usize>| node_seqs(out@).contains(t) <==> (out0.contains(t) || (
                is_clique(keys, t) && t.take(len as int) == base && cand@.take(idx + 1).contains(
                    t[len as int],
                ))) by {
                    if t.len() == CLIQUE_SIZE {
                        lemma_push_contains(cand@.take(idx as int), x, t[len as int]);
                        lemma_take_push(t, base, x);
                    }
                }
            }
        }
        idx = idx + 1;
    }
    proof {
        assert(cand@.take(cand.len() as int) =~= cand@);
        assert forall|t: Seq<usize>| node_seqs(out@).contains(t) <==> (out0.contains(t) || (
        is_clique(keys, t) && t.take(len as int) == base)) by {
            if is_clique(keys, t) && t.take(len as int) == base {
                assert forall|p: int| 0 <= p < base.len() implies compatible(
                    keys,
                    #[trigger] base[p] as int,
                    t[len as int] as int,
                ) by {
                    assert(base[p] == t.take(len as int)[p]);
                    assert(t[p] == base[p]);
                }
                assert(fits(keys, base, t[len as int]));
            }
        }
    }
}

/// Every set of five mutually compatible nodes of `g`, once for each order
/// in which its members can be listed.
pub fn find_cliques(g: &CompatGraph) -> (r: Vec<Vec<usize>>)
    requires
        g.wf(),
    ensures
        forall|t: Seq<usize>| node_seqs(r@).contains(t) <==> is_clique(g.keys@, t),
{
    let ghost keys = g.keys@;
    let mut out: Vec<Vec<usize>> = Vec::new();
    let n = g.keys.len();
    let mut i: usize = 0;
    while i < n
        invariant
            g.wf(),
            keys == g.keys@,
            n == keys.len(),
            i <= n,
            forall|t: Seq<usize>|
                #![trigger node_seqs(out@).contains(t)]
                node_seqs(out@).contains(t) <==> (is_clique(keys, t) && t[0] < i),
        decreases n - i,
    {
        let mut prefix: Vec<usize> = Vec::new();
        prefix.push(i);
        let ghost base = prefix@;
        let ghost before = node_seqs(out@);
        proof {
            assert(base =~= seq![i]);
            assert forall|x: usize| g.adj[i as int]@.contains(x) <==> fits(keys, base, x) by {
                if fits(keys, base, x) {
                    assert(base[0] == i);
                }
            }
        }
        extend(g, &mut prefix, &g.adj[i], &mut out);
        proof {
            assert forall|t: Seq<usize>|
                #![trigger node_seqs(out@).contains(t)]
                node_seqs(out@).contains(t) <==> (is_clique(keys, t) && t[0] < i + 1) by {
                assert(node_seqs(out@).contains(t) <==> (before.contains(t) || (is_clique(keys, t)
                    && t.take(1) == base)));
                if is_clique(keys, t) {
                    assert(t.take(1) == base <==> t[0] == i) by {
                        if t[0] == i {
                            assert(t.take(1) =~= base);
                        }
                        if t.take(1) == base {
                            assert(t.take(1)[0] == t[0]);
                        }
                    }
                }
            }
        }
        i = i + 1;
    }
    proof {
        assert forall|t: Seq<usize>| node_seqs(out@).contains(t) <==> is_clique(keys, t) by {
            if is_clique(keys, t) {
                assert(compatible(keys, t[0] as int, t[1] as int));
            }
        }
    }
    out
}

} // verus!
