//! The compatibility graph over letter-set keys.
use vstd::prelude::*;
use crate::letters::{disjoint, lemma_disjoint_symmetric};

verus! {

/// An undirected graph whose nodes are the positions of `keys`; `adj[a]`
/// lists the neighbours of node `a`.
pub struct CompatGraph {
    pub keys: Vec<u32>,
    pub adj: Vec<Vec<usize>>,
}

/// Nodes `a` and `b` of `keys` are distinct and their letter sets are disjoint.
pub open spec fn compatible(keys: Seq<u32>, a: int, b: int) -> bool {
    0 <= a < keys.len() && 0 <= b < keys.len() && a != b && disjoint(keys[a], keys[b])
}

impl CompatGraph {
    /// One neighbour list per key, and `b` is a neighbour of `a` exactly when
    /// the two are compatible.
    pub open spec fn wf(&self) -> bool {
        &&& self.adj.len() == self.keys.len()
        &&& forall|a: int, b: usize|
            0 <= a < self.keys.len() ==> (#[trigger] self.adj[a]@.contains(b) <==> compatible(
                self.keys@,
                a,
                b as int,
            ))
    }
}

/// The pair `{a, b}` comes before step `(i, j)` of the pair scan.
spec fn scanned(a: int, b: int, i: int, j: int) -> bool {
    let lo = if a < b { a } else { b };
    let hi = if a < b { b } else { a };
    lo < i || (lo == i && hi < j)
}

/// Appending `x` adds exactly `x` to what a sequence contains.
pub(crate) proof fn lemma_push_contains<A>(s: Seq<A>, x: A, b: A)
    ensures
        s.push(x).contains(b) <==> (s.contains(b) || b == x),
{
    let t = s.push(x);
    if s.contains(b) {
        let k = choose|k: int| 0 <= k < s.len() && s[k] == b;
        assert(t[k] == b);
    }
    if b == x {
        assert(t[s.len() as int] == b);
    }
    if t.contains(b) {
        let k = choose|k: int| 0 <= k < t.len() && t[k] == b;
        if k < s.len() {
            assert(s[k] == b);
        }
    }
}

fn push_neighbour(adj: &mut Vec<Vec<usize>>, a: usize, b: usize)
    requires
        a < old(adj).len(),
    ensures
        final(adj).len() == old(adj).len(),
        final(adj)[a as int]@ == old(adj)[a as int]@.push(b),
        forall|t: int| 0 <= t < old(adj).len() && t != a ==> final(adj)[t] == old(adj)[t],
{
    let mut row: Vec<usize> = Vec::new();
    adj.set_and_swap(a, &mut row);
    row.push(b);
    adj.set(a, row);
}

/// Builds the graph that links every two keys whose letter sets are
/// disjoint, storing each edge in both directions.
pub fn build_graph(keys: Vec<u32>) -> (g: CompatGraph)
    ensures
        g.keys@ == keys@,
        g.wf(),
{
    let n = keys.len();
    let mut adj: Vec<Vec<usize>> = Vec::new();
    while adj.len() < n
        invariant
            adj.len() <= n,
            forall|a: int| 0 <= a < adj.len() ==> (#[trigger] adj[a])@ == Seq::<usize>::empty(),
        decreases n - adj.len(),
    {
        adj.push(Vec::new());
    }
    let mut i: usize = 0;
    while i < n
        invariant
            n == keys.len(),
            adj.len() == n,
            i <= n,
            forall|a: int, b: usize|
                0 <= a < n ==> (#[trigger] adj[a]@.contains(b) <==> (compatible(
                    keys@,
                    a,
                    b as int,
                ) && scanned(a, b as int, i as int, 0))),
        decreases n - i,
    {
        let mut j: usize = i + 1;
        while j < n
            invariant
                n == keys.len(),
                adj.len() == n,
                i < n,
                i + 1 <= j <= n,
                forall|a: int, b: usize|
                    0 <= a < n ==> (#[trigger] adj[a]@.contains(b) <==> (compatible(
                        keys@,
                        a,
                        b as int,
                    ) && scanned(a, b as int, i as int, j as int))),
            decreases n - j,
        {
            let ghost before = adj@;
            let linked = keys[i] & keys[j] == 0;
            if linked {
                push_neighbour(&mut adj, i, j);
                push_neighbour(&mut adj, j, i);
            }
            proof {
                assert forall|a: int, b: usize| 0 <= a < n implies (#[trigger] adj[a]@.contains(b)
                    <==> (compatible(keys@, a, b as int) && scanned(
                    a,
                    b as int,
                    i as int,
                    j + 1,
                ))) by {
                    assert(before[a]@.contains(b) <==> (compatible(keys@, a, b as int) && scanned(
                        a,
                        b as int,
                        i as int,
                        j as int,
                    )));
                    lemma_disjoint_symmetric(keys@[i as int], keys@[j as int]);
                    if linked && a == i {
                        assert(adj[a]@ == before[a]@.push(j));
                        lemma_push_contains(before[a]@, j, b);
                    } else if linked && a == j {
                        assert(adj[a]@ == before[a]@.push(i));
                        lemma_push_contains(before[a]@, i, b);
                    } else {
                        assert(adj[a] == before[a]);
                    }
                }
            }
            j = j + 1;
        }
        i = i + 1;
    }
    CompatGraph { keys, adj }
}

} // verus!
