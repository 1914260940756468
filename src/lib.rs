//! Finds every set of five five-letter words whose twenty-five letters are
//! pairwise distinct.
//!
//! The pipeline runs in stages: words are mapped to letter-set keys and grouped
//! by anagram class (`groups`), keys are linked when their letter sets are
//! disjoint (`graph`), five mutually linked keys are enumerated (`cliques`), and
//! each such set is rendered as one line of text (`report`).
use vstd::prelude::*;

pub mod letters;
pub mod groups;
pub mod graph;
pub mod cliques;
pub mod lex;
pub mod report;

use crate::cliques::{find_cliques, is_clique, node_seqs, CLIQUE_SIZE};
use crate::graph::{build_graph, compatible};
use crate::groups::{group_words, key_universe, texts, WordGroups};
use crate::letters::{disjoint, valid_word};
use crate::lex::{insert_unique, lex_lt, strictly_sorted};
use crate::report::{clique_line, keys_at, line_text};

verus! {

/// Five keys of candidate words of `ws`, pairwise distinct and with
/// pairwise disjoint letter sets.
pub open spec fn key_clique(ws: Seq<Seq<char>>, ks: Seq<u32>) -> bool {
    &&& ks.len() == CLIQUE_SIZE
    &&& forall|p: int| 0 <= p < ks.len() ==> key_universe(ws).contains(#[trigger] ks[p])
    &&& forall|p: int, q: int|
        0 <= p < q < ks.len() ==> #[trigger] ks[p] != #[trigger] ks[q] && disjoint(ks[p], ks[q])
}

/// `l` is the line of some clique of keys of `ws`.
pub open spec fn is_line(ws: Seq<Seq<char>>, l: Seq<char>) -> bool {
    exists|ks: Seq<u32>| key_clique(ws, ks) && l == line_text(ws, ks)
}

/// `out` lists the line of every clique of keys of `ws`, each once, in
/// strictly increasing lexicographic order.
pub open spec fn is_report(ws: Seq<Seq<char>>, out: Seq<Seq<char>>) -> bool {
    &&& strictly_sorted(out)
    &&& forall|l: Seq<char>| out.contains(l) <==> is_line(ws, l)
}

/// Every line of a report is the line of five keys whose letter sets are
/// pairwise disjoint: all ten pairs share no letter.
pub proof fn lemma_report_lines_disjoint(ws: Seq<Seq<char>>, out: Seq<Seq<char>>, l: Seq<char>)
    requires
        is_report(ws, out),
        out.contains(l),
    ensures
        exists|ks: Seq<u32>|
            {
                &&& ks.len() == CLIQUE_SIZE
                &&& l == line_text(ws, ks)
                &&& forall|p: int, q: int|
                    0 <= p < q < ks.len() ==> #[trigger] ks[p] & #[trigger] ks[q] == 0
            },
{
    let ks = choose|ks: Seq<u32>| key_clique(ws, ks) && l == line_text(ws, ks);
    assert forall|p: int, q: int| 0 <= p < q < ks.len() implies #[trigger] ks[p] & #[trigger] ks[q]
        == 0 by {
        assert(disjoint(ks[p], ks[q]));
    }
}

/// A report holds no line twice.
pub proof fn lemma_report_no_duplicates(ws: Seq<Seq<char>>, out: Seq<Seq<char>>)
    requires
        is_report(ws, out),
    ensures
        out.no_duplicates(),
{
    assert forall|i: int, j: int| 0 <= i < out.len() && 0 <= j < out.len() && i != j implies out[i]
        != out[j] by {
        if i < j {
            assert(lex_lt(out[i], out[j]));
        } else {
            assert(lex_lt(out[j], out[i]));
        }
    }
}

proof fn lemma_strictly_sorted_unique(a: Seq<Seq<char>>, b: Seq<Seq<char>>)
    requires
        strictly_sorted(a),
        strictly_sorted(b),
        forall|x: Seq<char>| a.contains(x) <==> b.contains(x),
    ensures
        a == b,
    decreases a.len(),
{
    crate::lex::lemma_text_order_total();
    if a.len() == 0 {
        if b.len() > 0 {
            assert(b.contains(b[0]));
        }
        assert(a =~= b);
    } else {
        assert(a.contains(a[0]));
        assert(b.len() > 0);
        assert(b.contains(b[0]));
        let k = choose|k: int| 0 <= k < b.len() && b[k] == a[0];
        let m = choose|m: int| 0 <= m < a.len() && a[m] == b[0];
        if k > 0 {
            assert(lex_lt(b[0], b[k]));
            if m > 0 {
                assert(lex_lt(a[0], a[m]));
                assert(crate::lex::text_order()(b[0], a[0]) && crate::lex::text_order()(a[0], b[0]));
            }
        }
        assert(b[0] == a[0]);
        let a1 = a.drop_first();
        let b1 = b.drop_first();
        assert forall|x: Seq<char>| a1.contains(x) <==> b1.contains(x) by {
            if a1.contains(x) {
                let i = choose|i: int| 0 <= i < a1.len() && a1[i] == x;
                assert(a[i + 1] == x);
                assert(lex_lt(a[0], a[i + 1]));
                assert(b.contains(x));
                let j = choose|j: int| 0 <= j < b.len() && b[j] == x;
                assert(j != 0);
                assert(b1[j - 1] == x);
            }
            if b1.contains(x) {
                let i = choose|i: int| 0 <= i < b1.len() && b1[i] == x;
                assert(b[i + 1] == x);
                assert(lex_lt(b[0], b[i + 1]));
                assert(a.contains(x));
                let j = choose|j: int| 0 <= j < a.len() && a[j] == x;
                assert(j != 0);
                assert(a1[j - 1] == x);
            }
        }
        assert(strictly_sorted(a1)) by {
            assert forall|i: int, j: int| 0 <= i < j < a1.len() implies lex_lt(
                #[trigger] a1[i],
                #[trigger] a1[j],
            ) by {
                assert(lex_lt(a[i + 1], a[j + 1]));
            }
        }
        assert(strictly_sorted(b1)) by {
            assert forall|i: int, j: int| 0 <= i < j < b1.len() implies lex_lt(
                #[trigger] b1[i],
                #[trigger] b1[j],
            ) by {
                assert(lex_lt(b[i + 1], b[j + 1]));
            }
        }
        lemma_strictly_sorted_unique(a1, b1);
        assert(a =~= seq![a[0]] + a1);
        assert(b =~= seq![b[0]] + b1);
    }
}

/// The report is determined by the input: two reports of the same word
/// list are identical, so running the pipeline twice gives the same lines.
pub proof fn lemma_report_deterministic(ws: Seq<Seq<char>>, a: Seq<Seq<char>>, b: Seq<Seq<char>>)
    requires
        is_report(ws, a),
        is_report(ws, b),
    ensures
        a == b,
{
    lemma_strictly_sorted_unique(a, b);
}

/// A word list without any candidate word, the empty one among them, has
/// an empty report.
pub proof fn lemma_no_candidates_empty_report(ws: Seq<Seq<char>>, out: Seq<Seq<char>>)
    requires
        forall|i: int| 0 <= i < ws.len() ==> !valid_word(#[trigger] ws[i]),
        is_report(ws, out),
    ensures
        out.len() == 0,
{
    if out.len() > 0 {
        assert(out.contains(out[0]));
        let ks = choose|ks: Seq<u32>| key_clique(ws, ks) && out[0] == line_text(ws, ks);
        assert(key_universe(ws).contains(ks[0]));
        let i = choose|i: int| 0 <= i < ws.len() && #[trigger] crate::groups::has_key(ws[i], ks[0]);
        assert(!valid_word(ws[i]));
    }
}

/// The position of key `k` in `keys`.
spec fn position_of(keys: Seq<u32>, k: u32) -> usize {
    choose|i: usize| i < keys.len() && keys[i as int] == k
}

proof fn lemma_clique_keys(g: WordGroups, ws: Seq<Seq<char>>, t: Seq<usize>)
    requires
        g.describes(ws),
        is_clique(g.keys@, t),
    ensures
        key_clique(ws, keys_at(g.keys@, t)),
{
    let keys = g.keys@;
    let ks = keys_at(keys, t);
    assert forall|p: int| 0 <= p < ks.len() implies key_universe(ws).contains(#[trigger] ks[p]) by {
        if p == 0 {
            assert(compatible(keys, t[0] as int, t[1] as int));
        } else {
            assert(compatible(keys, t[0] as int, t[p] as int));
        }
        assert(keys.contains(keys[t[p] as int]));
    }
    assert forall|p: int, q: int| 0 <= p < q < ks.len() implies #[trigger] ks[p] != #[trigger] ks[q]
        && disjoint(ks[p], ks[q]) by {
        assert(compatible(keys, t[p] as int, t[q] as int));
    }
}

proof fn lemma_keys_clique(g: WordGroups, ws: Seq<Seq<char>>, ks: Seq<u32>) -> (t: Seq<usize>)
    requires
        g.describes(ws),
        key_clique(ws, ks),
    ensures
        is_clique(g.keys@, t),
        keys_at(g.keys@, t) == ks,
{
    let keys = g.keys@;
    let t = ks.map_values(|k: u32| position_of(keys, k));
    assert forall|p: int| 0 <= p < ks.len() implies #[trigger] t[p] < keys.len() && keys[t[p] as int]
        == ks[p] by {
        assert(key_universe(ws).contains(ks[p]));
        assert(keys.contains(ks[p]));
        let i = choose|i: int| 0 <= i < keys.len() && keys[i] == ks[p];
        assert((i as usize) < keys.len() && keys[i as usize as int] == ks[p]);
    }
    assert forall|p: int, q: int| 0 <= p < q < t.len() implies compatible(
        keys,
        #[trigger] t[p] as int,
        #[trigger] t[q] as int,
    ) by {
        assert(ks[p] != ks[q] && disjoint(ks[p], ks[q]));
    }
    assert(keys_at(keys, t) =~= ks);
    t
}

/// Every line of five words, over the candidates of `words`, whose
/// twenty-five letters are pairwise distinct, once each and sorted.
pub fn find_word_cliques(words: &Vec<String>) -> (r: Vec<String>)
    ensures
        is_report(texts(words@), texts(r@)),
{
    let ghost ws = texts(words@);
    let g = group_words(words);
    let keys = g.keys.clone();
    proof {
        assert(keys@ =~= g.keys@);
    }
    let graph = build_graph(keys);
    let found = find_cliques(&graph);
    let mut out: Vec<String> = Vec::new();
    let mut i: usize = 0;
    while i < found.len()
        invariant
            g.describes(ws),
            graph.keys@ == g.keys@,
            forall|t: Seq<usize>| node_seqs(found@).contains(t) <==> is_clique(g.keys@, t),
            i <= found.len(),
            strictly_sorted(texts(out@)),
            forall|l: Seq<char>|
                texts(out@).contains(l) <==> exists|j: int|
                    0 <= j < i && l == line_text(ws, keys_at(g.keys@, #[trigger] found@[j]@)),
        decreases found.len() - i,
    {
        let ghost c = found@[i as int]@;
        proof {
            assert(node_seqs(found@)[i as int] == c);
            assert(is_clique(g.keys@, c));
            assert forall|p: int| 0 <= p < c.len() implies #[trigger] c[p] < g.keys.len() by {
                if p == 0 {
                    assert(compatible(g.keys@, c[0] as int, c[1] as int));
                } else {
                    assert(compatible(g.keys@, c[0] as int, c[p] as int));
                }
            }
        }
        let line = clique_line(&g, &found[i], Ghost(ws));
        let ghost lv = line@;
        let ghost before = texts(out@);
        insert_unique(&mut out, line);
        proof {
            assert forall|l: Seq<char>| texts(out@).contains(l) <==> exists|j: int|
                0 <= j < i + 1 && l == line_text(ws, keys_at(g.keys@, #[trigger] found@[j]@)) by {
                if l == lv {
                    assert(l == line_text(ws, keys_at(g.keys@, found@[i as int]@)));
                }
                if before.contains(l) {
                    let j = choose|j: int|
                        0 <= j < i && l == line_text(ws, keys_at(g.keys@, #[trigger] found@[j]@));
                    assert(0 <= j < i + 1);
                }
                if exists|j: int|
                    0 <= j < i + 1 && l == line_text(ws, keys_at(g.keys@, #[trigger] found@[j]@)) {
                    let j = choose|j: int|
                        0 <= j < i + 1 && l == line_text(ws, keys_at(g.keys@, #[trigger] found@[j]@));
                    if j < i {
                        assert(before.contains(l));
                    }
                }
            }
        }
        i = i + 1;
    }
    proof {
        assert forall|l: Seq<char>| texts(out@).contains(l) <==> is_line(ws, l) by {
            if texts(out@).contains(l) {
                let j = choose|j: int|
                    0 <= j < found.len() && l == line_text(ws, keys_at(g.keys@, #[trigger] found@[j]@));
                assert(node_seqs(found@)[j] == found@[j]@);
                assert(node_seqs(found@).contains(found@[j]@));
                lemma_clique_keys(g, ws, found@[j]@);
            }
            if is_line(ws, l) {
                let ks = choose|ks: Seq<u32>| key_clique(ws, ks) && l == line_text(ws, ks);
                let t = lemma_keys_clique(g, ws, ks);
                assert(node_seqs(found@).contains(t));
                let j = choose|j: int| 0 <= j < node_seqs(found@).len() && node_seqs(found@)[j] == t;
                assert(found@[j]@ == t);
            }
        }
    }
    out
}

} // verus!
