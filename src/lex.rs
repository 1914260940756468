//! Lexicographic order on text, and sorting by it.
use vstd::prelude::*;
use vstd::relations::{sorted_by, total_ordering};
use crate::groups::texts;

verus! {

/// `a` is at most `b` in character order, comparing from position `i` on.
pub open spec fn le_from(a: Seq<char>, b: Seq<char>, i: int) -> bool
    decreases a.len() - i,
{
    if i >= a.len() {
        true
    } else if i >= b.len() {
        false
    } else if a[i] != b[i] {
        a[i] < b[i]
    } else {
        le_from(a, b, i + 1)
    }
}

/// Lexicographic order by character code, as `String`'s `Ord` compares.
pub open spec fn lex_le(a: Seq<char>, b: Seq<char>) -> bool {
    le_from(a, b, 0)
}

/// Strict lexicographic order.
pub open spec fn lex_lt(a: Seq<char>, b: Seq<char>) -> bool {
    lex_le(a, b) && a != b
}

/// The ordering relation used to sort text.
pub open spec fn text_order() -> spec_fn(Seq<char>, Seq<char>) -> bool {
    |a: Seq<char>, b: Seq<char>| lex_le(a, b)
}

/// `s` is in strictly increasing lexicographic order.
pub open spec fn strictly_sorted(s: Seq<Seq<char>>) -> bool {
    forall|i: int, j: int| 0 <= i < j < s.len() ==> lex_lt(#[trigger] s[i], #[trigger] s[j])
}

proof fn lemma_le_from_refl(a: Seq<char>, i: int)
    requires
        0 <= i,
    ensures
        le_from(a, a, i),
    decreases a.len() - i,
{
    if i < a.len() {
        lemma_le_from_refl(a, i + 1);
    }
}

proof fn lemma_le_from_antisym(a: Seq<char>, b: Seq<char>, i: int)
    requires
        0 <= i <= a.len(),
        i <= b.len(),
        le_from(a, b, i),
        le_from(b, a, i),
    ensures
        a.len() == b.len(),
        forall|j: int| i <= j < a.len() ==> a[j] == b[j],
    decreases a.len() - i,
{
    if i < a.len() && i < b.len() {
        lemma_le_from_antisym(a, b, i + 1);
    }
}

proof fn lemma_le_from_trans(a: Seq<char>, b: Seq<char>, c: Seq<char>, i: int)
    requires
        0 <= i,
        le_from(a, b, i),
        le_from(b, c, i),
    ensures
        le_from(a, c, i),
    decreases a.len() - i,
{
    if i < a.len() && i < b.len() && i < c.len() && a[i] == b[i] && b[i] == c[i] {
        lemma_le_from_trans(a, b, c, i + 1);
    }
}

proof fn lemma_le_from_total(a: Seq<char>, b: Seq<char>, i: int)
    requires
        0 <= i,
    ensures
        le_from(a, b, i) || le_from(b, a, i),
    decreases a.len() - i,
{
    if i < a.len() && i < b.len() {
        if a[i] == b[i] {
            lemma_le_from_total(a, b, i + 1);
        }
    }
}

/// Lexicographic order is a total order.
pub proof fn lemma_text_order_total()
    ensures
        total_ordering(text_order()),
{
    assert forall|a: Seq<char>| #[trigger] text_order()(a, a) by {
        lemma_le_from_refl(a, 0);
    }
    assert forall|a: Seq<char>, b: Seq<char>|
        #[trigger] text_order()(a, b) && #[trigger] text_order()(b, a) implies a == b by {
        lemma_le_from_antisym(a, b, 0);
        assert(a =~= b);
    }
    assert forall|a: Seq<char>, b: Seq<char>, c: Seq<char>|
        #[trigger] text_order()(a, b) && #[trigger] text_order()(b, c) implies text_order()(
        a,
        c,
    ) by {
        lemma_le_from_trans(a, b, c, 0);
    }
    assert forall|a: Seq<char>, b: Seq<char>|
        #[trigger] text_order()(a, b) || #[trigger] text_order()(b, a) by {
        lemma_le_from_total(a, b, 0);
    }
}

/// Whether `a` comes no later than `b` in lexicographic order.
pub fn text_le(a: &str, b: &str) -> (r: bool)
    ensures
        r == lex_le(a@, b@),
{
    let na = a.unicode_len();
    let nb = b.unicode_len();
    let mut i: usize = 0;
    while i < na && i < nb
        invariant
            na == a@.len(),
            nb == b@.len(),
            i <= na,
            i <= nb,
            lex_le(a@, b@) == le_from(a@, b@, i as int),
        decreases na - i,
    {
        let ca = a.get_char(i);
        let cb = b.get_char(i);
        if ca != cb {
            return ca < cb;
        }
        i = i + 1;
    }
    i == na
}

/// Where `s` goes in the sorted `r`: after every element at most `s`.
fn upper_position(r: &Vec<String>, s: &String) -> (p: usize)
    requires
        sorted_by(texts(r@), text_order()),
    ensures
        p <= r.len(),
        forall|j: int| 0 <= j < p ==> lex_le(#[trigger] r@[j]@, s@),
        forall|j: int| p <= j < r.len() ==> !lex_le(#[trigger] r@[j]@, s@),
{
    proof {
        lemma_text_order_total();
    }
    let mut p: usize = 0;
    while p < r.len()
        invariant
            p <= r.len(),
            total_ordering(text_order()),
            sorted_by(texts(r@), text_order()),
            forall|j: int| 0 <= j < p ==> lex_le(#[trigger] r@[j]@, s@),
        decreases r.len() - p,
    {
        if !text_le(r[p].as_str(), s.as_str()) {
            proof {
                assert forall|j: int| p <= j < r.len() implies !lex_le(#[trigger] r@[j]@, s@) by {
                    if j > p {
                        assert(texts(r@)[p as int] == r@[p as int]@);
                        assert(texts(r@)[j] == r@[j]@);
                        assert(text_order()(texts(r@)[p as int], texts(r@)[j]));
                        if lex_le(r@[j]@, s@) {
                            assert(text_order()(r@[j]@, s@));
                        }
                    }
                }
            }
            return p;
        }
        p = p + 1;
    }
    p
}

/// The strings of `v` in lexicographic order, repeats kept.
pub fn sort_texts(v: &Vec<String>) -> (r: Vec<String>)
    ensures
        texts(r@) == texts(v@).sort_by(text_order()),
{
    proof {
        lemma_text_order_total();
    }
    let mut r: Vec<String> = Vec::new();
    let mut i: usize = 0;
    proof {
        assert(texts(v@).take(0) =~= texts(r@));
    }
    while i < v.len()
        invariant
            i <= v.len(),
            total_ordering(text_order()),
            sorted_by(texts(r@), text_order()),
            texts(r@).to_multiset() == texts(v@).take(i as int).to_multiset(),
        decreases v.len() - i,
    {
        let s = v[i].clone();
        let p = upper_position(&r, &s);
        let ghost before = texts(r@);
        r.insert(p, s);
        proof {
            assert(texts(r@) =~= before.insert(p as int, s@));
            assert(texts(v@).take(i + 1) =~= texts(v@).take(i as int).push(s@));
            vstd::seq_lib::to_multiset_insert(before, p as int, s@);
            vstd::seq_lib::to_multiset_build(texts(v@).take(i as int), s@);
            assert forall|a: int, b: int| 0 <= a < b < texts(r@).len() implies text_order()(
                #[trigger] texts(r@)[a],
                #[trigger] texts(r@)[b],
            ) by {
                if b < p {
                    assert(text_order()(before[a], before[b]));
                } else if b == p {
                    assert(lex_le(r@[a]@, s@));
                } else if a == p {
                    assert(!lex_le(r@[b]@, s@));
                    assert(text_order()(s@, r@[b]@) || text_order()(r@[b]@, s@));
                } else if a < p {
                    assert(lex_le(r@[a]@, s@));
                    assert(!lex_le(r@[b]@, s@));
                    assert(text_order()(s@, r@[b]@) || text_order()(r@[b]@, s@));
                } else {
                    assert(text_order()(before[a - 1], before[b - 1]));
                }
            }
        }
        i = i + 1;
    }
    proof {
        assert(texts(v@).take(v.len() as int) =~= texts(v@));
        texts(v@).lemma_sort_by_ensures(text_order());
        vstd::seq_lib::lemma_sorted_unique(
            texts(r@),
            texts(v@).sort_by(text_order()),
            text_order(),
        );
    }
    r
}

proof fn lemma_strict_total(a: Seq<char>, b: Seq<char>)
    ensures
        lex_lt(a, b) || a == b || lex_lt(b, a),
        !(lex_lt(a, b) && lex_le(b, a)),
{
    lemma_text_order_total();
    assert(text_order()(a, b) || text_order()(b, a));
    if lex_le(a, b) && lex_le(b, a) {
        assert(text_order()(a, b) && text_order()(b, a));
    }
}

proof fn lemma_lt_trans(a: Seq<char>, b: Seq<char>, c: Seq<char>)
    requires
        lex_le(a, b),
        lex_lt(b, c),
    ensures
        lex_lt(a, c),
{
    lemma_text_order_total();
    assert(text_order()(a, b) && text_order()(b, c));
    lemma_strict_total(b, c);
}

/// Where `s` goes in the strictly sorted `r`: before every element at least `s`.
fn lower_position(r: &Vec<String>, s: &String) -> (p: usize)
    requires
        strictly_sorted(texts(r@)),
    ensures
        p <= r.len(),
        forall|j: int| 0 <= j < p ==> lex_lt(#[trigger] r@[j]@, s@),
        forall|j: int| p <= j < r.len() ==> lex_le(s@, #[trigger] r@[j]@),
{
    let mut p: usize = 0;
    while p < r.len()
        invariant
            p <= r.len(),
            strictly_sorted(texts(r@)),
            forall|j: int| 0 <= j < p ==> lex_lt(#[trigger] r@[j]@, s@),
        decreases r.len() - p,
    {
        if text_le(s.as_str(), r[p].as_str()) {
            proof {
                assert forall|j: int| p <= j < r.len() implies lex_le(s@, #[trigger] r@[j]@) by {
                    if j > p {
                        assert(texts(r@)[p as int] == r@[p as int]@);
                        assert(texts(r@)[j] == r@[j]@);
                        lemma_lt_trans(s@, r@[p as int]@, r@[j]@);
                    }
                }
            }
            return p;
        }
        proof {
            lemma_strict_total(s@, r@[p as int]@);
            lemma_text_order_total();
            assert(text_order()(s@, s@));
        }
        p = p + 1;
    }
    p
}

proof fn lemma_insert_contains<A>(s: Seq<A>, p: int, a: A, x: A)
    requires
        0 <= p <= s.len(),
    ensures
        s.insert(p, a).contains(x) <==> (s.contains(x) || x == a),
{
    let t = s.insert(p, a);
    if s.contains(x) {
        let k = choose|k: int| 0 <= k < s.len() && s[k] == x;
        if k < p {
            assert(t[k] == x);
        } else {
            assert(t[k + 1] == x);
        }
    }
    if x == a {
        assert(t[p] == x);
    }
    if t.contains(x) {
        let k = choose|k: int| 0 <= k < t.len() && t[k] == x;
        if k < p {
            assert(s[k] == x);
        } else if k > p {
            assert(s[k - 1] == x);
        }
    }
}

/// Adds `s` to the strictly sorted `out` unless it is there already.
pub fn insert_unique(out: &mut Vec<String>, s: String)
    requires
        strictly_sorted(texts(old(out)@)),
    ensures
        strictly_sorted(texts(final(out)@)),
        forall|x: Seq<char>|
            texts(final(out)@).contains(x) <==> (texts(old(out)@).contains(x) || x == s@),
{
    let p = lower_position(out, &s);
    let ghost before = texts(out@);
    if p < out.len() && text_le(out[p].as_str(), s.as_str()) {
        proof {
            lemma_strict_total(s@, out@[p as int]@);
            assert(before[p as int] == s@);
        }
        return;
    }
    let ghost sv = s@;
    proof {
        if p < out.len() {
            lemma_strict_total(s@, out@[p as int]@);
        }
    }
    out.insert(p, s);
    proof {
        assert(texts(out@) =~= before.insert(p as int, sv));
        assert forall|x: Seq<char>| texts(out@).contains(x) <==> (before.contains(x) || x == sv) by {
            lemma_insert_contains(before, p as int, sv, x);
        }
        assert forall|a: int, b: int| 0 <= a < b < texts(out@).len() implies lex_lt(
            #[trigger] texts(out@)[a],
            #[trigger] texts(out@)[b],
        ) by {
            if b < p {
                assert(lex_lt(before[a], before[b]));
            } else if b == p {
                assert(lex_lt(out@[a]@, sv));
            } else if a == p {
                assert(lex_le(sv, before[b - 1]));
                if b - 1 > p {
                    assert(lex_lt(before[p as int], before[b - 1]));
                    lemma_lt_trans(sv, before[p as int], before[b - 1]);
                }
            } else if a < p {
                assert(lex_lt(before[a], sv));
                assert(lex_le(sv, before[b - 1]));
                if b - 1 > p {
                    assert(lex_lt(before[p as int], before[b - 1]));
                    lemma_lt_trans(sv, before[p as int], before[b - 1]);
                }
                lemma_text_order_total();
                assert(text_order()(before[a], sv));
                lemma_strict_total(before[a], sv);
                if before[a] == before[b - 1] {
                    lemma_strict_total(sv, before[a]);
                }
                lemma_text_order_total();
                assert(text_order()(before[a], sv) && text_order()(sv, before[b - 1]));
            } else {
                assert(lex_lt(before[a - 1], before[b - 1]));
            }
        }
    }
}

} // verus!
