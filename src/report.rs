//! Rendering cliques of keys as lines of words.
use vstd::prelude::*;
use crate::groups::{members, texts, WordGroups};
use crate::lex::{sort_texts, text_order};

verus! {

/// `parts` with `sep` between each two of them.
pub open spec fn join(parts: Seq<Seq<char>>, sep: Seq<char>) -> Seq<char>
    decreases parts.len(),
{
    if parts.len() == 0 {
        Seq::empty()
    } else if parts.len() == 1 {
        parts[0]
    } else {
        join(parts.drop_last(), sep) + sep + parts.last()
    }
}

/// Separator between the anagrams of one key.
pub open spec fn anagram_sep() -> Seq<char> {
    seq!['|']
}

/// Separator between the five entries of a line.
pub open spec fn entry_sep() -> Seq<char> {
    seq![',']
}

/// The entry for key `k`: its words in `ws`, sorted, joined by `|`.
pub open spec fn group_text(ws: Seq<Seq<char>>, k: u32) -> Seq<char> {
    join(members(ws, k).sort_by(text_order()), anagram_sep())
}

/// The line for the keys `ks`: their entries, sorted, joined by `,`.
pub open spec fn line_text(ws: Seq<Seq<char>>, ks: Seq<u32>) -> Seq<char> {
    join(ks.map_values(|k: u32| group_text(ws, k)).sort_by(text_order()), entry_sep())
}

/// Joins the strings of `parts` with `sep` between each two.
pub fn join_texts(parts: &Vec<String>, sep: &str) -> (r: String)
    ensures
        r@ == join(texts(parts@), sep@),
{
    if parts.len() == 0 {
        return String::new();
    }
    let mut r = parts[0].clone();
    let mut i: usize = 1;
    proof {
        assert(texts(parts@).take(1).drop_last() =~= Seq::<Seq<char>>::empty());
    }
    while i < parts.len()
        invariant
            1 <= i <= parts.len(),
            r@ == join(texts(parts@).take(i as int), sep@),
        decreases parts.len() - i,
    {
        r.append(sep);
        r.append(parts[i].as_str());
        proof {
            assert(texts(parts@).take(i + 1).drop_last() =~= texts(parts@).take(i as int));
        }
        i = i + 1;
    }
    proof {
        assert(texts(parts@).take(parts.len() as int) =~= texts(parts@));
    }
    r
}

/// The entry for group `i` of `g`: its words sorted and joined by `|`.
pub fn group_entry(g: &WordGroups, i: usize) -> (r: String)
    requires
        i < g.groups.len(),
    ensures
        r@ == join(texts(g.groups[i as int]@).sort_by(text_order()), anagram_sep()),
{
    let sorted = sort_texts(&g.groups[i]);
    let sep = "|";
    proof {
        reveal_strlit("|");
        assert(sep@ =~= anagram_sep());
    }
    join_texts(&sorted, sep)
}

/// The keys of the nodes `c`.
pub open spec fn keys_at(keys: Seq<u32>, c: Seq<usize>) -> Seq<u32> {
    c.map_values(|x: usize| keys[x as int])
}

/// The line for the nodes `c` of the groups `g`, which describe `ws`.
pub fn clique_line(g: &WordGroups, c: &Vec<usize>, Ghost(ws): Ghost<Seq<Seq<char>>>) -> (r: String)
    requires
        g.describes(ws),
        forall|p: int| 0 <= p < c.len() ==> #[trigger] c[p] < g.keys.len(),
    ensures
        r@ == line_text(ws, keys_at(g.keys@, c@)),
{
    let ghost ks = keys_at(g.keys@, c@);
    let ghost entries = ks.map_values(|k: u32| group_text(ws, k));
    let mut parts: Vec<String> = Vec::new();
    let mut p: usize = 0;
    while p < c.len()
        invariant
            g.describes(ws),
            forall|q: int| 0 <= q < c.len() ==> #[trigger] c[q] < g.keys.len(),
            ks == keys_at(g.keys@, c@),
            entries == ks.map_values(|k: u32| group_text(ws, k)),
            p <= c.len(),
            texts(parts@) == entries.take(p as int),
        decreases c.len() - p,
    {
        let e = group_entry(g, c[p]);
        proof {
            assert(texts(g.groups[c[p as int] as int]@) == members(ws, g.keys[c[p as int] as int]));
            assert(e@ == entries[p as int]);
        }
        let ghost before = texts(parts@);
        parts.push(e);
        proof {
            assert(texts(parts@) =~= before.push(entries[p as int]));
            assert(entries.take(p + 1) =~= entries.take(p as int).push(entries[p as int]));
        }
        p = p + 1;
    }
    proof {
        assert(entries.take(c.len() as int) =~= entries);
    }
    let sorted = sort_texts(&parts);
    let sep = ",";
    proof {
        reveal_strlit(",");
        assert(sep@ =~= entry_sep());
    }
    join_texts(&sorted, sep)
}

} // verus!
