//! Candidate words grouped by letter-set key.
use vstd::prelude::*;
use crate::letters::{key_of, valid_word, word_key};

verus! {

/// The text of each string in a sequence.
pub open spec fn texts(v: Seq<String>) -> Seq<Seq<char>> {
    v.map_values(|s: String| s@)
}

/// Whether `w` is a candidate word whose key is `k`.
pub open spec fn has_key(w: Seq<char>, k: u32) -> bool {
    valid_word(w) && key_of(w) == k
}

/// The candidate words of `ws` whose key is `k`, in input order, repeats kept.
pub open spec fn members(ws: Seq<Seq<char>>, k: u32) -> Seq<Seq<char>> {
    ws.filter(|w: Seq<char>| has_key(w, k))
}

/// The keys of all candidate words of `ws`.
pub open spec fn key_universe(ws: Seq<Seq<char>>) -> Set<u32> {
    Set::new(|k: u32| exists|i: int| 0 <= i < ws.len() && #[trigger] has_key(ws[i], k))
}

/// The anagram classes of a word list: `keys[i]` is a key and `groups[i]`
/// holds the words that have it.
pub struct WordGroups {
    pub keys: Vec<u32>,
    pub groups: Vec<Vec<String>>,
}

impl WordGroups {
    /// Every key of the candidate words in `ws` stands once in `keys`, and
    /// nothing else does; each group holds exactly the members of its key.
    pub open spec fn describes(&self, ws: Seq<Seq<char>>) -> bool {
        &&& self.keys.len() == self.groups.len()
        &&& self.keys@.no_duplicates()
        &&& forall|k: u32| self.keys@.contains(k) <==> key_universe(ws).contains(k)
        &&& forall|i: int|
            0 <= i < self.keys.len() ==> texts(#[trigger] self.groups[i]@) == members(
                ws,
                self.keys[i],
            )
    }
}

proof fn lemma_members_push(p: Seq<Seq<char>>, w: Seq<char>, k: u32)
    ensures
        members(p.push(w), k) == (if has_key(w, k) {
            members(p, k).push(w)
        } else {
            members(p, k)
        }),
{
    reveal(Seq::filter);
    assert(p.push(w).drop_last() =~= p);
}

proof fn lemma_universe_push(p: Seq<Seq<char>>, w: Seq<char>)
    ensures
        key_universe(p.push(w)) == (if valid_word(w) {
            key_universe(p).insert(key_of(w))
        } else {
            key_universe(p)
        }),
{
    let q = p.push(w);
    if valid_word(w) {
        assert forall|k: u32| key_universe(q).contains(k) <==> key_universe(p).insert(
            key_of(w),
        ).contains(k) by {
            if key_universe(p).contains(k) {
                let i = choose|i: int| 0 <= i < p.len() && #[trigger] has_key(p[i], k);
                assert(q[i] == p[i]);
            }
            if k == key_of(w) {
                assert(has_key(q[p.len() as int], k));
            }
        }
        assert(key_universe(q) =~= key_universe(p).insert(key_of(w)));
    } else {
        assert forall|k: u32| key_universe(q).contains(k) <==> key_universe(p).contains(k) by {
            if key_universe(p).contains(k) {
                let i = choose|i: int| 0 <= i < p.len() && #[trigger] has_key(p[i], k);
                assert(q[i] == p[i]);
            }
            if key_universe(q).contains(k) {
                let i = choose|i: int| 0 <= i < q.len() && #[trigger] has_key(q[i], k);
                assert(i < p.len());
                assert(q[i] == p[i]);
            }
        }
        assert(key_universe(q) =~= key_universe(p));
    }
}

proof fn lemma_members_empty(p: Seq<Seq<char>>, k: u32)
    requires
        !key_universe(p).contains(k),
    ensures
        members(p, k) == Seq::<Seq<char>>::empty(),
    decreases p.len(),
{
    reveal(Seq::filter);
    if p.len() > 0 {
        let q = p.drop_last();
        assert(!key_universe(q).contains(k)) by {
            if key_universe(q).contains(k) {
                let i = choose|i: int| 0 <= i < q.len() && #[trigger] has_key(q[i], k);
                assert(p[i] == q[i]);
            }
        }
        lemma_members_empty(q, k);
        assert(!has_key(p[p.len() - 1], k));
    }
}

/// A word that is not five characters long, or that repeats a character,
/// adds no key to the universe and joins no group.
pub proof fn lemma_rejected_word_ignored(ws: Seq<Seq<char>>, w: Seq<char>)
    requires
        w.len() != 5 || w.to_set().len() < 5,
    ensures
        key_universe(ws.push(w)) == key_universe(ws),
        forall|k: u32| #[trigger] members(ws.push(w), k) == members(ws, k),
{
    if valid_word(w) {
        assert(w.no_duplicates());
        w.unique_seq_to_set();
    }
    lemma_universe_push(ws, w);
    assert forall|k: u32| #[trigger] members(ws.push(w), k) == members(ws, k) by {
        lemma_members_push(ws, w, k);
    }
}

/// Position of `k` in `keys`, if it is there.
fn find_key(keys: &Vec<u32>, k: u32) -> (r: Option<usize>)
    ensures
        match r {
            Some(i) => i < keys.len() && keys[i as int] == k,
            None => !keys@.contains(k),
        },
{
    let mut i: usize = 0;
    while i < keys.len()
        invariant
            i <= keys.len(),
            forall|j: int| 0 <= j < i ==> keys[j] != k,
        decreases keys.len() - i,
    {
        if keys[i] == k {
            return Some(i);
        }
        i = i + 1;
    }
    None
}

/// Groups the candidate words of `words` by key. Words that are not five
/// distinct lowercase letters are left out.
pub fn group_words(words: &Vec<String>) -> (g: WordGroups)
    ensures
        g.describes(texts(words@)),
{
    let ghost ws = texts(words@);
    let mut keys: Vec<u32> = Vec::new();
    let mut groups: Vec<Vec<String>> = Vec::new();
    let mut i: usize = 0;
    proof {
        assert(ws.take(0) =~= Seq::<Seq<char>>::empty());
        assert(key_universe(ws.take(0)) =~= Set::<u32>::empty());
        reveal(Seq::filter);
    }
    while i < words.len()
        invariant
            i <= words.len(),
            ws == texts(words@),
            (WordGroups { keys, groups }).describes(ws.take(i as int)),
        decreases words.len() - i,
    {
        let w = &words[i];
        let ghost p = ws.take(i as int);
        proof {
            assert(ws.take(i + 1) =~= p.push(w@));
            lemma_universe_push(p, w@);
        }
        match word_key(w.as_str()) {
            None => {
                proof {
                    assert forall|t: int| 0 <= t < keys.len() implies texts(
                        #[trigger] groups[t]@,
                    ) == members(p.push(w@), keys[t]) by {
                        lemma_members_push(p, w@, keys[t]);
                    }
                }
            },
            Some(k) => {
                match find_key(&keys, k) {
                    Some(idx) => {
                        let mut g: Vec<String> = Vec::new();
                        groups.set_and_swap(idx, &mut g);
                        let ghost before = g@;
                        g.push(w.clone());
                        proof {
                            assert(texts(g@) =~= texts(before).push(w@));
                        }
                        groups.set(idx, g);
                        proof {
                            assert forall|t: int| 0 <= t < keys.len() implies texts(
                                #[trigger] groups[t]@,
                            ) == members(p.push(w@), keys[t]) by {
                                lemma_members_push(p, w@, keys[t]);
                            }
                            assert forall|kk: u32| keys@.contains(kk) <==> key_universe(
                                p.push(w@),
                            ).contains(kk) by {
                                if kk == k {
                                    assert(keys@[idx as int] == k);
                                }
                            }
                        }
                    },
                    None => {
                        let ghost old_keys = keys@;
                        let ghost old_groups = groups@;
                        keys.push(k);
                        let mut g: Vec<String> = Vec::new();
                        g.push(w.clone());
                        proof {
                            assert(texts(g@) =~= seq![w@]);
                        }
                        groups.push(g);
                        proof {
                            assert forall|t: int| 0 <= t < keys.len() implies texts(
                                #[trigger] groups[t]@,
                            ) == members(p.push(w@), keys[t]) by {
                                lemma_members_push(p, w@, keys[t]);
                                if t == old_keys.len() {
                                    assert(!old_keys.contains(k));
                                    assert(!key_universe(p).contains(k));
                                    lemma_members_empty(p, k);
                                    assert(seq![w@] =~= Seq::<Seq<char>>::empty().push(w@));
                                } else {
                                    assert(groups[t] == old_groups[t]);
                                    assert(keys[t] == old_keys[t]);
                                }
                            }
                            assert forall|kk: u32| keys@.contains(kk) <==> key_universe(
                                p.push(w@),
                            ).contains(kk) by {
                                if keys@.contains(kk) && kk != k {
                                    let j = choose|j: int| 0 <= j < keys.len() && keys[j] == kk;
                                    assert(old_keys[j] == kk);
                                }
                                if kk != k && old_keys.contains(kk) {
                                    let j = choose|j: int| 0 <= j < old_keys.len() && old_keys[j] == kk;
                                    assert(keys[j] == kk);
                                }
                                assert(keys@[old_keys.len() as int] == k);
                            }
                            assert(keys@.no_duplicates());
                        }
                    },
                }
            },
        }
        i = i + 1;
    }
    proof {
        assert(ws.take(words.len() as int) =~= ws);
    }
    WordGroups { keys, groups }
}

} // verus!
