//! Words and their letter-set keys.
use vstd::prelude::*;

verus! {

/// A lowercase ASCII letter.
pub open spec fn is_lower(c: char) -> bool {
    ('a' as u32) <= (c as u32) && (c as u32) <= ('z' as u32)
}

/// A candidate word: five lowercase letters, no letter twice.
pub open spec fn valid_word(w: Seq<char>) -> bool {
    &&& w.len() == 5
    &&& forall|i: int| 0 <= i < 5 ==> is_lower(#[trigger] w[i])
    &&& forall|i: int, j: int| 0 <= i < j < 5 ==> w[i] != w[j]
}

/// Position of a lowercase letter in the alphabet.
pub open spec fn letter_index(c: char) -> u32 {
    ((c as u32) - ('a' as u32)) as u32
}

/// The single bit that stands for a lowercase letter.
pub open spec fn letter_bit(c: char) -> u32 {
    1u32 << letter_index(c)
}

/// The letter-set key of a five-letter word: bit `i` is set iff letter `i`
/// of the alphabet occurs in the word.
pub open spec fn key_of(w: Seq<char>) -> u32 {
    letter_bit(w[0]) | letter_bit(w[1]) | letter_bit(w[2]) | letter_bit(w[3]) | letter_bit(w[4])
}

/// Two keys are compatible when their letter sets share no letter.
pub open spec fn disjoint(a: u32, b: u32) -> bool {
    a & b == 0
}

/// Compatibility of keys does not depend on their order.
pub proof fn lemma_disjoint_symmetric(a: u32, b: u32)
    ensures
        disjoint(a, b) == disjoint(b, a),
{
    assert(a & b == b & a) by (bit_vector);
}

fn is_lower_exec(c: char) -> (r: bool)
    ensures
        r == is_lower(c),
{
    'a' <= c && c <= 'z'
}

fn bit_of(c: char) -> (r: u32)
    requires
        is_lower(c),
    ensures
        r == letter_bit(c),
{
    let shift: u32 = (c as u32) - ('a' as u32);
    1u32 << shift
}

/// The key of `word`, or `None` where the word is not five distinct
/// lowercase letters.
pub fn word_key(word: &str) -> (r: Option<u32>)
    ensures
        r == (if valid_word(word@) {
            Some(key_of(word@))
        } else {
            None::<u32>
        }),
{
    if word.unicode_len() != 5 {
        return None;
    }
    let c0 = word.get_char(0);
    let c1 = word.get_char(1);
    let c2 = word.get_char(2);
    let c3 = word.get_char(3);
    let c4 = word.get_char(4);
    if !(is_lower_exec(c0) && is_lower_exec(c1) && is_lower_exec(c2) && is_lower_exec(c3)
        && is_lower_exec(c4)) {
        return None;
    }
    if c0 == c1 || c0 == c2 || c0 == c3 || c0 == c4 || c1 == c2 || c1 == c3 || c1 == c4 || c2
        == c3 || c2 == c4 || c3 == c4 {
        return None;
    }
    Some(bit_of(c0) | bit_of(c1) | bit_of(c2) | bit_of(c3) | bit_of(c4))
}

proof fn lemma_or5_absorbs(x: u32, a0: u32, a1: u32, a2: u32, a3: u32, a4: u32)
    requires
        x == a0 || x == a1 || x == a2 || x == a3 || x == a4,
    ensures
        x | (a0 | a1 | a2 | a3 | a4) == a0 | a1 | a2 | a3 | a4,
{
    assert(x | (a0 | a1 | a2 | a3 | a4) == a0 | a1 | a2 | a3 | a4) by (bit_vector)
        requires
            x == a0 || x == a1 || x == a2 || x == a3 || x == a4,
    ;
}

proof fn lemma_or5_within(x: u32, b0: u32, b1: u32, b2: u32, b3: u32, b4: u32)
    requires
        b0 | x == x,
        b1 | x == x,
        b2 | x == x,
        b3 | x == x,
        b4 | x == x,
    ensures
        (b0 | b1 | b2 | b3 | b4) | x == x,
{
    assert((b0 | b1 | b2 | b3 | b4) | x == x) by (bit_vector)
        requires
            b0 | x == x,
            b1 | x == x,
            b2 | x == x,
            b3 | x == x,
            b4 | x == x,
    ;
}

proof fn lemma_or_mutual(x: u32, y: u32)
    requires
        y | x == x,
        x | y == y,
    ensures
        x == y,
{
    assert(x == y) by (bit_vector)
        requires
            y | x == x,
            x | y == y,
    ;
}

/// The key of `w2` lies within the key of `w1` when every letter of `w2`
/// occurs in `w1`.
proof fn lemma_key_within(w1: Seq<char>, w2: Seq<char>)
    requires
        w1.len() == 5,
        w2.len() == 5,
        forall|j: int| 0 <= j < 5 ==> w1.contains(#[trigger] w2[j]),
    ensures
        key_of(w2) | key_of(w1) == key_of(w1),
{
    let x = key_of(w1);
    assert forall|j: int| 0 <= j < 5 implies #[trigger] letter_bit(w2[j]) | x == x by {
        assert(w1.contains(w2[j]));
        let i = choose|i: int| 0 <= i < w1.len() && w1[i] == w2[j];
        lemma_or5_absorbs(
            letter_bit(w2[j]),
            letter_bit(w1[0]),
            letter_bit(w1[1]),
            letter_bit(w1[2]),
            letter_bit(w1[3]),
            letter_bit(w1[4]),
        );
    }
    assert(letter_bit(w2[0]) | x == x);
    assert(letter_bit(w2[1]) | x == x);
    assert(letter_bit(w2[2]) | x == x);
    assert(letter_bit(w2[3]) | x == x);
    assert(letter_bit(w2[4]) | x == x);
    lemma_or5_within(
        x,
        letter_bit(w2[0]),
        letter_bit(w2[1]),
        letter_bit(w2[2]),
        letter_bit(w2[3]),
        letter_bit(w2[4]),
    );
}

/// Anagrams share a key: two candidate words that are permutations of each
/// other have the same letter-set key.
pub proof fn lemma_anagrams_share_key(w1: Seq<char>, w2: Seq<char>)
    requires
        valid_word(w1),
        valid_word(w2),
        w1.to_multiset() == w2.to_multiset(),
    ensures
        key_of(w1) == key_of(w2),
{
    broadcast use vstd::seq_lib::to_multiset_contains;

    assert forall|j: int| 0 <= j < 5 implies w1.contains(#[trigger] w2[j]) by {
        assert(w2.contains(w2[j]));
        assert(w2.to_multiset().count(w2[j]) > 0);
        assert(w1.to_multiset().count(w2[j]) > 0);
    }
    assert forall|j: int| 0 <= j < 5 implies w2.contains(#[trigger] w1[j]) by {
        assert(w1.contains(w1[j]));
        assert(w1.to_multiset().count(w1[j]) > 0);
        assert(w2.to_multiset().count(w1[j]) > 0);
    }
    lemma_key_within(w1, w2);
    lemma_key_within(w2, w1);
    lemma_or_mutual(key_of(w1), key_of(w2));
}

} // verus!
