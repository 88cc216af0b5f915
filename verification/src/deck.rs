//! Canonical deck construction and the seeded, reproducible shuffle.
//!
//! The shuffle is Fisher-Yates over indices 51 down to 1; the swap partner at
//! step `i` is derived from the first four seed bytes XOR-folded with `i`,
//! reduced modulo `i + 1`. The derivation is intentionally simple and
//! reproducible rather than cryptographically uniform: callers must not rely
//! on it for unpredictability, only for replayability from a shared seed.

use vstd::prelude::*;

use crate::cards::{rank_from_value, rank_of_value, suit_from_value, suit_of_value, Card};

verus! {

/// Number of cards in a standard deck.
pub open spec fn deck_size() -> int {
    52
}

/// The canonical base ordering: suits in the order Hearts, Diamonds, Clubs,
/// Spades, each running Two up to Ace.
pub open spec fn spec_create_deck() -> Seq<Card> {
    Seq::new(
        52,
        |i: int|
            Card {
                rank: rank_of_value((2 + (i % 13)) as u8),
                suit: suit_of_value((i / 13) as u8),
            },
    )
}

/// Builds the 52 canonical cards in the fixed base order.
pub fn create_deck() -> (deck: Vec<Card>)
    ensures
        deck@ == spec_create_deck(),
        deck@.len() == 52,
{
    let mut deck: Vec<Card> = Vec::new();
    let mut s: usize = 0;
    while s < 4
        invariant
            0 <= s <= 4,
            deck@.len() == 13 * s,
            deck@ =~= spec_create_deck().take(13 * s as int),
        decreases 4 - s,
    {
        let mut v: usize = 2;
        while v <= 14
            invariant
                0 <= s < 4,
                2 <= v <= 15,
                deck@.len() == 13 * s + v - 2,
                deck@ =~= spec_create_deck().take(13 * s + v - 2),
            decreases 15 - v,
        {
            deck.push(Card { rank: rank_from_value(v as u8), suit: suit_from_value(s as u8) });
            proof {
                let i = 13 * (s as int) + (v as int) - 2;
                assert((13 * (s as int) + ((v as int) - 2)) % 13 == (v as int) - 2
                    && (13 * (s as int) + ((v as int) - 2)) / 13 == s as int) by (nonlinear_arith)
                    requires
                        0 <= (v as int) - 2 < 13,
                        0 <= s as int,
                ;
                assert(spec_create_deck()[i] == Card {
                    rank: rank_of_value(v as u8),
                    suit: suit_of_value(s as u8),
                });
                assert(deck@ =~= spec_create_deck().take(i + 1));
            }
            v = v + 1;
        }
        s = s + 1;
    }
    assert(deck@ =~= spec_create_deck());
    deck
}

/// Every card value (all 52 rank/suit combinations) appears exactly once in
/// the canonical deck.
pub proof fn lemma_create_deck_each_card_once()
    ensures
        spec_create_deck().len() == 52,
        forall|c: Card| spec_create_deck().to_multiset().count(c) == 1,
{
    let deck = spec_create_deck();
    assert forall|i: int, j: int| 0 <= i < j < 52 implies deck[i] != deck[j] by {
        vstd::arithmetic::div_mod::lemma_fundamental_div_mod(i, 13);
        vstd::arithmetic::div_mod::lemma_fundamental_div_mod(j, 13);
        assert(0 <= i % 13 < 13 && 0 <= j % 13 < 13);
        assert(0 <= i / 13 <= 3) by (nonlinear_arith)
            requires
                0 <= i < 52,
        ;
        assert(0 <= j / 13 <= 3) by (nonlinear_arith)
            requires
                0 <= j < 52,
        ;
        if i / 13 == j / 13 && i % 13 == j % 13 {
            assert(i == j);
        }
    }
    assert(deck.no_duplicates());
    deck.lemma_multiset_has_no_duplicates();
    assert forall|c: Card| deck.to_multiset().count(c) == 1 by {
        let r = c.rank;
        let s = c.suit;
        let i = 13 * (s.value() as int) + (r.value() as int) - 2;
        assert((13 * (s.value() as int) + ((r.value() as int) - 2)) % 13 == (r.value() as int) - 2
            && (13 * (s.value() as int) + ((r.value() as int) - 2)) / 13 == s.value() as int)
            by (nonlinear_arith)
            requires
                0 <= (r.value() as int) - 2 < 13,
                0 <= s.value() as int,
        ;
        assert(deck[i] == c);
        assert(deck.contains(c));
        broadcast use vstd::seq_lib::group_to_multiset_ensures;

        assert(deck.to_multiset().count(c) > 0);
        assert(deck.to_multiset().count(c) <= 1);
    }
}

/// The scalar folded from the first four seed bytes, XORed with the step
/// index: the pseudo-random function driving the shuffle.
pub open spec fn spec_deterministic_random(seed: Seq<u8>, index: usize) -> usize {
    (((seed[0] as usize) ^ ((seed[1] as usize) << 8) ^ ((seed[2] as usize) << 16) ^ ((
    seed[3] as usize) << 24)) ^ index) as usize
}

/// Derives the shuffle's pseudo-random scalar for one step. Folds only the
/// first four seed bytes, so the entropy is deliberately low; see the module
/// documentation.
pub fn deterministic_random(seed: &[u8; 32], index: usize) -> (r: usize)
    ensures
        r == spec_deterministic_random(seed@, index),
{
    let b0 = seed[0] as usize;
    let b1 = seed[1] as usize;
    let b2 = seed[2] as usize;
    let b3 = seed[3] as usize;
    (b0 ^ (b1 << 8u32) ^ (b2 << 16u32) ^ (b3 << 24u32)) ^ index
}

/// The sequence `s` with positions `i` and `j` exchanged.
pub open spec fn spec_swap(s: Seq<Card>, i: int, j: int) -> Seq<Card> {
    s.update(i, s[j]).update(j, s[i])
}

/// Exchanging two positions keeps the multiset of cards and the length.
pub proof fn lemma_swap_preserves_multiset(s: Seq<Card>, i: int, j: int)
    requires
        0 <= i < s.len(),
        0 <= j < s.len(),
    ensures
        spec_swap(s, i, j).to_multiset() == s.to_multiset(),
        spec_swap(s, i, j).len() == s.len(),
{
    broadcast use vstd::seq_lib::group_to_multiset_ensures;
    broadcast use vstd::multiset::group_multiset_axioms;
    broadcast use vstd::multiset::group_multiset_properties;

    if i == j {
        assert(spec_swap(s, i, j) =~= s);
    } else {
        let s1 = s.update(i, s[j]);
        assert(s1.to_multiset() == s.to_multiset().insert(s[j]).remove(s[i]));
        assert(s1[j] == s[j]);
        assert(spec_swap(s, i, j).to_multiset() == s1.to_multiset().insert(s[i]).remove(s[j]));
        assert(s.contains(s[i]) && s.contains(s[j]));
        assert(s.to_multiset().count(s[i]) > 0 && s.to_multiset().count(s[j]) > 0);
        assert(spec_swap(s, i, j).to_multiset() =~= s.to_multiset());
    }
}

/// The swap index for step `i`: the derived scalar reduced modulo `i + 1`,
/// always in `0 ..= i`.
pub open spec fn spec_swap_index(seed: Seq<u8>, i: int) -> int {
    (spec_deterministic_random(seed, i as usize) as int) % (i + 1)
}

/// Deck state after the Fisher-Yates steps at indices 51 down to `i` have
/// run, starting from the canonical deck.
pub open spec fn spec_shuffle_from(seed: Seq<u8>, i: int) -> Seq<Card>
    decreases 52 - i,
{
    if 1 <= i < 52 {
        spec_swap(spec_shuffle_from(seed, i + 1), i, spec_swap_index(seed, i))
    } else {
        spec_create_deck()
    }
}

/// The full deterministic shuffle of the canonical deck under `seed`.
pub open spec fn spec_shuffle_deck(seed: Seq<u8>) -> Seq<Card> {
    spec_shuffle_from(seed, 1)
}

/// The shuffled deck at any stage keeps the canonical deck's multiset.
pub proof fn lemma_shuffle_from_multiset(seed: Seq<u8>, i: int)
    ensures
        spec_shuffle_from(seed, i).to_multiset() == spec_create_deck().to_multiset(),
        spec_shuffle_from(seed, i).len() == 52,
    decreases 52 - i,
{
    if 1 <= i < 52 {
        lemma_shuffle_from_multiset(seed, i + 1);
        let prev = spec_shuffle_from(seed, i + 1);
        let j = spec_swap_index(seed, i);
        assert(0 <= j <= i) by {
            assert(spec_deterministic_random(seed, i as usize) as int >= 0);
        }
        lemma_swap_preserves_multiset(prev, i, j);
    }
}

/// Deterministically permutes the canonical deck from a 256-bit seed.
/// The same seed always yields the byte-identical deck, and the result is
/// always a permutation of the 52 canonical cards.
pub fn shuffle_deck(seed: [u8; 32]) -> (deck: Vec<Card>)
    ensures
        deck@ == spec_shuffle_deck(seed@),
        deck@.len() == 52,
        deck@.to_multiset() == spec_create_deck().to_multiset(),
{
    let mut deck = create_deck();
    let mut i: usize = 51;
    while i >= 1
        invariant
            0 <= i <= 51,
            deck@ == spec_shuffle_from(seed@, i + 1),
            deck@.len() == 52,
        decreases i,
    {
        let j = deterministic_random(&seed, i) % (i + 1);
        let ci = deck[i];
        let cj = deck[j];
        deck.set(i, cj);
        deck.set(j, ci);
        proof {
            assert(deck@ == spec_swap(spec_shuffle_from(seed@, i + 1), i as int, j as int));
            assert(j as int == spec_swap_index(seed@, i as int));
            assert(deck@ == spec_shuffle_from(seed@, i as int));
        }
        i = i - 1;
    }
    proof {
        lemma_shuffle_from_multiset(seed@, 1);
    }
    deck
}

/// Shuffling is deterministic: two decks derived from the same seed are
/// byte-identical.
pub proof fn lemma_shuffle_deterministic(seed: Seq<u8>, d1: Seq<Card>, d2: Seq<Card>)
    requires
        d1 == spec_shuffle_deck(seed),
        d2 == spec_shuffle_deck(seed),
    ensures
        d1 == d2,
{
}

/// For every seed, the shuffled deck holds exactly the 52 cards of the
/// canonical deck, each exactly once.
pub proof fn lemma_shuffle_is_permutation(seed: Seq<u8>)
    ensures
        spec_shuffle_deck(seed).len() == 52,
        forall|c: Card| spec_shuffle_deck(seed).to_multiset().count(c) == 1,
{
    lemma_shuffle_from_multiset(seed, 1);
    lemma_create_deck_each_card_once();
}

} // verus!
