use poker_core::deck::{create_deck, deterministic_random, shuffle_deck};
use poker_core::{Card, Rank, Suit};

#[test]
fn create_deck_has_52_cards_in_suit_major_order() {
    let deck = create_deck();
    assert_eq!(deck.len(), 52);
    assert_eq!(deck[0], Card { rank: Rank::Two, suit: Suit::Hearts });
    assert_eq!(deck[12], Card { rank: Rank::Ace, suit: Suit::Hearts });
    assert_eq!(deck[13], Card { rank: Rank::Two, suit: Suit::Diamonds });
    assert_eq!(deck[51], Card { rank: Rank::Ace, suit: Suit::Spades });
}

#[test]
fn create_deck_has_every_card_exactly_once() {
    let deck = create_deck();
    for suit in [Suit::Hearts, Suit::Diamonds, Suit::Clubs, Suit::Spades] {
        for rank in [
            Rank::Two,
            Rank::Three,
            Rank::Four,
            Rank::Five,
            Rank::Six,
            Rank::Seven,
            Rank::Eight,
            Rank::Nine,
            Rank::Ten,
            Rank::Jack,
            Rank::Queen,
            Rank::King,
            Rank::Ace,
        ] {
            let wanted = Card { rank, suit };
            assert_eq!(deck.iter().filter(|c| **c == wanted).count(), 1);
        }
    }
}

#[test]
fn shuffle_same_seed_is_byte_identical() {
    let seed = [7u8; 32];
    assert_eq!(shuffle_deck(seed), shuffle_deck(seed));
}

#[test]
fn shuffle_is_a_permutation_for_various_seeds() {
    let canonical = create_deck();
    for seed_byte in [0u8, 1, 42, 200, 255] {
        let mut seed = [0u8; 32];
        seed[0] = seed_byte;
        seed[1] = seed_byte.wrapping_mul(3);
        let shuffled = shuffle_deck(seed);
        assert_eq!(shuffled.len(), 52);
        for c in &canonical {
            assert_eq!(shuffled.iter().filter(|x| **x == *c).count(), 1);
        }
    }
}

#[test]
fn shuffle_with_zero_seed_swaps_each_index_with_itself() {
    // With an all-zero seed the derived scalar is the index itself, and
    // index mod (index + 1) picks the index again: every swap is a no-op.
    assert_eq!(shuffle_deck([0u8; 32]), create_deck());
}

#[test]
fn shuffle_with_nonzero_seed_moves_cards() {
    let mut seed = [0u8; 32];
    seed[0] = 1;
    assert_ne!(shuffle_deck(seed), create_deck());
}

#[test]
fn deterministic_random_folds_first_four_seed_bytes() {
    let mut seed = [0u8; 32];
    seed[0] = 0x11;
    seed[1] = 0x22;
    seed[2] = 0x33;
    seed[3] = 0x44;
    // Later bytes do not matter.
    seed[4] = 0xff;
    let expected = 0x4433_2211usize;
    assert_eq!(deterministic_random(&seed, 0), expected);
    assert_eq!(deterministic_random(&seed, 5), expected ^ 5);
}
