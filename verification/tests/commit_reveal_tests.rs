use poker_core::{Card, CommitReveal, Rank, Suit};

#[test]
fn test_commit_reveal() {
    let cards = [
        Card { rank: Rank::Ace, suit: Suit::Hearts },
        Card { rank: Rank::King, suit: Suit::Spades },
    ];
    let salt = "test_salt_123";

    let commitment = CommitReveal::commit_cards(&cards, salt);
    assert!(CommitReveal::verify_reveal(&commitment, &cards, salt));

    let wrong_cards = [
        Card { rank: Rank::Queen, suit: Suit::Hearts },
        Card { rank: Rank::Jack, suit: Suit::Spades },
    ];
    assert!(!CommitReveal::verify_reveal(&commitment, &wrong_cards, salt));
}

#[test]
fn commit_cards_digest_layout() {
    // Bytes 0..4 are the two cards' rank and suit values; the salt bytes
    // follow from offset 4; the rest stays zero.
    let cards = [
        Card { rank: Rank::Ace, suit: Suit::Hearts },
        Card { rank: Rank::King, suit: Suit::Spades },
    ];
    let digest = CommitReveal::commit_cards(&cards, "ab");
    let mut expected = vec![0u8; 32];
    expected[0] = 14; // Ace
    expected[1] = 0; // Hearts
    expected[2] = 13; // King
    expected[3] = 3; // Spades
    expected[4] = b'a';
    expected[5] = b'b';
    assert_eq!(digest, expected);
}

#[test]
fn commit_cards_deterministic() {
    let cards = [
        Card { rank: Rank::Seven, suit: Suit::Clubs },
        Card { rank: Rank::Two, suit: Suit::Diamonds },
    ];
    let d1 = CommitReveal::commit_cards(&cards, "some salt");
    let d2 = CommitReveal::commit_cards(&cards, "some salt");
    assert_eq!(d1, d2);
}

#[test]
fn commit_cards_is_order_sensitive() {
    let ab = [
        Card { rank: Rank::Ace, suit: Suit::Hearts },
        Card { rank: Rank::King, suit: Suit::Spades },
    ];
    let ba = [
        Card { rank: Rank::King, suit: Suit::Spades },
        Card { rank: Rank::Ace, suit: Suit::Hearts },
    ];
    let salt = "s";
    assert_ne!(CommitReveal::commit_cards(&ab, salt), CommitReveal::commit_cards(&ba, salt));
    assert!(!CommitReveal::verify_reveal(&CommitReveal::commit_cards(&ab, salt), &ba, salt));
}

#[test]
fn commit_cards_ignores_salt_past_28_bytes() {
    let cards = [
        Card { rank: Rank::Three, suit: Suit::Hearts },
        Card { rank: Rank::Four, suit: Suit::Clubs },
    ];
    let long_a = "0123456789abcdefghijklmnopqrXXXX";
    let long_b = "0123456789abcdefghijklmnopqrYYYY";
    // The two salts agree on their first 28 bytes, so the digests agree.
    assert_eq!(
        CommitReveal::commit_cards(&cards, long_a),
        CommitReveal::commit_cards(&cards, long_b)
    );
}

#[test]
fn commit_deck_layout_and_order_sensitivity() {
    let a = Card { rank: Rank::Ace, suit: Suit::Hearts };
    let b = Card { rank: Rank::King, suit: Suit::Spades };

    // One card: rank value at byte 0, suit value at byte 1.
    let single = CommitReveal::commit_deck(&vec![a]);
    let mut expected = vec![0u8; 32];
    expected[0] = 14;
    expected[1] = 0;
    assert_eq!(single, expected);

    // Two distinct cards in opposite orders give different digests.
    let d_ab = CommitReveal::commit_deck(&vec![a, b]);
    let d_ba = CommitReveal::commit_deck(&vec![b, a]);
    assert_ne!(d_ab, d_ba);

    // Same order, same digest.
    assert_eq!(d_ab, CommitReveal::commit_deck(&vec![a, b]));
}

#[test]
fn generate_salt_is_nonempty_hex() {
    let salt = CommitReveal::generate_salt();
    assert!(!salt.is_empty());
    for c in salt.chars() {
        assert!(c.is_ascii_hexdigit() && !c.is_ascii_uppercase());
    }
}

#[test]
fn hex_string_renders_lowercase_hex() {
    assert_eq!(poker_core::commit_reveal::hex_string(0), "0");
    assert_eq!(poker_core::commit_reveal::hex_string(10), "a");
    assert_eq!(poker_core::commit_reveal::hex_string(255), "ff");
    assert_eq!(poker_core::commit_reveal::hex_string(0x1234_5678_9abc_def0), "123456789abcdef0");
}
