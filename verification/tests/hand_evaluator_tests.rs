use poker_core::{Card, HandEvaluator, HandRank, Rank, Suit};

fn card(rank: Rank, suit: Suit) -> Card {
    Card { rank, suit }
}

fn hand(specs: &[(Rank, Suit)]) -> Vec<Card> {
    specs.iter().map(|&(r, s)| card(r, s)).collect()
}

#[test]
fn royal_flush_is_recognized() {
    let h = hand(&[
        (Rank::Ace, Suit::Spades),
        (Rank::King, Suit::Spades),
        (Rank::Queen, Suit::Spades),
        (Rank::Jack, Suit::Spades),
        (Rank::Ten, Suit::Spades),
    ]);
    assert_eq!(HandEvaluator::evaluate_best_hand(&h), HandRank::RoyalFlush);
}

#[test]
fn straight_flush_is_recognized() {
    let h = hand(&[
        (Rank::Nine, Suit::Hearts),
        (Rank::Eight, Suit::Hearts),
        (Rank::Seven, Suit::Hearts),
        (Rank::Six, Suit::Hearts),
        (Rank::Five, Suit::Hearts),
    ]);
    assert_eq!(HandEvaluator::evaluate_best_hand(&h), HandRank::StraightFlush(Rank::Nine));
}

#[test]
fn four_of_a_kind_carries_quad_rank_and_kicker() {
    let h = hand(&[
        (Rank::Four, Suit::Hearts),
        (Rank::Four, Suit::Diamonds),
        (Rank::Four, Suit::Clubs),
        (Rank::Four, Suit::Spades),
        (Rank::Two, Suit::Hearts),
    ]);
    assert_eq!(
        HandEvaluator::evaluate_best_hand(&h),
        HandRank::FourOfAKind(Rank::Four, Rank::Two)
    );
}

#[test]
fn full_house_carries_trip_and_pair_ranks() {
    let h = hand(&[
        (Rank::Six, Suit::Hearts),
        (Rank::Six, Suit::Diamonds),
        (Rank::Six, Suit::Clubs),
        (Rank::Three, Suit::Spades),
        (Rank::Three, Suit::Hearts),
    ]);
    assert_eq!(
        HandEvaluator::evaluate_best_hand(&h),
        HandRank::FullHouse(Rank::Six, Rank::Three)
    );
}

#[test]
fn flush_carries_all_ranks_descending() {
    let h = hand(&[
        (Rank::Two, Suit::Clubs),
        (Rank::Jack, Suit::Clubs),
        (Rank::Seven, Suit::Clubs),
        (Rank::Five, Suit::Clubs),
        (Rank::King, Suit::Clubs),
    ]);
    assert_eq!(
        HandEvaluator::evaluate_best_hand(&h),
        HandRank::Flush(vec![Rank::King, Rank::Jack, Rank::Seven, Rank::Five, Rank::Two])
    );
}

#[test]
fn straight_is_recognized() {
    let h = hand(&[
        (Rank::Seven, Suit::Hearts),
        (Rank::Six, Suit::Clubs),
        (Rank::Five, Suit::Diamonds),
        (Rank::Four, Suit::Spades),
        (Rank::Three, Suit::Hearts),
    ]);
    assert_eq!(HandEvaluator::evaluate_best_hand(&h), HandRank::Straight(Rank::Seven));
}

#[test]
fn three_of_a_kind_carries_kickers_descending() {
    let h = hand(&[
        (Rank::Nine, Suit::Hearts),
        (Rank::Nine, Suit::Clubs),
        (Rank::Nine, Suit::Diamonds),
        (Rank::King, Suit::Spades),
        (Rank::Four, Suit::Hearts),
    ]);
    assert_eq!(
        HandEvaluator::evaluate_best_hand(&h),
        HandRank::ThreeOfAKind(Rank::Nine, vec![Rank::King, Rank::Four])
    );
}

#[test]
fn two_pair_carries_high_low_and_kicker() {
    let h = hand(&[
        (Rank::Ten, Suit::Hearts),
        (Rank::Four, Suit::Clubs),
        (Rank::Ten, Suit::Diamonds),
        (Rank::Queen, Suit::Spades),
        (Rank::Four, Suit::Hearts),
    ]);
    assert_eq!(
        HandEvaluator::evaluate_best_hand(&h),
        HandRank::TwoPair(Rank::Ten, Rank::Four, Rank::Queen)
    );
}

#[test]
fn one_pair_carries_kickers_descending() {
    let h = hand(&[
        (Rank::Eight, Suit::Hearts),
        (Rank::Ace, Suit::Clubs),
        (Rank::Eight, Suit::Diamonds),
        (Rank::Six, Suit::Spades),
        (Rank::Three, Suit::Hearts),
    ]);
    assert_eq!(
        HandEvaluator::evaluate_best_hand(&h),
        HandRank::OnePair(Rank::Eight, vec![Rank::Ace, Rank::Six, Rank::Three])
    );
}

#[test]
fn high_card_carries_all_ranks_descending() {
    let h = hand(&[
        (Rank::Two, Suit::Hearts),
        (Rank::Nine, Suit::Clubs),
        (Rank::King, Suit::Diamonds),
        (Rank::Five, Suit::Spades),
        (Rank::Jack, Suit::Hearts),
    ]);
    assert_eq!(
        HandEvaluator::evaluate_best_hand(&h),
        HandRank::HighCard(vec![Rank::King, Rank::Jack, Rank::Nine, Rank::Five, Rank::Two])
    );
}

#[test]
fn hand_categories_order_from_royal_flush_down() {
    let hands = [
        hand(&[
            (Rank::Ace, Suit::Spades),
            (Rank::King, Suit::Spades),
            (Rank::Queen, Suit::Spades),
            (Rank::Jack, Suit::Spades),
            (Rank::Ten, Suit::Spades),
        ]),
        hand(&[
            (Rank::Nine, Suit::Hearts),
            (Rank::Eight, Suit::Hearts),
            (Rank::Seven, Suit::Hearts),
            (Rank::Six, Suit::Hearts),
            (Rank::Five, Suit::Hearts),
        ]),
        hand(&[
            (Rank::Four, Suit::Hearts),
            (Rank::Four, Suit::Diamonds),
            (Rank::Four, Suit::Clubs),
            (Rank::Four, Suit::Spades),
            (Rank::Two, Suit::Hearts),
        ]),
        hand(&[
            (Rank::Six, Suit::Hearts),
            (Rank::Six, Suit::Diamonds),
            (Rank::Six, Suit::Clubs),
            (Rank::Three, Suit::Spades),
            (Rank::Three, Suit::Hearts),
        ]),
        hand(&[
            (Rank::Two, Suit::Clubs),
            (Rank::Jack, Suit::Clubs),
            (Rank::Seven, Suit::Clubs),
            (Rank::Five, Suit::Clubs),
            (Rank::King, Suit::Clubs),
        ]),
        hand(&[
            (Rank::Seven, Suit::Hearts),
            (Rank::Six, Suit::Clubs),
            (Rank::Five, Suit::Diamonds),
            (Rank::Four, Suit::Spades),
            (Rank::Three, Suit::Hearts),
        ]),
        hand(&[
            (Rank::Nine, Suit::Hearts),
            (Rank::Nine, Suit::Clubs),
            (Rank::Nine, Suit::Diamonds),
            (Rank::King, Suit::Spades),
            (Rank::Four, Suit::Hearts),
        ]),
        hand(&[
            (Rank::Ten, Suit::Hearts),
            (Rank::Four, Suit::Clubs),
            (Rank::Ten, Suit::Diamonds),
            (Rank::Queen, Suit::Spades),
            (Rank::Four, Suit::Hearts),
        ]),
        hand(&[
            (Rank::Eight, Suit::Hearts),
            (Rank::Ace, Suit::Clubs),
            (Rank::Eight, Suit::Diamonds),
            (Rank::Six, Suit::Spades),
            (Rank::Three, Suit::Hearts),
        ]),
        hand(&[
            (Rank::Two, Suit::Hearts),
            (Rank::Nine, Suit::Clubs),
            (Rank::King, Suit::Diamonds),
            (Rank::Five, Suit::Spades),
            (Rank::Jack, Suit::Hearts),
        ]),
    ];
    let ranks: Vec<HandRank> =
        hands.iter().map(|h| HandEvaluator::evaluate_best_hand(h)).collect();
    for i in 0..ranks.len() {
        for j in (i + 1)..ranks.len() {
            assert!(ranks[i].beats(&ranks[j]), "hand {} should beat hand {}", i, j);
            assert!(!ranks[j].beats(&ranks[i]));
        }
    }
}

#[test]
fn wheel_counts_as_five_high_straight() {
    let mixed = hand(&[
        (Rank::Ace, Suit::Hearts),
        (Rank::Five, Suit::Clubs),
        (Rank::Four, Suit::Diamonds),
        (Rank::Three, Suit::Spades),
        (Rank::Two, Suit::Hearts),
    ]);
    assert_eq!(HandEvaluator::evaluate_best_hand(&mixed), HandRank::Straight(Rank::Five));

    let six_high = hand(&[
        (Rank::Six, Suit::Hearts),
        (Rank::Five, Suit::Clubs),
        (Rank::Four, Suit::Diamonds),
        (Rank::Three, Suit::Spades),
        (Rank::Two, Suit::Hearts),
    ]);
    let six_high_rank = HandEvaluator::evaluate_best_hand(&six_high);
    assert_eq!(six_high_rank, HandRank::Straight(Rank::Six));
    assert!(six_high_rank.beats(&HandRank::Straight(Rank::Five)));
}

#[test]
fn suited_wheel_is_a_five_high_straight_flush_not_royal() {
    let suited = hand(&[
        (Rank::Ace, Suit::Diamonds),
        (Rank::Five, Suit::Diamonds),
        (Rank::Four, Suit::Diamonds),
        (Rank::Three, Suit::Diamonds),
        (Rank::Two, Suit::Diamonds),
    ]);
    assert_eq!(
        HandEvaluator::evaluate_best_hand(&suited),
        HandRank::StraightFlush(Rank::Five)
    );
}

#[test]
fn best_of_seven_picks_the_strongest_interpretation() {
    // Board holds two pair, the pocket holds a higher pair: the best five
    // cards are aces and kings with the nine kicker.
    let seven = hand(&[
        (Rank::Ace, Suit::Spades),
        (Rank::Ace, Suit::Hearts),
        (Rank::King, Suit::Diamonds),
        (Rank::King, Suit::Clubs),
        (Rank::Nine, Suit::Spades),
        (Rank::Nine, Suit::Hearts),
        (Rank::Two, Suit::Diamonds),
    ]);
    assert_eq!(
        HandEvaluator::evaluate_best_hand(&seven),
        HandRank::TwoPair(Rank::Ace, Rank::King, Rank::Nine)
    );
}

#[test]
fn best_of_seven_prefers_flush_over_straight() {
    let seven = hand(&[
        (Rank::Nine, Suit::Hearts),
        (Rank::Eight, Suit::Hearts),
        (Rank::Seven, Suit::Hearts),
        (Rank::Six, Suit::Spades),
        (Rank::Five, Suit::Clubs),
        (Rank::Two, Suit::Hearts),
        (Rank::King, Suit::Hearts),
    ]);
    assert_eq!(
        HandEvaluator::evaluate_best_hand(&seven),
        HandRank::Flush(vec![Rank::King, Rank::Nine, Rank::Eight, Rank::Seven, Rank::Two])
    );
}

#[test]
fn tiebreak_uses_descending_kicker_order_not_input_order() {
    let strong_kickers = hand(&[
        (Rank::Three, Suit::Hearts),
        (Rank::Queen, Suit::Clubs),
        (Rank::Ace, Suit::Diamonds),
        (Rank::Queen, Suit::Spades),
        (Rank::Seven, Suit::Hearts),
    ]);
    let weak_kickers = hand(&[
        (Rank::King, Suit::Hearts),
        (Rank::Queen, Suit::Hearts),
        (Rank::Jack, Suit::Spades),
        (Rank::Queen, Suit::Diamonds),
        (Rank::Ten, Suit::Clubs),
    ]);
    let strong = HandEvaluator::evaluate_best_hand(&strong_kickers);
    let weak = HandEvaluator::evaluate_best_hand(&weak_kickers);
    assert_eq!(strong, HandRank::OnePair(Rank::Queen, vec![Rank::Ace, Rank::Seven, Rank::Three]));
    assert_eq!(weak, HandRank::OnePair(Rank::Queen, vec![Rank::King, Rank::Jack, Rank::Ten]));
    assert!(strong.beats(&weak));
    assert!(!weak.beats(&strong));
}

#[test]
fn evaluate_best_hand_ignores_input_order() {
    let forward = hand(&[
        (Rank::Ace, Suit::Spades),
        (Rank::Ace, Suit::Hearts),
        (Rank::King, Suit::Diamonds),
        (Rank::King, Suit::Clubs),
        (Rank::Nine, Suit::Spades),
        (Rank::Nine, Suit::Hearts),
        (Rank::Two, Suit::Diamonds),
    ]);
    let mut backward = forward.clone();
    backward.reverse();
    assert_eq!(
        HandEvaluator::evaluate_best_hand(&forward),
        HandEvaluator::evaluate_best_hand(&backward)
    );
}

#[test]
fn get_combinations_enumerates_all_five_card_choices() {
    let seven = hand(&[
        (Rank::Ace, Suit::Spades),
        (Rank::King, Suit::Spades),
        (Rank::Queen, Suit::Spades),
        (Rank::Jack, Suit::Spades),
        (Rank::Ten, Suit::Spades),
        (Rank::Nine, Suit::Spades),
        (Rank::Eight, Suit::Spades),
    ]);
    let combos = HandEvaluator::get_combinations(&seven, 5);
    assert_eq!(combos.len(), 21);
    for combo in &combos {
        assert_eq!(combo.len(), 5);
    }
}

#[test]
fn count_ranks_builds_the_value_histogram() {
    let h = hand(&[
        (Rank::Four, Suit::Hearts),
        (Rank::Four, Suit::Diamonds),
        (Rank::Ace, Suit::Clubs),
        (Rank::Two, Suit::Spades),
        (Rank::Two, Suit::Hearts),
    ]);
    let counts = HandEvaluator::count_ranks(&h);
    assert_eq!(counts.len(), 15);
    assert_eq!(counts[4], 2);
    assert_eq!(counts[14], 1);
    assert_eq!(counts[2], 2);
    assert_eq!(counts[7], 0);
}

#[test]
fn exactly_five_cards_still_evaluates() {
    let h = hand(&[
        (Rank::Two, Suit::Hearts),
        (Rank::Four, Suit::Clubs),
        (Rank::Six, Suit::Diamonds),
        (Rank::Eight, Suit::Spades),
        (Rank::Ten, Suit::Hearts),
    ]);
    assert_eq!(
        HandEvaluator::evaluate_best_hand(&h),
        HandRank::HighCard(vec![Rank::Ten, Rank::Eight, Rank::Six, Rank::Four, Rank::Two])
    );
}
