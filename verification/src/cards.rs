//! Card values and the total order over evaluated hand strengths.

use vstd::prelude::*;

verus! {

/// Rank of a card on the thirteen-value scale Two (2) .. Ace (14, highest).
#[derive(Debug, Clone, Copy, PartialEq, Eq, Hash, PartialOrd, Ord, Structural)]
pub enum Rank {
    Two,
    Three,
    Four,
    Five,
    Six,
    Seven,
    Eight,
    Nine,
    Ten,
    Jack,
    Queen,
    King,
    Ace,
}

/// One of the four unordered suit categories.
#[derive(Debug, Clone, Copy, PartialEq, Eq, Hash, Structural)]
pub enum Suit {
    Hearts,
    Diamonds,
    Clubs,
    Spades,
}

impl Rank {
    /// Numeric value of the rank: Two = 2 up to Ace = 14.
    pub open spec fn value(self) -> u8 {
        match self {
            Rank::Two => 2,
            Rank::Three => 3,
            Rank::Four => 4,
            Rank::Five => 5,
            Rank::Six => 6,
            Rank::Seven => 7,
            Rank::Eight => 8,
            Rank::Nine => 9,
            Rank::Ten => 10,
            Rank::Jack => 11,
            Rank::Queen => 12,
            Rank::King => 13,
            Rank::Ace => 14,
        }
    }

    /// Executable form of [`Rank::value`].
    pub fn as_u8(self) -> (v: u8)
        ensures
            v == self.value(),
    {
        match self {
            Rank::Two => 2,
            Rank::Three => 3,
            Rank::Four => 4,
            Rank::Five => 5,
            Rank::Six => 6,
            Rank::Seven => 7,
            Rank::Eight => 8,
            Rank::Nine => 9,
            Rank::Ten => 10,
            Rank::Jack => 11,
            Rank::Queen => 12,
            Rank::King => 13,
            Rank::Ace => 14,
        }
    }
}

/// The rank whose value is `v`, for `v` in 2..=14 (other inputs map to Ace).
pub open spec fn rank_of_value(v: u8) -> Rank {
    if v == 2 {
        Rank::Two
    } else if v == 3 {
        Rank::Three
    } else if v == 4 {
        Rank::Four
    } else if v == 5 {
        Rank::Five
    } else if v == 6 {
        Rank::Six
    } else if v == 7 {
        Rank::Seven
    } else if v == 8 {
        Rank::Eight
    } else if v == 9 {
        Rank::Nine
    } else if v == 10 {
        Rank::Ten
    } else if v == 11 {
        Rank::Jack
    } else if v == 12 {
        Rank::Queen
    } else if v == 13 {
        Rank::King
    } else {
        Rank::Ace
    }
}

/// Executable form of [`rank_of_value`].
pub fn rank_from_value(v: u8) -> (r: Rank)
    ensures
        r == rank_of_value(v),
{
    if v == 2 {
        Rank::Two
    } else if v == 3 {
        Rank::Three
    } else if v == 4 {
        Rank::Four
    } else if v == 5 {
        Rank::Five
    } else if v == 6 {
        Rank::Six
    } else if v == 7 {
        Rank::Seven
    } else if v == 8 {
        Rank::Eight
    } else if v == 9 {
        Rank::Nine
    } else if v == 10 {
        Rank::Ten
    } else if v == 11 {
        Rank::Jack
    } else if v == 12 {
        Rank::Queen
    } else if v == 13 {
        Rank::King
    } else {
        Rank::Ace
    }
}

/// `value` and `rank_of_value` are inverse on the 2..=14 scale.
pub proof fn lemma_rank_value_bijective()
    ensures
        forall|r: Rank| rank_of_value(#[trigger] r.value()) == r,
        forall|r: Rank| 2 <= #[trigger] r.value() <= 14,
{
}

/// `value` and `suit_of_value` are inverse on the 0..=3 scale.
pub proof fn lemma_suit_value_bijective()
    ensures
        forall|s: Suit| suit_of_value(#[trigger] s.value()) == s,
        forall|s: Suit| #[trigger] s.value() <= 3,
{
}

impl Suit {
    /// Numeric tag of the suit: Hearts = 0, Diamonds = 1, Clubs = 2, Spades = 3.
    pub open spec fn value(self) -> u8 {
        match self {
            Suit::Hearts => 0,
            Suit::Diamonds => 1,
            Suit::Clubs => 2,
            Suit::Spades => 3,
        }
    }

    /// Executable form of [`Suit::value`].
    pub fn as_u8(self) -> (v: u8)
        ensures
            v == self.value(),
    {
        match self {
            Suit::Hearts => 0,
            Suit::Diamonds => 1,
            Suit::Clubs => 2,
            Suit::Spades => 3,
        }
    }
}

/// The suit whose tag is `v`, for `v` in 0..=3 (other inputs map to Spades).
pub open spec fn suit_of_value(v: u8) -> Suit {
    if v == 0 {
        Suit::Hearts
    } else if v == 1 {
        Suit::Diamonds
    } else if v == 2 {
        Suit::Clubs
    } else {
        Suit::Spades
    }
}

/// Executable form of [`suit_of_value`].
pub fn suit_from_value(v: u8) -> (s: Suit)
    ensures
        s == suit_of_value(v),
{
    if v == 0 {
        Suit::Hearts
    } else if v == 1 {
        Suit::Diamonds
    } else if v == 2 {
        Suit::Clubs
    } else {
        Suit::Spades
    }
}

/// A card value: (rank, suit). Cards have no identity beyond this pair.
#[derive(Debug, Clone, Copy, PartialEq, Eq, Hash, Structural)]
pub struct Card {
    pub rank: Rank,
    pub suit: Suit,
}

/// The strength of an evaluated five-card hand: one of ten mutually exclusive
/// categories, each carrying the ranks that break ties within the category.
/// Categories are ordered weakest to strongest as listed here.
#[derive(Debug, Clone, PartialEq, Eq)]
pub enum HandRank {
    HighCard(Vec<Rank>),
    OnePair(Rank, Vec<Rank>),
    TwoPair(Rank, Rank, Rank),
    ThreeOfAKind(Rank, Vec<Rank>),
    Straight(Rank),
    Flush(Vec<Rank>),
    FullHouse(Rank, Rank),
    FourOfAKind(Rank, Rank),
    StraightFlush(Rank),
    RoyalFlush,
}

/// Mathematical model of a [`HandRank`]: the same ten categories with the
/// carried ranks abstracted to their numeric values.
pub enum HandRankView {
    HighCard(Seq<u8>),
    OnePair(u8, Seq<u8>),
    TwoPair(u8, u8, u8),
    ThreeOfAKind(u8, Seq<u8>),
    Straight(u8),
    Flush(Seq<u8>),
    FullHouse(u8, u8),
    FourOfAKind(u8, u8),
    StraightFlush(u8),
    RoyalFlush,
}

/// The numeric values of a sequence of ranks.
pub open spec fn rank_values(s: Seq<Rank>) -> Seq<u8> {
    s.map_values(|r: Rank| r.value())
}

impl View for HandRank {
    type V = HandRankView;

    open spec fn view(&self) -> HandRankView {
        match self {
            HandRank::HighCard(ks) => HandRankView::HighCard(rank_values(ks@)),
            HandRank::OnePair(p, ks) => HandRankView::OnePair(p.value(), rank_values(ks@)),
            HandRank::TwoPair(hp, lp, k) => HandRankView::TwoPair(
                hp.value(),
                lp.value(),
                k.value(),
            ),
            HandRank::ThreeOfAKind(t, ks) => HandRankView::ThreeOfAKind(
                t.value(),
                rank_values(ks@),
            ),
            HandRank::Straight(hi) => HandRankView::Straight(hi.value()),
            HandRank::Flush(ks) => HandRankView::Flush(rank_values(ks@)),
            HandRank::FullHouse(t, p) => HandRankView::FullHouse(t.value(), p.value()),
            HandRank::FourOfAKind(q, k) => HandRankView::FourOfAKind(q.value(), k.value()),
            HandRank::StraightFlush(hi) => HandRankView::StraightFlush(hi.value()),
            HandRank::RoyalFlush => HandRankView::RoyalFlush,
        }
    }
}

/// Index of a hand's category on the 0 (weakest) .. 9 (strongest) scale.
pub open spec fn category(h: HandRankView) -> int {
    match h {
        HandRankView::HighCard(_) => 0,
        HandRankView::OnePair(_, _) => 1,
        HandRankView::TwoPair(_, _, _) => 2,
        HandRankView::ThreeOfAKind(_, _) => 3,
        HandRankView::Straight(_) => 4,
        HandRankView::Flush(_) => 5,
        HandRankView::FullHouse(_, _) => 6,
        HandRankView::FourOfAKind(_, _) => 7,
        HandRankView::StraightFlush(_) => 8,
        HandRankView::RoyalFlush => 9,
    }
}

/// The rank values that break ties between two hands of the same category,
/// most significant first.
pub open spec fn tiebreak(h: HandRankView) -> Seq<u8> {
    match h {
        HandRankView::HighCard(ks) => ks,
        HandRankView::OnePair(p, ks) => seq![p] + ks,
        HandRankView::TwoPair(hp, lp, k) => seq![hp, lp, k],
        HandRankView::ThreeOfAKind(t, ks) => seq![t] + ks,
        HandRankView::Straight(hi) => seq![hi],
        HandRankView::Flush(ks) => ks,
        HandRankView::FullHouse(t, p) => seq![t, p],
        HandRankView::FourOfAKind(q, k) => seq![q, k],
        HandRankView::StraightFlush(hi) => seq![hi],
        HandRankView::RoyalFlush => Seq::empty(),
    }
}

/// Strict lexicographic order over value sequences; a proper prefix sorts
/// below any extension of it.
pub open spec fn lex_lt(a: Seq<u8>, b: Seq<u8>) -> bool
    decreases a.len(), b.len(),
{
    if b.len() == 0 {
        false
    } else if a.len() == 0 {
        true
    } else {
        a[0] < b[0] || (a[0] == b[0] && lex_lt(a.drop_first(), b.drop_first()))
    }
}

/// The total order over hand strengths: category first, then lexicographic
/// comparison of the carried tie-break values.
pub open spec fn hand_lt(a: HandRankView, b: HandRankView) -> bool {
    category(a) < category(b) || (category(a) == category(b) && lex_lt(tiebreak(a), tiebreak(b)))
}

/// `lex_lt` is irreflexive.
pub proof fn lemma_lex_lt_irreflexive(a: Seq<u8>)
    ensures
        !lex_lt(a, a),
    decreases a.len(),
{
    if a.len() > 0 {
        lemma_lex_lt_irreflexive(a.drop_first());
    }
}

/// `lex_lt` is transitive.
pub proof fn lemma_lex_lt_transitive(a: Seq<u8>, b: Seq<u8>, c: Seq<u8>)
    requires
        lex_lt(a, b),
        lex_lt(b, c),
    ensures
        lex_lt(a, c),
    decreases a.len(), b.len(), c.len(),
{
    if a.len() > 0 && b.len() > 0 && c.len() > 0 {
        if a[0] == b[0] && b[0] == c[0] {
            lemma_lex_lt_transitive(a.drop_first(), b.drop_first(), c.drop_first());
        }
    }
}

/// `lex_lt` is total: two sequences are equal or ordered one way.
pub proof fn lemma_lex_lt_total(a: Seq<u8>, b: Seq<u8>)
    ensures
        a == b || lex_lt(a, b) || lex_lt(b, a),
    decreases a.len(), b.len(),
{
    if a.len() > 0 && b.len() > 0 && a[0] == b[0] {
        lemma_lex_lt_total(a.drop_first(), b.drop_first());
        if a.drop_first() == b.drop_first() {
            assert forall|i: int| 0 <= i < a.len() implies a[i] == b[i] by {
                if i > 0 {
                    assert(a[i] == a.drop_first()[i - 1]);
                    assert(b[i] == b.drop_first()[i - 1]);
                }
            }
            assert(a =~= b);
        }
    } else if a.len() == 0 && b.len() == 0 {
        assert(a =~= b);
    }
}

/// The hand order is irreflexive.
pub proof fn lemma_hand_lt_irreflexive(a: HandRankView)
    ensures
        !hand_lt(a, a),
{
    lemma_lex_lt_irreflexive(tiebreak(a));
}

/// The hand order is transitive.
pub proof fn lemma_hand_lt_transitive(a: HandRankView, b: HandRankView, c: HandRankView)
    requires
        hand_lt(a, b),
        hand_lt(b, c),
    ensures
        hand_lt(a, c),
{
    if category(a) == category(b) && category(b) == category(c) {
        lemma_lex_lt_transitive(tiebreak(a), tiebreak(b), tiebreak(c));
    }
}

/// A hand of a stronger category beats any hand of a weaker category,
/// whatever either carries as tie-break values.
pub proof fn lemma_category_order_dominates(a: HandRankView, b: HandRankView)
    requires
        category(a) < category(b),
    ensures
        hand_lt(a, b),
        !hand_lt(b, a),
{
}

/// Two hands of the same category compare by descending lexicographic order
/// of their tie-break values alone, independent of how they were produced.
pub proof fn lemma_same_category_kicker_order(a: HandRankView, b: HandRankView)
    requires
        category(a) == category(b),
    ensures
        hand_lt(a, b) == lex_lt(tiebreak(a), tiebreak(b)),
        tiebreak(a) == tiebreak(b) ==> !hand_lt(a, b) && !hand_lt(b, a),
{
    if tiebreak(a) == tiebreak(b) {
        lemma_lex_lt_irreflexive(tiebreak(a));
    }
}

/// Two hands of the same category with equal tie-break values are the same
/// hand: the category and the carried ranks determine the value completely.
pub proof fn lemma_hand_lt_connected(a: HandRankView, b: HandRankView)
    requires
        category(a) == category(b),
        tiebreak(a) == tiebreak(b),
    ensures
        a == b,
{
    match a {
        HandRankView::HighCard(_) => {
            assert(a matches HandRankView::HighCard(_) && b matches HandRankView::HighCard(_));
        },
        HandRankView::OnePair(p1, ks1) => {
            match b {
                HandRankView::OnePair(p2, ks2) => {
                    lemma_cons_seq_injective(p1, ks1, p2, ks2);
                },
                _ => {
                    assert(false);
                },
            }
        },
        HandRankView::TwoPair(h1, l1, k1) => {
            match b {
                HandRankView::TwoPair(h2, l2, k2) => {
                    let t = seq![h1, l1, k1];
                    assert(t[0] == h1 && t[1] == l1 && t[2] == k1);
                    let u = seq![h2, l2, k2];
                    assert(u[0] == h2 && u[1] == l2 && u[2] == k2);
                },
                _ => {
                    assert(false);
                },
            }
        },
        HandRankView::ThreeOfAKind(t1, ks1) => {
            match b {
                HandRankView::ThreeOfAKind(t2, ks2) => {
                    lemma_cons_seq_injective(t1, ks1, t2, ks2);
                },
                _ => {
                    assert(false);
                },
            }
        },
        HandRankView::Straight(x1) => {
            match b {
                HandRankView::Straight(x2) => {
                    assert(seq![x1][0] == x1 && seq![x2][0] == x2);
                },
                _ => {
                    assert(false);
                },
            }
        },
        HandRankView::Flush(_) => {
            assert(a matches HandRankView::Flush(_) && b matches HandRankView::Flush(_));
        },
        HandRankView::FullHouse(t1, p1) => {
            match b {
                HandRankView::FullHouse(t2, p2) => {
                    let t = seq![t1, p1];
                    assert(t[0] == t1 && t[1] == p1);
                    let u = seq![t2, p2];
                    assert(u[0] == t2 && u[1] == p2);
                },
                _ => {
                    assert(false);
                },
            }
        },
        HandRankView::FourOfAKind(q1, k1) => {
            match b {
                HandRankView::FourOfAKind(q2, k2) => {
                    let t = seq![q1, k1];
                    assert(t[0] == q1 && t[1] == k1);
                    let u = seq![q2, k2];
                    assert(u[0] == q2 && u[1] == k2);
                },
                _ => {
                    assert(false);
                },
            }
        },
        HandRankView::StraightFlush(x1) => {
            match b {
                HandRankView::StraightFlush(x2) => {
                    assert(seq![x1][0] == x1 && seq![x2][0] == x2);
                },
                _ => {
                    assert(false);
                },
            }
        },
        HandRankView::RoyalFlush => {
            assert(b matches HandRankView::RoyalFlush);
        },
    }
}

/// A leading value plus a tail sequence is determined by their
/// concatenation.
proof fn lemma_cons_seq_injective(p1: u8, ks1: Seq<u8>, p2: u8, ks2: Seq<u8>)
    requires
        seq![p1] + ks1 == seq![p2] + ks2,
    ensures
        p1 == p2,
        ks1 == ks2,
{
    let t = seq![p1] + ks1;
    let u = seq![p2] + ks2;
    assert(t.len() == u.len());
    assert(ks1.len() == ks2.len());
    assert(t[0] == p1 && u[0] == p2);
    assert forall|i: int| 0 <= i < ks1.len() implies ks1[i] == ks2[i] by {
        assert(t[i + 1] == ks1[i]);
        assert(u[i + 1] == ks2[i]);
    }
    assert(ks1 =~= ks2);
}

/// The hand order is total: two hand values are equal or strictly ordered
/// one way.
pub proof fn lemma_hand_lt_trichotomy(a: HandRankView, b: HandRankView)
    ensures
        a == b || hand_lt(a, b) || hand_lt(b, a),
{
    if category(a) == category(b) {
        lemma_lex_lt_total(tiebreak(a), tiebreak(b));
        if tiebreak(a) == tiebreak(b) {
            lemma_hand_lt_connected(a, b);
        }
    }
}

impl HandRank {
    /// Executable category index; agrees with [`category`] on the view.
    pub fn category_index(&self) -> (c: u8)
        ensures
            c as int == category(self@),
    {
        match self {
            HandRank::HighCard(_) => 0,
            HandRank::OnePair(_, _) => 1,
            HandRank::TwoPair(_, _, _) => 2,
            HandRank::ThreeOfAKind(_, _) => 3,
            HandRank::Straight(_) => 4,
            HandRank::Flush(_) => 5,
            HandRank::FullHouse(_, _) => 6,
            HandRank::FourOfAKind(_, _) => 7,
            HandRank::StraightFlush(_) => 8,
            HandRank::RoyalFlush => 9,
        }
    }

    /// Executable tie-break values; agrees with [`tiebreak`] on the view.
    pub fn tiebreak_values(&self) -> (v: Vec<u8>)
        ensures
            v@ == tiebreak(self@),
    {
        match self {
            HandRank::HighCard(ks) => rank_vec_values(ks),
            HandRank::OnePair(p, ks) => {
                let mut v = rank_vec_values(ks);
                v.insert(0, p.as_u8());
                assert(v@ =~= seq![p.value()] + rank_values(ks@));
                v
            },
            HandRank::TwoPair(hp, lp, k) => {
                let mut v: Vec<u8> = Vec::new();
                v.push(hp.as_u8());
                v.push(lp.as_u8());
                v.push(k.as_u8());
                assert(v@ =~= seq![hp.value(), lp.value(), k.value()]);
                v
            },
            HandRank::ThreeOfAKind(t, ks) => {
                let mut v = rank_vec_values(ks);
                v.insert(0, t.as_u8());
                assert(v@ =~= seq![t.value()] + rank_values(ks@));
                v
            },
            HandRank::Straight(hi) => {
                let mut v: Vec<u8> = Vec::new();
                v.push(hi.as_u8());
                assert(v@ =~= seq![hi.value()]);
                v
            },
            HandRank::Flush(ks) => rank_vec_values(ks),
            HandRank::FullHouse(t, p) => {
                let mut v: Vec<u8> = Vec::new();
                v.push(t.as_u8());
                v.push(p.as_u8());
                assert(v@ =~= seq![t.value(), p.value()]);
                v
            },
            HandRank::FourOfAKind(q, k) => {
                let mut v: Vec<u8> = Vec::new();
                v.push(q.as_u8());
                v.push(k.as_u8());
                assert(v@ =~= seq![q.value(), k.value()]);
                v
            },
            HandRank::StraightFlush(hi) => {
                let mut v: Vec<u8> = Vec::new();
                v.push(hi.as_u8());
                assert(v@ =~= seq![hi.value()]);
                v
            },
            HandRank::RoyalFlush => Vec::new(),
        }
    }

    /// True iff `self` is strictly stronger than `other` in the total order.
    pub fn beats(&self, other: &HandRank) -> (r: bool)
        ensures
            r == hand_lt(other@, self@),
    {
        let ca = self.category_index();
        let cb = other.category_index();
        if cb < ca {
            true
        } else if ca < cb {
            false
        } else {
            let ta = self.tiebreak_values();
            let tb = other.tiebreak_values();
            lex_less(&tb, &ta)
        }
    }
}

/// Numeric values of a vector of ranks, in order.
pub fn rank_vec_values(ks: &Vec<Rank>) -> (v: Vec<u8>)
    ensures
        v@ == rank_values(ks@),
{
    let mut v: Vec<u8> = Vec::new();
    let mut i: usize = 0;
    while i < ks.len()
        invariant
            0 <= i <= ks.len(),
            v@ =~= rank_values(ks@.take(i as int)),
        decreases ks.len() - i,
    {
        v.push(ks[i].as_u8());
        assert(rank_values(ks@.take(i + 1 as int)) =~= rank_values(ks@.take(i as int)).push(
            ks@[i as int].value(),
        ));
        i = i + 1;
    }
    assert(ks@.take(ks@.len() as int) =~= ks@);
    v
}

/// If two sequences agree on their first `i` elements, the lexicographic
/// comparison is decided by the remainders.
proof fn lemma_lex_lt_common_prefix(a: Seq<u8>, b: Seq<u8>, i: int)
    requires
        0 <= i <= a.len(),
        i <= b.len(),
        a.subrange(0, i) == b.subrange(0, i),
    ensures
        lex_lt(a, b) == lex_lt(a.skip(i), b.skip(i)),
    decreases i,
{
    if i > 0 {
        let pa = a.subrange(0, i);
        let pb = b.subrange(0, i);
        assert(pa[0] == a[0]);
        assert(pb[0] == b[0]);
        assert(a[0] == b[0]);
        assert(a.drop_first().subrange(0, i - 1) =~= pa.drop_first());
        assert(b.drop_first().subrange(0, i - 1) =~= pb.drop_first());
        assert(pa.drop_first() == pb.drop_first());
        lemma_lex_lt_common_prefix(a.drop_first(), b.drop_first(), i - 1);
        assert(a.drop_first().skip(i - 1) =~= a.skip(i));
        assert(b.drop_first().skip(i - 1) =~= b.skip(i));
        assert(lex_lt(a, b) == lex_lt(a.drop_first(), b.drop_first()));
    } else {
        assert(a.skip(0) =~= a);
        assert(b.skip(0) =~= b);
    }
}

/// Executable strict lexicographic comparison of value sequences.
pub fn lex_less(a: &Vec<u8>, b: &Vec<u8>) -> (r: bool)
    ensures
        r == lex_lt(a@, b@),
{
    let mut i: usize = 0;
    loop
        invariant
            0 <= i <= a.len(),
            i <= b.len(),
            a@.subrange(0, i as int) =~= b@.subrange(0, i as int),
        decreases a.len() - i,
    {
        proof {
            lemma_lex_lt_common_prefix(a@, b@, i as int);
        }
        if i >= a.len() {
            assert(a@.skip(i as int).len() == 0);
            return i < b.len();
        }
        if i >= b.len() {
            assert(b@.skip(i as int).len() == 0);
            return false;
        }
        let x = a[i];
        let y = b[i];
        if x != y {
            assert(a@.skip(i as int)[0] == x && b@.skip(i as int)[0] == y);
            return x < y;
        }
        assert(a@.subrange(0, i + 1 as int) =~= b@.subrange(0, i + 1 as int));
        i = i + 1;
    }
}

} // verus!
