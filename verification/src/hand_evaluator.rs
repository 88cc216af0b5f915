//! Poker hand evaluation: classifying five cards into one of the ten hand
//! categories, and finding the best five-card hand inside a larger set.
//!
//! The wheel (Ace-Five-Four-Three-Two) counts as a straight whose high card
//! is the Five, not the Ace; suited it is a straight flush, never royal.

use vstd::multiset::Multiset;
use vstd::prelude::*;
use vstd::relations::{sorted_by, total_ordering};
use vstd::seq_lib::lemma_sorted_unique;

use crate::cards::{rank_from_value, Card, HandRank, HandRankView, Rank};

verus! {

/// The rank values of a card sequence, in order.
pub open spec fn card_values(s: Seq<Card>) -> Seq<u8> {
    s.map_values(|c: Card| c.rank.value())
}

/// Occurrences of the value `v` in `vs`.
pub open spec fn count_val(vs: Seq<u8>, v: u8) -> int
    decreases vs.len(),
{
    if vs.len() == 0 {
        0
    } else {
        count_val(vs.drop_last(), v) + if vs.last() == v {
            1int
        } else {
            0int
        }
    }
}

/// All cards share the suit of the first one.
pub open spec fn spec_is_flush(s: Seq<Card>) -> bool {
    forall|i: int| 0 <= i < s.len() ==> #[trigger] s[i].suit == s[0].suit
}

/// Weakly descending order.
pub open spec fn sorted_desc(vs: Seq<u8>) -> bool {
    forall|i: int, j: int| 0 <= i < j < vs.len() ==> vs[i] >= vs[j]
}

/// The descending comparison used to sort rank values.
pub open spec fn desc_leq() -> spec_fn(u8, u8) -> bool {
    |x: u8, y: u8| x >= y
}

/// Five descending values are a straight when they run consecutively, with
/// one exception: Ace-high sorted as `[14, 5, 4, 3, 2]` (the wheel).
pub open spec fn spec_is_straight(vs: Seq<u8>) -> bool
    recommends
        vs.len() == 5,
{
    vs[1] == vs[2] + 1 && vs[2] == vs[3] + 1 && vs[3] == vs[4] + 1 && (vs[0] == vs[1] + 1 || (
    vs[0] == 14 && vs[1] == 5))
}

/// High card of a straight: the Five for the wheel, else the top value.
pub open spec fn spec_straight_high(vs: Seq<u8>) -> u8 {
    if vs[0] == 14 && vs[1] == 5 {
        5u8
    } else {
        vs[0]
    }
}

/// Keeps the values different from `a`.
pub open spec fn ne_pred(a: u8) -> spec_fn(u8) -> bool {
    |x: u8| x != a
}

/// Keeps the values different from both `a` and `b`.
pub open spec fn ne2_pred(a: u8, b: u8) -> spec_fn(u8) -> bool {
    |x: u8| x != a && x != b
}

/// Classification of five sorted-descending rank values plus a flush flag
/// into the ten hand categories, following the documented precedence.
/// In a sorted five-value sequence the middle value always belongs to a
/// quad or a trip when one exists, so positions stand in for "the" repeated
/// value, and kickers are the values filtered out of the sequence in order.
pub open spec fn spec_classify(vs: Seq<u8>, flush: bool) -> HandRankView
    recommends
        vs.len() == 5,
        sorted_desc(vs),
{
    let straight = spec_is_straight(vs);
    if straight && flush {
        if spec_straight_high(vs) == 14 {
            HandRankView::RoyalFlush
        } else {
            HandRankView::StraightFlush(spec_straight_high(vs))
        }
    } else if count_val(vs, vs[2]) == 4 {
        HandRankView::FourOfAKind(vs[2], vs.filter(ne_pred(vs[2]))[0])
    } else if count_val(vs, vs[2]) == 3 && (count_val(vs, vs[0]) == 2 || count_val(vs, vs[4])
        == 2) {
        HandRankView::FullHouse(
            vs[2],
            if count_val(vs, vs[0]) == 2 {
                vs[0]
            } else {
                vs[4]
            },
        )
    } else if flush {
        HandRankView::Flush(vs)
    } else if straight {
        HandRankView::Straight(spec_straight_high(vs))
    } else if count_val(vs, vs[2]) == 3 {
        HandRankView::ThreeOfAKind(vs[2], vs.filter(ne_pred(vs[2])))
    } else if count_val(vs, vs[1]) == 2 && count_val(vs, vs[3]) == 2 && vs[1] != vs[3] {
        HandRankView::TwoPair(vs[1], vs[3], vs.filter(ne2_pred(vs[1], vs[3]))[0])
    } else if vs[0] == vs[1] || vs[1] == vs[2] || vs[2] == vs[3] || vs[3] == vs[4] {
        let p = if vs[0] == vs[1] {
            vs[0]
        } else if vs[1] == vs[2] {
            vs[1]
        } else if vs[2] == vs[3] {
            vs[2]
        } else {
            vs[3]
        };
        HandRankView::OnePair(p, vs.filter(ne_pred(p)))
    } else {
        HandRankView::HighCard(vs)
    }
}

/// The strength of five cards: their values sorted descending, classified,
/// with the flush flag read off the suits. A function of the card sequence's
/// contents alone.
pub open spec fn spec_eval5(s: Seq<Card>) -> HandRankView
    recommends
        s.len() == 5,
{
    spec_classify(card_values(s).sort_by(desc_leq()), spec_is_flush(s))
}

/// The descending comparison is a total ordering.
pub proof fn lemma_desc_leq_total()
    ensures
        total_ordering(desc_leq()),
{
}

/// Filtering away one value drops exactly its occurrences.
pub proof fn lemma_filter_ne_len(vs: Seq<u8>, a: u8)
    ensures
        vs.filter(ne_pred(a)).len() + count_val(vs, a) == vs.len(),
    decreases vs.len(),
{
    reveal(Seq::filter);
    if vs.len() > 0 {
        lemma_filter_ne_len(vs.drop_last(), a);
    }
}

/// Filtering away two distinct values drops exactly their occurrences.
pub proof fn lemma_filter_ne2_len(vs: Seq<u8>, a: u8, b: u8)
    requires
        a != b,
    ensures
        vs.filter(ne2_pred(a, b)).len() + count_val(vs, a) + count_val(vs, b) == vs.len(),
    decreases vs.len(),
{
    reveal(Seq::filter);
    if vs.len() > 0 {
        lemma_filter_ne2_len(vs.drop_last(), a, b);
    }
}

/// Filtering keeps every element inside the bounds the input obeys.
proof fn lemma_filter_bounds(vs: Seq<u8>, pred: spec_fn(u8) -> bool, lo: u8, hi: u8)
    requires
        forall|i: int| 0 <= i < vs.len() ==> lo <= #[trigger] vs[i] <= hi,
    ensures
        forall|i: int|
            0 <= i < vs.filter(pred).len() ==> lo <= #[trigger] vs.filter(pred)[i] <= hi,
    decreases vs.len(),
{
    reveal(Seq::filter);
    if vs.len() > 0 {
        assert(forall|i: int|
            0 <= i < vs.drop_last().len() ==> lo <= #[trigger] vs.drop_last()[i] <= hi);
        lemma_filter_bounds(vs.drop_last(), pred, lo, hi);
        let f = vs.filter(pred);
        let fs = vs.drop_last().filter(pred);
        assert(lo <= vs[vs.len() - 1] <= hi);
        assert forall|i: int| 0 <= i < f.len() implies lo <= #[trigger] f[i] <= hi by {
            if pred(vs.last()) {
                assert(f == fs.push(vs.last()));
                if i < fs.len() {
                    assert(f[i] == fs[i]);
                } else {
                    assert(f[i] == vs.last());
                }
            } else {
                assert(f == fs);
            }
        }
    }
}

/// Unit struct grouping the hand-evaluation entry points.
pub struct HandEvaluator;

/// Sorts the values, highest first, keeping the multiset of values.
fn sort_values_desc(vs: &Vec<u8>) -> (out: Vec<u8>)
    ensures
        out@.len() == vs@.len(),
        sorted_desc(out@),
        out@.to_multiset() == vs@.to_multiset(),
{
    broadcast use vstd::seq_lib::group_to_multiset_ensures;

    let mut out: Vec<u8> = Vec::new();
    let mut i: usize = 0;
    while i < vs.len()
        invariant
            0 <= i <= vs.len(),
            out@.len() == i,
            sorted_desc(out@),
            out@.to_multiset() == vs@.take(i as int).to_multiset(),
        decreases vs.len() - i,
    {
        let x = vs[i];
        let ghost old_out = out@;
        let mut p: usize = 0;
        while p < out.len() && out[p] >= x
            invariant
                0 <= p <= out@.len(),
                out@ == old_out,
                forall|k: int| 0 <= k < p ==> #[trigger] out@[k] >= x,
            decreases out@.len() - p,
        {
            p = p + 1;
        }
        assert(p == out@.len() || out@[p as int] < x);
        out.insert(p, x);
        proof {
            let nv = out@;
            assert(nv == old_out.insert(p as int, x));
            assert forall|a: int, b: int| 0 <= a < b < nv.len() implies nv[a] >= nv[b] by {
                if b < p {
                    assert(nv[a] == old_out[a] && nv[b] == old_out[b]);
                } else if a < p && b == p {
                    assert(nv[a] == old_out[a] && nv[b] == x);
                } else if a < p && b > p {
                    assert(nv[a] == old_out[a] && nv[b] == old_out[b - 1]);
                    assert(old_out[p as int] < x);
                    assert(old_out[a] >= x);
                } else if a == p {
                    assert(nv[a] == x && nv[b] == old_out[b - 1]);
                    assert(old_out[p as int] < x);
                    assert(old_out[p as int] >= old_out[b - 1]);
                } else {
                    assert(nv[a] == old_out[a - 1] && nv[b] == old_out[b - 1]);
                }
            }
            vstd::seq_lib::to_multiset_insert(old_out, p as int, x);
            assert(vs@.take(i + 1).drop_last() =~= vs@.take(i as int));
            assert(vs@.take(i + 1).last() == vs@[i as int]);
            assert(vs@.take(i as int).push(vs@[i as int]) =~= vs@.take(i + 1));
            vstd::seq_lib::to_multiset_build(vs@.take(i as int), vs@[i as int]);
        }
        i = i + 1;
    }
    assert(vs@.take(vs@.len() as int) =~= vs@);
    out
}

/// The rank values of the cards, in order.
fn values_of_cards(cards: &Vec<Card>) -> (vs: Vec<u8>)
    ensures
        vs@ == card_values(cards@),
{
    let mut vs: Vec<u8> = Vec::new();
    let mut i: usize = 0;
    while i < cards.len()
        invariant
            0 <= i <= cards.len(),
            vs@ =~= card_values(cards@.take(i as int)),
        decreases cards.len() - i,
    {
        vs.push(cards[i].rank.as_u8());
        assert(vs@ =~= card_values(cards@.take(i + 1)));
        i = i + 1;
    }
    assert(cards@.take(cards@.len() as int) =~= cards@);
    vs
}

/// Ranks for a sequence of values known to lie on the 2..=14 scale.
fn ranks_of_values(vs: &Vec<u8>) -> (out: Vec<Rank>)
    requires
        forall|i: int| 0 <= i < vs@.len() ==> 2 <= #[trigger] vs@[i] <= 14,
    ensures
        crate::cards::rank_values(out@) == vs@,
        out@.len() == vs@.len(),
{
    let mut out: Vec<Rank> = Vec::new();
    let mut i: usize = 0;
    while i < vs.len()
        invariant
            0 <= i <= vs.len(),
            forall|k: int| 0 <= k < vs@.len() ==> 2 <= #[trigger] vs@[k] <= 14,
            out@.len() == i,
            crate::cards::rank_values(out@) =~= vs@.take(i as int),
        decreases vs.len() - i,
    {
        proof {
            crate::cards::lemma_rank_value_bijective();
        }
        out.push(rank_from_value(vs[i]));
        assert(crate::cards::rank_values(out@) =~= vs@.take(i + 1));
        i = i + 1;
    }
    assert(vs@.take(vs@.len() as int) =~= vs@);
    out
}

/// Keeps the values different from `a`, in order.
fn filter_ne(vs: &Vec<u8>, a: u8) -> (out: Vec<u8>)
    ensures
        out@ == vs@.filter(ne_pred(a)),
{
    proof {
        reveal(Seq::filter);
    }
    let mut out: Vec<u8> = Vec::new();
    let mut i: usize = 0;
    while i < vs.len()
        invariant
            0 <= i <= vs.len(),
            out@ == vs@.take(i as int).filter(ne_pred(a)),
        decreases vs.len() - i,
    {
        proof {
            reveal(Seq::filter);
            assert(vs@.take(i + 1).drop_last() =~= vs@.take(i as int));
            assert(vs@.take(i + 1).last() == vs@[i as int]);
        }
        if vs[i] != a {
            out.push(vs[i]);
        }
        assert(out@ == vs@.take(i + 1).filter(ne_pred(a)));
        i = i + 1;
    }
    assert(vs@.take(vs@.len() as int) =~= vs@);
    out
}

/// Keeps the values different from both `a` and `b`, in order.
fn filter_ne2(vs: &Vec<u8>, a: u8, b: u8) -> (out: Vec<u8>)
    ensures
        out@ == vs@.filter(ne2_pred(a, b)),
{
    proof {
        reveal(Seq::filter);
    }
    let mut out: Vec<u8> = Vec::new();
    let mut i: usize = 0;
    while i < vs.len()
        invariant
            0 <= i <= vs.len(),
            out@ == vs@.take(i as int).filter(ne2_pred(a, b)),
        decreases vs.len() - i,
    {
        proof {
            reveal(Seq::filter);
            assert(vs@.take(i + 1).drop_last() =~= vs@.take(i as int));
            assert(vs@.take(i + 1).last() == vs@[i as int]);
        }
        if vs[i] != a && vs[i] != b {
            out.push(vs[i]);
        }
        assert(out@ == vs@.take(i + 1).filter(ne2_pred(a, b)));
        i = i + 1;
    }
    assert(vs@.take(vs@.len() as int) =~= vs@);
    out
}

impl HandEvaluator {
    /// All cards share one suit.
    pub fn is_flush(cards: &Vec<Card>) -> (r: bool)
        requires
            cards@.len() >= 1,
        ensures
            r == spec_is_flush(cards@),
    {
        let first_suit = cards[0].suit;
        let mut i: usize = 0;
        while i < cards.len()
            invariant
                0 <= i <= cards@.len(),
                first_suit == cards@[0].suit,
                forall|k: int| 0 <= k < i ==> #[trigger] cards@[k].suit == cards@[0].suit,
            decreases cards.len() - i,
        {
            if !(cards[i].suit == first_suit) {
                return false;
            }
            i = i + 1;
        }
        true
    }

    /// Five descending rank values form a straight (including the wheel).
    pub fn is_straight(values: &Vec<u8>) -> (r: bool)
        requires
            values@.len() == 5,
            forall|i: int| 0 <= i < 5 ==> #[trigger] values@[i] <= 14,
        ensures
            r == spec_is_straight(values@),
    {
        let v0 = values[0];
        let v1 = values[1];
        let v2 = values[2];
        let v3 = values[3];
        let v4 = values[4];
        let tail_runs = v1 == v2 + 1 && v2 == v3 + 1 && v3 == v4 + 1;
        let head_ok = v0 == v1 + 1 || (v0 == 14 && v1 == 5);
        tail_runs && head_ok
    }

    /// Histogram of rank values: entry `v` counts the cards of value `v`,
    /// for `v` in 0..15.
    pub fn count_ranks(cards: &Vec<Card>) -> (counts: Vec<u8>)
        requires
            cards@.len() <= 255,
        ensures
            counts@.len() == 15,
            forall|v: int|
                0 <= v < 15 ==> #[trigger] counts@[v] == count_val(
                    card_values(cards@),
                    v as u8,
                ),
    {
        let mut counts: Vec<u8> = Vec::new();
        let mut i: usize = 0;
        while i < 15
            invariant
                0 <= i <= 15,
                counts@ =~= Seq::new(i as nat, |k: int| 0u8),
            decreases 15 - i,
        {
            counts.push(0u8);
            assert(counts@ =~= Seq::new((i + 1) as nat, |k: int| 0u8));
            i = i + 1;
        }
        assert(forall|v: int| 0 <= v < 15 ==> #[trigger] counts@[v] == 0);
        assert(forall|v: u8| count_val(card_values(cards@.take(0)), v) == 0);
        let mut j: usize = 0;
        while j < cards.len()
            invariant
                0 <= j <= cards@.len(),
                cards@.len() <= 255,
                counts@.len() == 15,
                forall|v: int|
                    0 <= v < 15 ==> #[trigger] counts@[v] == count_val(
                        card_values(cards@.take(j as int)),
                        v as u8,
                    ),
                forall|v: int| 0 <= v < 15 ==> counts@[v] <= j,
            decreases cards.len() - j,
        {
            proof {
                crate::cards::lemma_rank_value_bijective();
            }
            let v = cards[j].rank.as_u8();
            let prior = counts[v as usize];
            counts.set(v as usize, prior + 1);
            proof {
                let pfx = card_values(cards@.take(j + 1));
                assert(cards@.take(j + 1).drop_last() =~= cards@.take(j as int));
                assert(pfx.drop_last() =~= card_values(cards@.take(j as int)));
                assert(pfx.last() == cards@[j as int].rank.value());
                assert forall|w: int| 0 <= w < 15 implies #[trigger] counts@[w] == count_val(
                    pfx,
                    w as u8,
                ) by {
                    assert(count_val(pfx, w as u8) == count_val(
                        card_values(cards@.take(j as int)),
                        w as u8,
                    ) + if pfx.last() == w as u8 {
                        1int
                    } else {
                        0int
                    });
                }
            }
            j = j + 1;
        }
        assert(cards@.take(cards@.len() as int) =~= cards@);
        counts
    }

    /// Classifies exactly five cards into their hand category with its
    /// tie-break ranks, as [`spec_eval5`] states.
    pub fn evaluate_five_cards(cards: &Vec<Card>) -> (r: HandRank)
        requires
            cards@.len() == 5,
        ensures
            r@ == spec_eval5(cards@),
    {
        proof {
            crate::cards::lemma_rank_value_bijective();
            lemma_desc_leq_total();
            card_values(cards@).lemma_sort_by_ensures(desc_leq());
            broadcast use vstd::seq_lib::group_to_multiset_ensures;

        }
        let raw = values_of_cards(cards);
        let vs = sort_values_desc(&raw);
        proof {
            let target = card_values(cards@).sort_by(desc_leq());
            assert(sorted_by(vs@, desc_leq()));
            assert(sorted_by(target, desc_leq()));
            lemma_sorted_unique(vs@, target, desc_leq());
            assert(vs@ == target);
            assert forall|k: int| 0 <= k < raw@.len() implies 2 <= #[trigger] raw@[k] <= 14 by {
                assert(raw@[k] == cards@[k].rank.value());
            }
            assert forall|k: int| 0 <= k < vs@.len() implies 2 <= #[trigger] vs@[k] <= 14 by {
                assert(vs@.to_multiset().count(vs@[k]) > 0);
                assert(raw@.to_multiset().count(vs@[k]) > 0);
                assert(raw@.contains(vs@[k]));
                let w = choose|w: int| 0 <= w < raw@.len() && raw@[w] == vs@[k];
                assert(2 <= raw@[w] <= 14);
            }
        }
        let flush = Self::is_flush(cards);
        classify_sorted_values(&vs, flush)
    }
}

/// Occurrences of `v` among the values.
fn count_of(vs: &Vec<u8>, v: u8) -> (n: u8)
    requires
        vs@.len() <= 255,
    ensures
        n as int == count_val(vs@, v),
{
    let mut n: u8 = 0;
    let mut i: usize = 0;
    while i < vs.len()
        invariant
            0 <= i <= vs@.len(),
            vs@.len() <= 255,
            n as int == count_val(vs@.take(i as int), v),
            n as int <= i,
        decreases vs.len() - i,
    {
        proof {
            assert(vs@.take(i + 1).drop_last() =~= vs@.take(i as int));
            assert(vs@.take(i + 1).last() == vs@[i as int]);
        }
        if vs[i] == v {
            n = n + 1;
        }
        i = i + 1;
    }
    assert(vs@.take(vs@.len() as int) =~= vs@);
    n
}

/// Classifies five sorted-descending rank values plus a flush flag, exactly
/// as [`spec_classify`] states.
#[verifier::rlimit(100)]
fn classify_sorted_values(vs: &Vec<u8>, flush: bool) -> (r: HandRank)
    requires
        vs@.len() == 5,
        sorted_desc(vs@),
        forall|k: int| 0 <= k < vs@.len() ==> 2 <= #[trigger] vs@[k] <= 14,
    ensures
        r@ == spec_classify(vs@, flush),
{
    proof {
        crate::cards::lemma_rank_value_bijective();
    }
    let ghost gvs = vs@;
    let ghost flush_spec = flush;
    let straight = HandEvaluator::is_straight(vs);
    let v0 = vs[0];
        let v1 = vs[1];
        let v2 = vs[2];
        let v3 = vs[3];
        let v4 = vs[4];
        if straight && flush {
            let high = if v0 == 14 && v1 == 5 {
                5u8
            } else {
                v0
            };
            assert(high == spec_straight_high(gvs));
            if high == 14 {
                return HandRank::RoyalFlush;
            }
            let r = HandRank::StraightFlush(rank_from_value(high));
            assert(r@ == spec_classify(gvs, flush_spec));
            return r;
        }
        let c2 = count_of(vs, v2);
        if c2 == 4 {
            let others = filter_ne(vs, v2);
            proof {
                lemma_filter_ne_len(gvs, v2);
                lemma_filter_bounds(gvs, ne_pred(v2), 2, 14);
            }
            let r = HandRank::FourOfAKind(rank_from_value(v2), rank_from_value(others[0]));
            assert(r@ == spec_classify(gvs, flush_spec));
            return r;
        }
        let c0 = count_of(vs, v0);
        let c4 = count_of(vs, v4);
        if c2 == 3 && (c0 == 2 || c4 == 2) {
            let pair = if c0 == 2 {
                v0
            } else {
                v4
            };
            let r = HandRank::FullHouse(rank_from_value(v2), rank_from_value(pair));
            assert(r@ == spec_classify(gvs, flush_spec));
            return r;
        }
        if flush {
            let ranks = ranks_of_values(vs);
            let r = HandRank::Flush(ranks);
            assert(r@ == spec_classify(gvs, flush_spec));
            return r;
        }
        if straight {
            let high = if v0 == 14 && v1 == 5 {
                5u8
            } else {
                v0
            };
            let r = HandRank::Straight(rank_from_value(high));
            assert(r@ == spec_classify(gvs, flush_spec));
            return r;
        }
        if c2 == 3 {
            let kickers = filter_ne(vs, v2);
            proof {
                lemma_filter_bounds(gvs, ne_pred(v2), 2, 14);
            }
            let r = HandRank::ThreeOfAKind(rank_from_value(v2), ranks_of_values(&kickers));
            assert(r@ == spec_classify(gvs, flush_spec));
            return r;
        }
        let c1 = count_of(vs, v1);
        let c3 = count_of(vs, v3);
        if c1 == 2 && c3 == 2 && v1 != v3 {
            let others = filter_ne2(vs, v1, v3);
            proof {
                lemma_filter_ne2_len(gvs, v1, v3);
                lemma_filter_bounds(gvs, ne2_pred(v1, v3), 2, 14);
            }
            let r = HandRank::TwoPair(
                rank_from_value(v1),
                rank_from_value(v3),
                rank_from_value(others[0]),
            );
            assert(r@ == spec_classify(gvs, flush_spec));
            return r;
        }
        if v0 == v1 || v1 == v2 || v2 == v3 || v3 == v4 {
            let p = if v0 == v1 {
                v0
            } else if v1 == v2 {
                v1
            } else if v2 == v3 {
                v2
            } else {
                v3
            };
            let kickers = filter_ne(vs, p);
            proof {
                lemma_filter_bounds(gvs, ne_pred(p), 2, 14);
            }
            let r = HandRank::OnePair(rank_from_value(p), ranks_of_values(&kickers));
            assert(r@ == spec_classify(gvs, flush_spec));
            return r;
        }
        let ranks = ranks_of_values(vs);
        let r = HandRank::HighCard(ranks);
        assert(r@ == spec_classify(gvs, flush_spec));
        r
}

/// `a` is a subsequence of `b`: the cards of `a` appear in `b`, in order.
pub open spec fn is_subseq_of(a: Seq<Card>, b: Seq<Card>) -> bool
    decreases b.len(),
{
    if a.len() == 0 {
        true
    } else if b.len() == 0 {
        false
    } else {
        (a[0] == b[0] && is_subseq_of(a.drop_first(), b.drop_first())) || is_subseq_of(
            a,
            b.drop_first(),
        )
    }
}

/// Every prefix of a sequence is one of its subsequences.
pub proof fn lemma_take_is_subseq(b: Seq<Card>, n: int)
    requires
        0 <= n <= b.len(),
    ensures
        is_subseq_of(b.take(n), b),
    decreases b.len(),
{
    if n > 0 {
        assert(b.take(n)[0] == b[0]);
        assert(b.take(n).drop_first() =~= b.drop_first().take(n - 1));
        lemma_take_is_subseq(b.drop_first(), n - 1);
    }
}

/// Prepending the card at index `i` to a subsequence of the suffix after `i`
/// gives a subsequence of any suffix starting at or before `i`.
proof fn lemma_subseq_cons(cards: Seq<Card>, start: int, i: int, e: Seq<Card>)
    requires
        0 <= start <= i < cards.len(),
        is_subseq_of(e, cards.skip(i + 1)),
    ensures
        is_subseq_of(seq![cards[i]] + e, cards.skip(start)),
    decreases i - start,
{
    let a = seq![cards[i]] + e;
    let b = cards.skip(start);
    assert(b.len() == cards.len() - start > 0);
    assert(b.drop_first() =~= cards.skip(start + 1));
    if i == start {
        assert(a[0] == b[0]);
        assert(a.drop_first() =~= e);
    } else {
        lemma_subseq_cons(cards, start + 1, i, e);
    }
}

/// A nonempty subsequence of the suffix from `start` begins at some index
/// `i >= start`, with the rest a subsequence of the suffix after `i`.
proof fn lemma_subseq_split(e: Seq<Card>, cards: Seq<Card>, start: int)
    requires
        0 <= start <= cards.len(),
        e.len() > 0,
        is_subseq_of(e, cards.skip(start)),
    ensures
        exists|i: int|
            start <= i < cards.len() && cards[i] == e[0] && is_subseq_of(
                e.drop_first(),
                cards.skip(i + 1),
            ),
    decreases cards.len() - start,
{
    let b = cards.skip(start);
    assert(b.len() > 0);
    assert(b.drop_first() =~= cards.skip(start + 1));
    if e[0] == b[0] && is_subseq_of(e.drop_first(), b.drop_first()) {
        assert(cards[start] == e[0]);
        assert(start <= start < cards.len() && cards[start] == e[0] && is_subseq_of(
            e.drop_first(),
            cards.skip(start + 1),
        ));
    } else {
        assert(is_subseq_of(e, b.drop_first()));
        lemma_subseq_split(e, cards, start + 1);
    }
}

/// An element-for-element copy of the cards.
fn copy_cards(v: &Vec<Card>) -> (out: Vec<Card>)
    ensures
        out@ == v@,
{
    let mut out: Vec<Card> = Vec::new();
    let mut i: usize = 0;
    while i < v.len()
        invariant
            0 <= i <= v@.len(),
            out@ =~= v@.take(i as int),
        decreases v.len() - i,
    {
        out.push(v[i]);
        assert(out@ =~= v@.take(i + 1));
        i = i + 1;
    }
    assert(v@.take(v@.len() as int) =~= v@);
    out
}

/// The wheel: five cards whose values sort to Ace, Five, Four, Three, Two
/// evaluate as a straight whose effective high card is the Five, never the
/// Ace. Suited, the wheel is a straight flush, not a royal flush; either
/// way it ranks strictly below the corresponding Six-high hand.
pub proof fn lemma_wheel_straight(s: Seq<Card>)
    requires
        s.len() == 5,
        card_values(s).sort_by(desc_leq()) == seq![14u8, 5u8, 4u8, 3u8, 2u8],
    ensures
        spec_is_flush(s) ==> spec_eval5(s) == HandRankView::StraightFlush(5u8),
        !spec_is_flush(s) ==> spec_eval5(s) == HandRankView::Straight(5u8),
        spec_is_flush(s) ==> crate::cards::hand_lt(
            spec_eval5(s),
            HandRankView::StraightFlush(6u8),
        ),
        !spec_is_flush(s) ==> crate::cards::hand_lt(spec_eval5(s), HandRankView::Straight(6u8)),
{
    let vs = card_values(s).sort_by(desc_leq());
    assert(vs[0] == 14 && vs[1] == 5 && vs[2] == 4 && vs[3] == 3 && vs[4] == 2);
    assert(spec_is_straight(vs));
    assert(spec_straight_high(vs) == 5);
    reveal_with_fuel(count_val, 7);
    assert(count_val(vs, 4u8) == 1);
}

/// Removing one card from a sequence removes its value from the value view.
proof fn lemma_card_values_remove(s: Seq<Card>, j: int)
    requires
        0 <= j < s.len(),
    ensures
        card_values(s.remove(j)) =~= card_values(s).remove(j),
{
    let lhs = card_values(s.remove(j));
    let rhs = card_values(s).remove(j);
    assert forall|i: int| 0 <= i < lhs.len() implies lhs[i] == rhs[i] by {
        if i < j {
            assert(s.remove(j)[i] == s[i]);
            assert(card_values(s).remove(j)[i] == card_values(s)[i]);
        } else {
            assert(s.remove(j)[i] == s[i + 1]);
            assert(card_values(s).remove(j)[i] == card_values(s)[i + 1]);
        }
    }
}

/// Sequences holding the same cards (with multiplicity) hold the same rank
/// values (with multiplicity), whatever their orders.
proof fn lemma_card_values_multiset(s1: Seq<Card>, s2: Seq<Card>)
    requires
        s1.to_multiset() == s2.to_multiset(),
    ensures
        card_values(s1).to_multiset() == card_values(s2).to_multiset(),
    decreases s1.len(),
{
    broadcast use vstd::seq_lib::group_to_multiset_ensures;
    broadcast use vstd::multiset::group_multiset_axioms;
    broadcast use vstd::multiset::group_multiset_properties;

    vstd::seq_lib::to_multiset_len(s1);
    vstd::seq_lib::to_multiset_len(s2);
    if s1.len() == 0 {
        assert(card_values(s1) =~= Seq::<u8>::empty());
        assert(card_values(s2) =~= Seq::<u8>::empty());
    } else {
        let c = s1.last();
        assert(s1.contains(c));
        assert(s2.to_multiset().count(c) > 0);
        assert(s2.contains(c));
        let j = choose|j: int| 0 <= j < s2.len() && s2[j] == c;
        let s1d = s1.drop_last();
        let s2r = s2.remove(j);
        vstd::seq_lib::to_multiset_remove(s2, j);
        assert(s1d.push(c) =~= s1);
        vstd::seq_lib::to_multiset_build(s1d, c);
        assert(s1d.to_multiset() =~= s2r.to_multiset());
        lemma_card_values_multiset(s1d, s2r);
        assert(card_values(s1d).push(c.rank.value()) =~= card_values(s1));
        vstd::seq_lib::to_multiset_build(card_values(s1d), c.rank.value());
        lemma_card_values_remove(s2, j);
        vstd::seq_lib::to_multiset_remove(card_values(s2), j);
        assert(card_values(s2)[j] == c.rank.value());
        assert(card_values(s2).contains(c.rank.value()));
        assert(card_values(s2).to_multiset().count(c.rank.value()) > 0);
        assert(card_values(s1).to_multiset() =~= card_values(s2).to_multiset());
    }
}

/// Being a flush is a property of which cards are held, not their order.
proof fn lemma_flush_multiset(s1: Seq<Card>, s2: Seq<Card>)
    requires
        s1.to_multiset() == s2.to_multiset(),
    ensures
        spec_is_flush(s1) == spec_is_flush(s2),
{
    if spec_is_flush(s1) {
        lemma_flush_multiset_one(s1, s2);
    }
    if spec_is_flush(s2) {
        lemma_flush_multiset_one(s2, s1);
    }
}

/// One direction of [`lemma_flush_multiset`].
proof fn lemma_flush_multiset_one(s1: Seq<Card>, s2: Seq<Card>)
    requires
        s1.to_multiset() == s2.to_multiset(),
        spec_is_flush(s1),
    ensures
        spec_is_flush(s2),
{
    broadcast use vstd::seq_lib::group_to_multiset_ensures;

    vstd::seq_lib::to_multiset_len(s1);
    vstd::seq_lib::to_multiset_len(s2);
    if s2.len() > 0 {
        assert forall|i: int| 0 <= i < s2.len() implies #[trigger] s2[i].suit == s2[0].suit by {
            assert(s2.contains(s2[i]));
            assert(s1.to_multiset().count(s2[i]) > 0);
            assert(s1.contains(s2[i]));
            let a = choose|a: int| 0 <= a < s1.len() && s1[a] == s2[i];
            assert(s1[a].suit == s1[0].suit);
            assert(s2.contains(s2[0]));
            assert(s1.to_multiset().count(s2[0]) > 0);
            assert(s1.contains(s2[0]));
            let z = choose|z: int| 0 <= z < s1.len() && s1[z] == s2[0];
            assert(s1[z].suit == s1[0].suit);
        }
    }
}

/// The strength of five cards is a function of which cards they are, not of
/// the order they are listed in.
pub proof fn lemma_eval5_multiset(s1: Seq<Card>, s2: Seq<Card>)
    requires
        s1.to_multiset() == s2.to_multiset(),
        s1.len() == 5,
    ensures
        spec_eval5(s1) == spec_eval5(s2),
{
    lemma_card_values_multiset(s1, s2);
    lemma_flush_multiset(s1, s2);
    lemma_desc_leq_total();
    card_values(s1).lemma_sort_by_ensures(desc_leq());
    card_values(s2).lemma_sort_by_ensures(desc_leq());
    lemma_sorted_unique(
        card_values(s1).sort_by(desc_leq()),
        card_values(s2).sort_by(desc_leq()),
        desc_leq(),
    );
}

/// A subsequence's cards are among the sequence's cards, with multiplicity.
proof fn lemma_subseq_submultiset(a: Seq<Card>, b: Seq<Card>)
    requires
        is_subseq_of(a, b),
    ensures
        a.to_multiset().subset_of(b.to_multiset()),
    decreases b.len(),
{
    broadcast use vstd::seq_lib::group_to_multiset_ensures;
    broadcast use vstd::multiset::group_multiset_axioms;

    if a.len() == 0 {
        assert(a.to_multiset() =~= Multiset::<Card>::empty());
    } else {
        let ad = a.drop_first();
        let bd = b.drop_first();
        assert(ad.insert(0, a[0]) =~= a);
        vstd::seq_lib::to_multiset_insert(ad, 0, a[0]);
        assert(bd.insert(0, b[0]) =~= b);
        vstd::seq_lib::to_multiset_insert(bd, 0, b[0]);
        if a[0] == b[0] && is_subseq_of(ad, bd) {
            lemma_subseq_submultiset(ad, bd);
            assert forall|v: Card|
                a.to_multiset().count(v) <= #[trigger] b.to_multiset().count(v) by {
                assert(ad.to_multiset().count(v) <= bd.to_multiset().count(v));
            }
        } else {
            assert(is_subseq_of(a, bd));
            lemma_subseq_submultiset(a, bd);
            assert forall|v: Card|
                a.to_multiset().count(v) <= #[trigger] b.to_multiset().count(v) by {
                assert(a.to_multiset().count(v) <= bd.to_multiset().count(v));
            }
        }
    }
}

/// Any collection of cards drawn (with multiplicity) from a sequence is
/// realized by one of its subsequences.
proof fn lemma_submultiset_realizable(m: Multiset<Card>, s: Seq<Card>) -> (e: Seq<Card>)
    requires
        m.subset_of(s.to_multiset()),
    ensures
        is_subseq_of(e, s),
        e.to_multiset() == m,
    decreases s.len(),
{
    broadcast use vstd::seq_lib::group_to_multiset_ensures;
    broadcast use vstd::multiset::group_multiset_axioms;

    if s.len() == 0 {
        assert(s.to_multiset() =~= Multiset::<Card>::empty());
        assert(m =~= Multiset::<Card>::empty());
        let e = Seq::<Card>::empty();
        assert(e.to_multiset() =~= m);
        e
    } else {
        let s0 = s[0];
        let rest = s.drop_first();
        assert(rest.insert(0, s0) =~= s);
        vstd::seq_lib::to_multiset_insert(rest, 0, s0);
        if m.count(s0) > 0 {
            let m2 = m.remove(s0);
            assert forall|v: Card|
                m2.count(v) <= #[trigger] rest.to_multiset().count(v) by {
                assert(m.count(v) <= s.to_multiset().count(v));
            }
            let e2 = lemma_submultiset_realizable(m2, rest);
            let e = seq![s0] + e2;
            assert(e[0] == s[0]);
            assert(e.drop_first() =~= e2);
            assert(is_subseq_of(e, s));
            assert(e2.insert(0, s0) =~= e);
            vstd::seq_lib::to_multiset_insert(e2, 0, s0);
            assert(e.to_multiset() =~= m);
            e
        } else {
            assert forall|v: Card|
                m.count(v) <= #[trigger] rest.to_multiset().count(v) by {
                assert(m.count(v) <= s.to_multiset().count(v));
            }
            let e = lemma_submultiset_realizable(m, rest);
            assert(is_subseq_of(e, s));
            e
        }
    }
}

/// Number of ways to choose `k` of `n` positions: the binomial coefficient,
/// zero when `k` exceeds `n`.
pub open spec fn binom(n: nat, k: nat) -> nat
    decreases n,
{
    if k > n {
        0
    } else if k == 0 {
        1
    } else {
        binom((n - 1) as nat, (k - 1) as nat) + binom((n - 1) as nat, k)
    }
}

/// Pascal's identity, holding also when `k` exceeds `n` (all terms zero).
pub proof fn lemma_binom_pascal(n: nat, k: nat)
    requires
        n >= 1,
        k >= 1,
    ensures
        binom(n, k) == binom((n - 1) as nat, k) + binom((n - 1) as nat, (k - 1) as nat),
{
    if k > n {
        assert(binom(n, k) == 0);
        assert(binom((n - 1) as nat, k) == 0);
        assert(binom((n - 1) as nat, (k - 1) as nat) == 0);
    }
}

/// `v` extends the prefix `base` by a subsequence of `cards[start..]` to a
/// total of `k` cards.
pub open spec fn is_extension_entry(
    cards: Seq<Card>,
    start: int,
    base: Seq<Card>,
    k: int,
    v: Vec<Card>,
) -> bool {
    exists|e: Seq<Card>|
        is_subseq_of(e, cards.skip(start)) && base.len() + e.len() == k && v@ == base + e
}

/// Some entry of `result` holds exactly `base + e`.
pub open spec fn holds_extension(result: Seq<Vec<Card>>, base: Seq<Card>, e: Seq<Card>) -> bool {
    exists|t: int| 0 <= t < result.len() && #[trigger] result[t]@ == base + e
}

/// An extension held by a prefix-preserving longer result list is still held.
proof fn lemma_holds_extension_grows(
    r1: Seq<Vec<Card>>,
    r2: Seq<Vec<Card>>,
    base: Seq<Card>,
    e: Seq<Card>,
)
    requires
        holds_extension(r1, base, e),
        r2.len() >= r1.len(),
        forall|t: int| 0 <= t < r1.len() ==> r2[t] == r1[t],
    ensures
        holds_extension(r2, base, e),
{
    let t = choose|t: int| 0 <= t < r1.len() && #[trigger] r1[t]@ == base + e;
    assert(r2[t]@ == base + e);
}

/// The weakest possible hand value, superseded by any real five-card hand.
pub open spec fn sentinel_hand() -> HandRankView {
    HandRankView::HighCard(seq![2u8])
}

/// Any five cards evaluate strictly above the sentinel.
pub proof fn lemma_sentinel_weakest(s: Seq<Card>)
    requires
        s.len() == 5,
    ensures
        crate::cards::hand_lt(sentinel_hand(), spec_eval5(s)),
{
    broadcast use vstd::seq_lib::group_to_multiset_ensures;

    lemma_desc_leq_total();
    let raw = card_values(s);
    let vs = raw.sort_by(desc_leq());
    raw.lemma_sort_by_ensures(desc_leq());
    vstd::seq_lib::to_multiset_len(raw);
    vstd::seq_lib::to_multiset_len(vs);
    assert(vs.len() == 5);
    crate::cards::lemma_rank_value_bijective();
    assert forall|k: int| 0 <= k < raw.len() implies 2 <= #[trigger] raw[k] <= 14 by {
        assert(raw[k] == s[k].rank.value());
    }
    assert forall|k: int| 0 <= k < vs.len() implies 2 <= #[trigger] vs[k] <= 14 by {
        assert(vs.to_multiset().count(vs[k]) > 0);
        assert(raw.contains(vs[k]));
        let w = choose|w: int| 0 <= w < raw.len() && raw[w] == vs[k];
        assert(2 <= raw[w] <= 14);
    }
    let h = spec_eval5(s);
    if crate::cards::category(h) == 0 {
        assert(h == HandRankView::HighCard(vs));
        assert(crate::cards::tiebreak(h) == vs);
        let a = seq![2u8];
        assert(crate::cards::lex_lt(a, vs)) by {
            if vs[0] == 2 {
                assert(a.drop_first().len() == 0);
                assert(vs.drop_first().len() == 4);
                assert(crate::cards::lex_lt(a.drop_first(), vs.drop_first()));
            }
        }
    }
}

impl HandEvaluator {
    /// All `k`-card subsequences of the cards, each exactly once per way of
    /// choosing positions: the result holds exactly `binom(n, k)` entries
    /// (21 for five out of seven), every entry is a `k`-card subsequence,
    /// and every `k`-card subsequence appears.
    pub fn get_combinations(cards: &Vec<Card>, k: usize) -> (result: Vec<Vec<Card>>)
        ensures
            result@.len() == binom(cards@.len(), k as nat),
            forall|t: int|
                0 <= t < result@.len() ==> is_subseq_of(#[trigger] result@[t]@, cards@)
                    && result@[t]@.len() == k,
            forall|e: Seq<Card>|
                #[trigger] is_subseq_of(e, cards@) && e.len() == k ==> exists|t: int|
                    0 <= t < result@.len() && result@[t]@ == e,
    {
        let mut result: Vec<Vec<Card>> = Vec::new();
        let mut combination: Vec<Card> = Vec::new();
        Self::combine(cards, k, 0, &mut combination, &mut result);
        proof {
            let empty = Seq::<Card>::empty();
            assert(cards@.skip(0) =~= cards@);
            assert forall|t: int|
                0 <= t < result@.len() implies is_subseq_of(#[trigger] result@[t]@, cards@)
                && result@[t]@.len() == k by {
                assert(is_extension_entry(cards@, 0, empty, k as int, result@[t]));
                let e = choose|e: Seq<Card>|
                    is_subseq_of(e, cards@.skip(0)) && empty.len() + e.len() == k as int
                        && result@[t]@ == empty + e;
                assert(empty + e =~= e);
                assert(result@[t]@ == e);
            }
            assert forall|e: Seq<Card>|
                #[trigger] is_subseq_of(e, cards@) && e.len() == k implies exists|t: int|
                0 <= t < result@.len() && result@[t]@ == e by {
                assert(is_subseq_of(e, cards@.skip(0)));
                assert(empty.len() + e.len() == k as int);
                assert(holds_extension(result@, empty, e));
                let t = choose|t: int|
                    0 <= t < result@.len() && #[trigger] result@[t]@ == empty + e;
                assert(empty + e =~= e);
                assert(result@[t]@ == e);
            }
        }
        result
    }

    /// Extends `current` with every way of choosing further cards from
    /// `cards[start..]` up to `k` cards in all, pushing each completed
    /// choice onto `result`. Existing entries stay untouched; the new
    /// entries are exactly the extensions of `current`, one per way of
    /// choosing positions, so exactly `binom` many are appended.
    #[verifier::loop_isolation(false)]
    #[verifier::rlimit(50)]
    pub fn combine(
        cards: &Vec<Card>,
        k: usize,
        start: usize,
        current: &mut Vec<Card>,
        result: &mut Vec<Vec<Card>>,
    )
        requires
            old(current)@.len() <= k,
            start <= cards@.len(),
        ensures
            final(current)@ == old(current)@,
            final(result)@.len() == old(result)@.len() + binom(
                (cards@.len() - start) as nat,
                (k - old(current)@.len()) as nat,
            ),
            forall|t: int| 0 <= t < old(result)@.len() ==> final(result)@[t] == old(result)@[t],
            forall|t: int|
                old(result)@.len() <= t < final(result)@.len() ==> is_extension_entry(
                    cards@,
                    start as int,
                    old(current)@,
                    k as int,
                    #[trigger] final(result)@[t],
                ),
            forall|e: Seq<Card>|
                #[trigger] is_subseq_of(e, cards@.skip(start as int)) && old(current)@.len()
                    + e.len() == k as int ==> holds_extension(
                    final(result)@,
                    old(current)@,
                    e,
                ),
        decreases cards@.len() - start,
    {
        let ghost base = old(current)@;
        if current.len() == k {
            let snapshot = copy_cards(current);
            result.push(snapshot);
            proof {
                let empty = Seq::<Card>::empty();
                assert(is_subseq_of(empty, cards@.skip(start as int)));
                assert(base + empty =~= base);
                assert(result@[result@.len() - 1]@ == base + empty);
                assert(is_extension_entry(cards@, start as int, base, k as int, result@[result@.len() - 1]));
                assert forall|e: Seq<Card>|
                    #[trigger] is_subseq_of(e, cards@.skip(start as int)) && base.len() + e.len()
                        == k as int implies holds_extension(result@, base, e) by {
                    assert(e.len() == 0);
                    assert(e =~= empty);
                    assert(result@[result@.len() - 1]@ == base + e);
                }
                assert(binom((cards@.len() - start) as nat, (k - base.len()) as nat) == 1);
            }
            return ;
        }
        let ghost orig_result = result@;
        let ghost r = (k - base.len()) as nat;
        let mut i: usize = start;
        while i < cards.len()
            invariant
                start <= i <= cards@.len(),
                base.len() < k,
                r == (k - base.len()) as nat,
                current@ == base,
                result@.len() + binom((cards@.len() - i) as nat, r) == orig_result.len()
                    + binom((cards@.len() - start) as nat, r),
                result@.len() >= orig_result.len(),
                forall|t: int| 0 <= t < orig_result.len() ==> result@[t] == orig_result[t],
                forall|t: int|
                    orig_result.len() <= t < result@.len() ==> is_extension_entry(
                        cards@,
                        start as int,
                        base,
                        k as int,
                        #[trigger] result@[t],
                    ),
                forall|e: Seq<Card>, j: int|
                    #![trigger is_subseq_of(e, cards@.skip(start as int)), cards@[j]]
                    is_subseq_of(e, cards@.skip(start as int)) && base.len() + e.len()
                        == k as int && e.len() > 0 && start <= j < i && cards@[j] == e[0]
                        && is_subseq_of(e.drop_first(), cards@.skip(j + 1))
                        ==> holds_extension(result@, base, e),
            decreases cards@.len() - i,
        {
            let ghost prev_result = result@;
            current.push(cards[i]);
            Self::combine(cards, k, i + 1, current, result);
            current.pop();
            proof {
                let pushed = base.push(cards@[i as int]);
                assert(pushed.drop_last() =~= base);
                assert(current@ == base);
                assert(result@.len() == prev_result.len() + binom(
                    (cards@.len() - (i + 1)) as nat,
                    (k - pushed.len()) as nat,
                ));
                assert((k - pushed.len()) as nat == (r - 1) as nat);
                lemma_binom_pascal((cards@.len() - i) as nat, r);
                assert(binom((cards@.len() - i) as nat, r) == binom(
                    (cards@.len() - (i + 1)) as nat,
                    r,
                ) + binom((cards@.len() - (i + 1)) as nat, (r - 1) as nat));
                assert forall|t: int|
                    orig_result.len() <= t < result@.len() implies is_extension_entry(
                    cards@,
                    start as int,
                    base,
                    k as int,
                    #[trigger] result@[t],
                ) by {
                    if t < prev_result.len() {
                        assert(result@[t] == prev_result[t]);
                        assert(is_extension_entry(cards@, start as int, base, k as int, prev_result[t]));
                    } else {
                        assert(is_extension_entry(cards@, (i + 1) as int, pushed, k as int, result@[t]));
                        let e2 = choose|e2: Seq<Card>|
                            is_subseq_of(e2, cards@.skip(i + 1)) && pushed.len() + e2.len()
                                == k as int && result@[t]@ == pushed + e2;
                        lemma_subseq_cons(cards@, start as int, i as int, e2);
                        let e = seq![cards@[i as int]] + e2;
                        assert(base + e =~= pushed + e2);
                        assert(result@[t]@ == base + e);
                        assert(base.len() + e.len() == k as int);
                    }
                }
                assert forall|e: Seq<Card>, j: int|
                    is_subseq_of(e, cards@.skip(start as int)) && base.len() + e.len()
                        == k as int && e.len() > 0 && start <= j < i + 1 && cards@[j] == e[0]
                        && is_subseq_of(e.drop_first(), cards@.skip(j + 1))
                        implies holds_extension(result@, base, e) by {
                    if j < i {
                        lemma_holds_extension_grows(prev_result, result@, base, e);
                    } else {
                        assert(j == i);
                        assert(is_subseq_of(e.drop_first(), cards@.skip(i + 1)));
                        assert(pushed.len() + e.drop_first().len() == k as int);
                        assert(holds_extension(result@, pushed, e.drop_first()));
                        let t = choose|t: int|
                            0 <= t < result@.len() && #[trigger] result@[t]@ == pushed
                                + e.drop_first();
                        assert(e =~= seq![e[0]] + e.drop_first());
                        assert(base + e =~= pushed + e.drop_first());
                        assert(result@[t]@ == base + e);
                    }
                }
            }
            i = i + 1;
        }
        proof {
            assert(binom((cards@.len() - i) as nat, r) == 0);
            assert forall|e: Seq<Card>|
                #[trigger] is_subseq_of(e, cards@.skip(start as int)) && base.len() + e.len()
                    == k as int implies holds_extension(result@, base, e) by {
                assert(e.len() > 0);
                lemma_subseq_split(e, cards@, start as int);
                let j = choose|j: int|
                    start <= j < cards@.len() && cards@[j] == e[0] && is_subseq_of(
                        e.drop_first(),
                        cards@.skip(j + 1),
                    );
                assert(cards@[j] == e[0]);
            }
        }
    }

    /// The strongest hand value achievable by any five-card choice from the
    /// given cards: it is reached by some five-card subsequence, and no
    /// five-card subsequence evaluates above it.
    pub fn evaluate_best_hand(cards: &Vec<Card>) -> (best: HandRank)
        requires
            cards@.len() >= 5,
        ensures
            exists|e: Seq<Card>|
                is_subseq_of(e, cards@) && e.len() == 5 && best@ == spec_eval5(e),
            forall|e: Seq<Card>|
                #[trigger] is_subseq_of(e, cards@) && e.len() == 5 ==> !crate::cards::hand_lt(
                    best@,
                    spec_eval5(e),
                ),
    {
        let combos = Self::get_combinations(cards, 5);
        proof {
            lemma_take_is_subseq(cards@, 5);
            assert(cards@.take(5).len() == 5);
            assert(combos@.len() >= 1);
        }
        let mut sentinel_kickers: Vec<Rank> = Vec::new();
        sentinel_kickers.push(Rank::Two);
        assert(sentinel_kickers@ =~= seq![Rank::Two]);
        let mut best = HandRank::HighCard(sentinel_kickers);
        proof {
            assert(crate::cards::rank_values(seq![Rank::Two]) =~= seq![2u8]);
            assert(best@ == sentinel_hand());
        }
        let mut t: usize = 0;
        while t < combos.len()
            invariant
                0 <= t <= combos@.len(),
                cards@.len() >= 5,
                forall|u: int|
                    0 <= u < combos@.len() ==> is_subseq_of(#[trigger] combos@[u]@, cards@)
                        && combos@[u]@.len() == 5,
                t == 0 ==> best@ == sentinel_hand(),
                t > 0 ==> exists|e: Seq<Card>|
                    is_subseq_of(e, cards@) && e.len() == 5 && best@ == spec_eval5(e),
                forall|u: int|
                    0 <= u < t ==> !crate::cards::hand_lt(
                        best@,
                        spec_eval5(#[trigger] combos@[u]@),
                    ),
            decreases combos@.len() - t,
        {
            let combo = &combos[t];
            let hr = Self::evaluate_five_cards(combo);
            let ghost prev = best@;
            let better = hr.beats(&best);
            proof {
                if t == 0 {
                    lemma_sentinel_weakest(combo@);
                }
            }
            if better {
                proof {
                    assert forall|u: int|
                        0 <= u < t implies !crate::cards::hand_lt(
                        hr@,
                        spec_eval5(#[trigger] combos@[u]@),
                    ) by {
                        if crate::cards::hand_lt(hr@, spec_eval5(combos@[u]@)) {
                            crate::cards::lemma_hand_lt_transitive(
                                prev,
                                hr@,
                                spec_eval5(combos@[u]@),
                            );
                        }
                    }
                    crate::cards::lemma_hand_lt_irreflexive(hr@);
                }
                best = hr;
            }
            proof {
                if t == 0 && !better {
                    assert(false);
                }
            }
            t = t + 1;
        }
        proof {
            assert forall|e: Seq<Card>|
                #[trigger] is_subseq_of(e, cards@) && e.len() == 5 implies !crate::cards::hand_lt(
                best@,
                spec_eval5(e),
            ) by {
                let u = choose|u: int| 0 <= u < combos@.len() && combos@[u]@ == e;
                assert(!crate::cards::hand_lt(best@, spec_eval5(combos@[u]@)));
            }
        }
        best
    }
}

/// The best hand depends only on which cards are held, never on their
/// order: any two values that each attain the maximum over the five-card
/// subsequences of two reorderings of the same cards — what
/// [`HandEvaluator::evaluate_best_hand`] ensures of its result — are equal.
pub proof fn lemma_best_hand_order_invariant(
    cards: Seq<Card>,
    shuffled: Seq<Card>,
    b1: HandRankView,
    b2: HandRankView,
)
    requires
        cards.to_multiset() == shuffled.to_multiset(),
        exists|e: Seq<Card>| is_subseq_of(e, cards) && e.len() == 5 && b1 == spec_eval5(e),
        forall|e: Seq<Card>|
            #[trigger] is_subseq_of(e, cards) && e.len() == 5 ==> !crate::cards::hand_lt(
                b1,
                spec_eval5(e),
            ),
        exists|e: Seq<Card>| is_subseq_of(e, shuffled) && e.len() == 5 && b2 == spec_eval5(e),
        forall|e: Seq<Card>|
            #[trigger] is_subseq_of(e, shuffled) && e.len() == 5 ==> !crate::cards::hand_lt(
                b2,
                spec_eval5(e),
            ),
    ensures
        b1 == b2,
{
    let e1 = choose|e: Seq<Card>| is_subseq_of(e, cards) && e.len() == 5 && b1 == spec_eval5(e);
    lemma_subseq_submultiset(e1, cards);
    assert(e1.to_multiset().subset_of(shuffled.to_multiset()));
    let f1 = lemma_submultiset_realizable(e1.to_multiset(), shuffled);
    vstd::seq_lib::to_multiset_len(e1);
    vstd::seq_lib::to_multiset_len(f1);
    assert(f1.len() == 5);
    lemma_eval5_multiset(e1, f1);
    assert(!crate::cards::hand_lt(b2, spec_eval5(f1)));
    let e2 = choose|e: Seq<Card>|
        is_subseq_of(e, shuffled) && e.len() == 5 && b2 == spec_eval5(e);
    lemma_subseq_submultiset(e2, shuffled);
    assert(e2.to_multiset().subset_of(cards.to_multiset()));
    let f2 = lemma_submultiset_realizable(e2.to_multiset(), cards);
    vstd::seq_lib::to_multiset_len(e2);
    vstd::seq_lib::to_multiset_len(f2);
    assert(f2.len() == 5);
    lemma_eval5_multiset(e2, f2);
    assert(!crate::cards::hand_lt(b1, spec_eval5(f2)));
    crate::cards::lemma_hand_lt_trichotomy(b1, b2);
}

} // verus!
