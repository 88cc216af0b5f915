//! Commit/reveal digest scheme for hiding cards until showdown.
//!
//! A commitment is a fixed 32-byte digest binding a pair of cards (or a whole
//! deck) to a salt. The construction is a fixed-layout XOR fold, not a
//! cryptographic hash: it detects accidental mismatches but offers no real
//! pre-image or collision resistance. The exact byte layout is a de facto
//! wire format; parties must reproduce it bit-exactly to cross-verify.

use vstd::prelude::*;
use vstd::string::*;

use crate::cards::{Card, Rank, Suit};

verus! {

/// Commit/reveal scheme over card pairs and decks.
pub struct CommitReveal;

/// The 32-byte digest of a card pair under a salt: bytes 0..4 encode the two
/// cards' rank and suit values in card order; the salt's bytes (at most the
/// first 28) follow from byte 4 on; all remaining bytes are zero.
pub open spec fn spec_commit_cards(a: Card, b: Card, salt: Seq<u8>) -> Seq<u8> {
    Seq::new(
        32,
        |i: int|
            if i == 0 {
                a.rank.value()
            } else if i == 1 {
                a.suit.value()
            } else if i == 2 {
                b.rank.value()
            } else if i == 3 {
                b.suit.value()
            } else if i - 4 < salt.len() && i - 4 < 28 {
                salt[i - 4]
            } else {
                0u8
            },
    )
}

/// A reveal matches a commitment exactly when recomputing the digest from
/// the revealed cards and salt reproduces it byte for byte.
pub open spec fn spec_verify(digest: Seq<u8>, a: Card, b: Card, salt: Seq<u8>) -> bool {
    digest == spec_commit_cards(a, b, salt)
}

/// The 32-byte digest of a whole deck: each card's rank value is XORed into
/// byte `index % 32` and its suit value into the following byte (wrapping),
/// so the digest is order- and content-sensitive.
pub open spec fn spec_commit_deck(deck: Seq<Card>) -> Seq<u8>
    decreases deck.len(),
{
    if deck.len() == 0 {
        Seq::new(32, |i: int| 0u8)
    } else {
        let prev = spec_commit_deck(deck.drop_last());
        let i = deck.len() - 1;
        let c = deck.last();
        let idx = i % 32;
        let idx2 = (idx + 1) % 32;
        prev.update(idx, prev[idx] ^ c.rank.value()).update(idx2, prev[idx2] ^ c.suit.value())
    }
}

/// A deck digest always has 32 bytes.
pub proof fn lemma_commit_deck_len(deck: Seq<Card>)
    ensures
        spec_commit_deck(deck).len() == 32,
    decreases deck.len(),
{
    if deck.len() > 0 {
        lemma_commit_deck_len(deck.drop_last());
    }
}

/// A 32-byte vector of zeroes.
fn zeroed_digest() -> (h: Vec<u8>)
    ensures
        h@ =~= Seq::new(32, |i: int| 0u8),
{
    let mut h: Vec<u8> = Vec::new();
    let mut i: usize = 0;
    while i < 32
        invariant
            0 <= i <= 32,
            h@ =~= Seq::new(i as nat, |k: int| 0u8),
        decreases 32 - i,
    {
        h.push(0u8);
        assert(h@ =~= Seq::new((i + 1) as nat, |k: int| 0u8));
        i = i + 1;
    }
    h
}

/// Byte-for-byte equality of two byte vectors.
fn bytes_eq(a: &Vec<u8>, b: &Vec<u8>) -> (r: bool)
    ensures
        r == (a@ == b@),
{
    if a.len() != b.len() {
        assert(a@ != b@);
        return false;
    }
    let mut i: usize = 0;
    while i < a.len()
        invariant
            0 <= i <= a.len(),
            a@.len() == b@.len(),
            forall|k: int| 0 <= k < i ==> a@[k] == b@[k],
        decreases a.len() - i,
    {
        if a[i] != b[i] {
            return false;
        }
        i = i + 1;
    }
    assert(a@ =~= b@);
    true
}

impl CommitReveal {
    /// Computes the commitment digest for a pair of cards and a salt.
    /// Deterministic and order-sensitive; salt bytes beyond the 28 usable
    /// digest positions are ignored, never an error.
    pub fn commit_cards(cards: &[Card; 2], salt: &str) -> (h: Vec<u8>)
        ensures
            h@ == spec_commit_cards(cards@[0], cards@[1], salt.spec_bytes()),
            h@.len() == 32,
    {
        let sb: &[u8] = salt.as_bytes();
        let mut h = zeroed_digest();
        let c0 = cards[0];
        let c1 = cards[1];
        h.set(0, c0.rank.as_u8());
        h.set(1, c0.suit.as_u8());
        h.set(2, c1.rank.as_u8());
        h.set(3, c1.suit.as_u8());
        let mut i: usize = 0;
        while i < sb.len()
            invariant
                0 <= i <= sb.len(),
                sb@ == salt.spec_bytes(),
                c0 == cards@[0],
                c1 == cards@[1],
                h@ =~= spec_commit_cards(cards@[0], cards@[1], sb@.take(i as int)),
            decreases sb.len() - i,
        {
            if i < 28 {
                let prior = h[i + 4];
                h.set(i + 4, prior ^ sb[i]);
                proof {
                    assert(spec_commit_cards(cards@[0], cards@[1], sb@.take(i as int))[i + 4]
                        == 0u8);
                    let sv = sb@[i as int];
                    assert(prior ^ sv == sv) by (bit_vector)
                        requires
                            prior == 0u8,
                    ;
                }
            }
            assert(h@ =~= spec_commit_cards(cards@[0], cards@[1], sb@.take(i + 1 as int)));
            i = i + 1;
        }
        assert(sb@.take(sb@.len() as int) =~= sb@);
        h
    }

    /// Recomputes the digest from the revealed cards and salt and compares
    /// it byte for byte against the stored commitment. True exactly on a
    /// bit-exact match; any mismatch, honest or adversarial, yields false.
    pub fn verify_reveal(commitment: &Vec<u8>, revealed_cards: &[Card; 2], salt: &str) -> (r:
        bool)
        ensures
            r == spec_verify(
                commitment@,
                revealed_cards@[0],
                revealed_cards@[1],
                salt.spec_bytes(),
            ),
    {
        let computed = Self::commit_cards(revealed_cards, salt);
        bytes_eq(commitment, &computed)
    }

    /// Renders a time-derived value in hexadecimal. The result makes
    /// repeated commitments from one party distinguishable; it provides no
    /// entropy or secrecy.
    pub fn generate_salt() -> (s: String)
        ensures
            exists|n: u128| s@ == spec_hex(n),
            s@.len() >= 1,
            forall|i: int| 0 <= i < s@.len() ==> is_hex_char(#[trigger] s@[i]),
    {
        let n = unix_nanos();
        let s = hex_string(n);
        proof {
            lemma_spec_hex_digits(n);
        }
        s
    }

    /// Computes the order-sensitive digest of a whole deck.
    pub fn commit_deck(deck: &Vec<Card>) -> (h: Vec<u8>)
        ensures
            h@ == spec_commit_deck(deck@),
            h@.len() == 32,
    {
        let mut h = zeroed_digest();
        assert(h@ =~= spec_commit_deck(deck@.take(0)));
        let mut i: usize = 0;
        while i < deck.len()
            invariant
                0 <= i <= deck.len(),
                h@.len() == 32,
                h@ == spec_commit_deck(deck@.take(i as int)),
            decreases deck.len() - i,
        {
            let idx = i % 32;
            let idx2 = (idx + 1) % 32;
            let c = deck[i];
            let prior = h[idx];
            h.set(idx, prior ^ c.rank.as_u8());
            let prior2 = h[idx2];
            h.set(idx2, prior2 ^ c.suit.as_u8());
            proof {
                let pfx = deck@.take(i + 1 as int);
                assert(pfx.drop_last() =~= deck@.take(i as int));
                assert(pfx.last() == deck@[i as int]);
                assert(h@ =~= spec_commit_deck(pfx));
            }
            i = i + 1;
        }
        assert(deck@.take(deck@.len() as int) =~= deck@);
        proof {
            lemma_commit_deck_len(deck@);
        }
        h
    }
}

/// Commitment digests are deterministic: the same cards and salt always
/// produce the identical digest.
pub proof fn lemma_commit_deterministic(a: Card, b: Card, salt: Seq<u8>, d1: Seq<u8>, d2: Seq<u8>)
    requires
        d1 == spec_commit_cards(a, b, salt),
        d2 == spec_commit_cards(a, b, salt),
    ensures
        d1 == d2,
{
}

/// Round trip: a digest committed from a card pair and salt always verifies
/// against the same pair and salt.
pub proof fn lemma_commit_verify_roundtrip(a: Card, b: Card, salt: Seq<u8>)
    ensures
        spec_verify(spec_commit_cards(a, b, salt), a, b, salt),
{
}

/// Negative case: two different card pairs never share a digest under the
/// same salt, so verifying one pair's commitment against the other fails.
/// The first four digest bytes pin both cards exactly, leaving this weak
/// digest no room for card-pair collisions.
pub proof fn lemma_commit_binds_cards(a1: Card, b1: Card, a2: Card, b2: Card, salt: Seq<u8>)
    requires
        a1 != a2 || b1 != b2,
    ensures
        spec_commit_cards(a1, b1, salt) != spec_commit_cards(a2, b2, salt),
        !spec_verify(spec_commit_cards(a1, b1, salt), a2, b2, salt),
{
    let d1 = spec_commit_cards(a1, b1, salt);
    let d2 = spec_commit_cards(a2, b2, salt);
    crate::cards::lemma_rank_value_bijective();
    crate::cards::lemma_suit_value_bijective();
    if d1 == d2 {
        assert(d1[0] == d2[0] && d1[1] == d2[1] && d1[2] == d2[2] && d1[3] == d2[3]);
        assert(a1.rank == a2.rank && a1.suit == a2.suit && b1.rank == b2.rank && b1.suit
            == b2.suit);
        assert(a1 == a2 && b1 == b2);
    }
}

/// A lowercase hexadecimal digit character.
pub open spec fn is_hex_char(c: char) -> bool {
    ('0' <= c && c <= '9') || ('a' <= c && c <= 'f')
}

/// The lowercase hexadecimal digit for a value below 16.
pub open spec fn spec_hex_digit(d: u8) -> char {
    if d == 0 {
        '0'
    } else if d == 1 {
        '1'
    } else if d == 2 {
        '2'
    } else if d == 3 {
        '3'
    } else if d == 4 {
        '4'
    } else if d == 5 {
        '5'
    } else if d == 6 {
        '6'
    } else if d == 7 {
        '7'
    } else if d == 8 {
        '8'
    } else if d == 9 {
        '9'
    } else if d == 10 {
        'a'
    } else if d == 11 {
        'b'
    } else if d == 12 {
        'c'
    } else if d == 13 {
        'd'
    } else if d == 14 {
        'e'
    } else {
        'f'
    }
}

/// The lowercase hexadecimal rendering of `n`, without leading zeroes
/// (a single `'0'` for zero).
pub open spec fn spec_hex(n: u128) -> Seq<char>
    decreases n,
{
    if n < 16 {
        seq![spec_hex_digit((n % 16) as u8)]
    } else {
        spec_hex((n / 16) as u128).push(spec_hex_digit((n % 16) as u8))
    }
}

/// A hexadecimal rendering is nonempty and uses hex digits only.
pub proof fn lemma_spec_hex_digits(n: u128)
    ensures
        spec_hex(n).len() >= 1,
        forall|i: int| 0 <= i < spec_hex(n).len() ==> is_hex_char(#[trigger] spec_hex(n)[i]),
    decreases n,
{
    if n >= 16 {
        lemma_spec_hex_digits((n / 16) as u128);
    }
}

/// Relies on std::time::SystemTime::now and Duration::as_nanos: nanoseconds
/// since the Unix epoch, a monotonically growing time-derived value (zero in
/// the degenerate case of a clock before the epoch). Nothing is promised of
/// the result: it depends on the wall clock.
#[verifier::external_body]
fn unix_nanos() -> u128 {
    std::time::SystemTime::now()
        .duration_since(std::time::UNIX_EPOCH)
        .map(|d| d.as_nanos())
        .unwrap_or(0)
}

/// The literal string for one hexadecimal digit.
fn hex_digit_str(d: u8) -> (s: &'static str)
    requires
        d < 16,
    ensures
        s@ =~= seq![spec_hex_digit(d)],
{
    proof {
        reveal_strlit("0");
        reveal_strlit("1");
        reveal_strlit("2");
        reveal_strlit("3");
        reveal_strlit("4");
        reveal_strlit("5");
        reveal_strlit("6");
        reveal_strlit("7");
        reveal_strlit("8");
        reveal_strlit("9");
        reveal_strlit("a");
        reveal_strlit("b");
        reveal_strlit("c");
        reveal_strlit("d");
        reveal_strlit("e");
        reveal_strlit("f");
    }
    if d == 0 {
        "0"
    } else if d == 1 {
        "1"
    } else if d == 2 {
        "2"
    } else if d == 3 {
        "3"
    } else if d == 4 {
        "4"
    } else if d == 5 {
        "5"
    } else if d == 6 {
        "6"
    } else if d == 7 {
        "7"
    } else if d == 8 {
        "8"
    } else if d == 9 {
        "9"
    } else if d == 10 {
        "a"
    } else if d == 11 {
        "b"
    } else if d == 12 {
        "c"
    } else if d == 13 {
        "d"
    } else if d == 14 {
        "e"
    } else {
        "f"
    }
}

/// Builds the lowercase hexadecimal rendering of `n`.
pub fn hex_string(n: u128) -> (s: String)
    ensures
        s@ == spec_hex(n),
    decreases n,
{
    let d = (n % 16) as u8;
    let ds = hex_digit_str(d);
    if n < 16 {
        let s = ds.to_owned();
        assert(s@ =~= spec_hex(n));
        s
    } else {
        let mut s = hex_string(n / 16);
        s.append(ds);
        assert(s@ =~= spec_hex(n));
        s
    }
}

} // verus!
