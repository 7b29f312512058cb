//! The card notation codec and the random-card sampling helper: a card token
//! is a rank character followed by a suit character, and maps to a single bit
//! position 0..51.

use crate::bits::{
    bit_set, card_count, count_below, count_cards, decks_disjoint, lemma_bit_single,
    lemma_count_single, lemma_valid_single, test_bit, valid_deck, Deck,
};
use vstd::prelude::*;

verus! {

/// The rank character of rank index `r`: deuce to ace.
pub open spec fn rank_char(r: int) -> char {
    seq!['2', '3', '4', '5', '6', '7', '8', '9', 'T', 'J', 'Q', 'K', 'A'][r]
}

/// The suit character of suit index `s`: clubs, hearts, spades, diamonds.
pub open spec fn suit_char(s: int) -> char {
    seq!['c', 'h', 's', 'd'][s]
}

/// The rank index of a rank character, or 13 for any other character.
pub open spec fn rank_of_char(c: char) -> int {
    if c == '2' {
        0
    } else if c == '3' {
        1
    } else if c == '4' {
        2
    } else if c == '5' {
        3
    } else if c == '6' {
        4
    } else if c == '7' {
        5
    } else if c == '8' {
        6
    } else if c == '9' {
        7
    } else if c == 'T' {
        8
    } else if c == 'J' {
        9
    } else if c == 'Q' {
        10
    } else if c == 'K' {
        11
    } else if c == 'A' {
        12
    } else {
        13
    }
}

/// The suit index of a suit character, upper or lower case, or 4 for any
/// other character.
pub open spec fn suit_of_char(c: char) -> int {
    if c == 'c' || c == 'C' {
        0
    } else if c == 'h' || c == 'H' {
        1
    } else if c == 's' || c == 'S' {
        2
    } else if c == 'd' || c == 'D' {
        3
    } else {
        4
    }
}

/// The two-character token of the card at bit position `value`.
pub open spec fn card_str(value: int) -> Seq<char> {
    seq![rank_char(value % 13), suit_char(value / 13)]
}

/// The bit position a card token names: its first character gives the rank,
/// its second the suit.
pub open spec fn card_code(s: Seq<char>) -> int {
    suit_of_char(s[1]) * 13 + rank_of_char(s[0])
}

/// A card token is at least two characters, a rank character then a suit
/// character.
pub open spec fn valid_card_str(s: Seq<char>) -> bool {
    s.len() >= 2 && rank_of_char(s[0]) < 13 && suit_of_char(s[1]) < 4
}

/// Converts a bit position 0..51 to its two-character card token.
pub fn card_to_string(value: u8) -> (r: String)
    requires
        value < 52,
    ensures
        r@ == card_str(value as int),
{
    let rank_s: &str = match value % 13 {
        0 => "2",
        1 => "3",
        2 => "4",
        3 => "5",
        4 => "6",
        5 => "7",
        6 => "8",
        7 => "9",
        8 => "T",
        9 => "J",
        10 => "Q",
        11 => "K",
        _ => "A",
    };
    let suit_s: &str = match value / 13 {
        0 => "c",
        1 => "h",
        2 => "s",
        _ => "d",
    };
    let r = String::from_str(rank_s).concat(suit_s);
    proof {
        reveal_strlit("2");
        reveal_strlit("3");
        reveal_strlit("4");
        reveal_strlit("5");
        reveal_strlit("6");
        reveal_strlit("7");
        reveal_strlit("8");
        reveal_strlit("9");
        reveal_strlit("T");
        reveal_strlit("J");
        reveal_strlit("Q");
        reveal_strlit("K");
        reveal_strlit("A");
        reveal_strlit("c");
        reveal_strlit("h");
        reveal_strlit("s");
        reveal_strlit("d");
        assert(r@ =~= card_str(value as int));
    }
    r
}

/// Converts a card token to its bit position 0..51. The token's first two
/// characters must be a rank character and a suit character; anything may
/// follow them.
pub fn card_from_string(s: &str) -> (r: u8)
    requires
        valid_card_str(s@),
    ensures
        r as int == card_code(s@),
        r < 52,
{
    let c0 = s.get_char(0);
    let c1 = s.get_char(1);
    let rank: u8 = match c0 {
        '2' => 0,
        '3' => 1,
        '4' => 2,
        '5' => 3,
        '6' => 4,
        '7' => 5,
        '8' => 6,
        '9' => 7,
        'T' => 8,
        'J' => 9,
        'Q' => 10,
        'K' => 11,
        _ => 12,
    };
    let suit: u8 = match c1 {
        'c' | 'C' => 0,
        'h' | 'H' => 1,
        's' | 'S' => 2,
        _ => 3,
    };
    suit * 13 + rank
}

/// Builds a card-set from card tokens; repeated cards collapse to one bit.
pub fn to_deck(cards: &[&str]) -> (r: Deck)
    requires
        forall|i: int| 0 <= i < cards@.len() ==> valid_card_str(#[trigger] cards@[i]@),
    ensures
        valid_deck(r),
        forall|j: int|
            0 <= j < 64 ==> (bit_set(r, j) <==> exists|i: int|
                0 <= i < cards@.len() && card_code(#[trigger] cards@[i]@) == j),
{
    let mut deck: Deck = 0;
    proof {
        assert(valid_deck(0u64)) by {
            assert(0u64 >> 52u64 == 0u64) by (bit_vector);
        }
        assert forall|j: int| 0 <= j < 64 implies !bit_set(0u64, j) by {
            crate::bits::lemma_zero_bits(j);
        }
    }
    let mut i: usize = 0;
    while i < cards.len()
        invariant
            i <= cards@.len(),
            forall|m: int| 0 <= m < cards@.len() ==> valid_card_str(#[trigger] cards@[m]@),
            valid_deck(deck),
            forall|j: int|
                0 <= j < 64 ==> (bit_set(deck, j) <==> exists|m: int|
                    0 <= m < i && card_code(#[trigger] cards@[m]@) == j),
        decreases cards@.len() - i,
    {
        let code = card_from_string(cards[i]);
        proof {
            lemma_valid_single(code as int);
            crate::bits::lemma_valid_or(deck, 1u64 << (code as u64));
            assert forall|j: int|
                0 <= j < 64 implies ((#[trigger] bit_set(deck | (1u64 << (code as u64)), j))
                <==> exists|m: int| 0 <= m < i + 1 && card_code(#[trigger] cards@[m]@) == j) by {
                crate::bits::lemma_bit_or(deck, 1u64 << (code as u64), j);
                lemma_bit_single(code as int, j);
                if bit_set(deck | (1u64 << (code as u64)), j) {
                    if j == code as int {
                        assert(card_code(cards@[i as int]@) == j);
                    } else {
                        let m = choose|m: int|
                            0 <= m < i && card_code(#[trigger] cards@[m]@) == j;
                        assert(0 <= m < i + 1 && card_code(cards@[m]@) == j);
                    }
                }
            }
        }
        deck = deck | (1u64 << (code as u64));
        i = i + 1;
    }
    deck
}

/// The tokens of the cards in `d` below position `n`, in ascending order of
/// bit position.
pub open spec fn card_strings_below(d: u64, n: int) -> Seq<Seq<char>>
    decreases n,
{
    if n <= 0 {
        Seq::empty()
    } else if bit_set(d, n - 1) {
        card_strings_below(d, n - 1) + seq![card_str(n - 1)]
    } else {
        card_strings_below(d, n - 1)
    }
}

proof fn lemma_card_strings_len(d: u64, n: int)
    ensures
        card_strings_below(d, n).len() == count_below(d, n),
    decreases n,
{
    if n > 0 {
        lemma_card_strings_len(d, n - 1);
    }
}

/// Lists the card tokens of a card-set, in ascending order of bit position.
pub fn from_deck(deck: Deck) -> (v: Vec<String>)
    requires
        valid_deck(deck),
    ensures
        v@.map_values(|s: String| s@) == card_strings_below(deck, 52),
        v@.len() == card_count(deck),
{
    let mut v: Vec<String> = Vec::new();
    let mut i: u32 = 0;
    proof {
        assert(v@.map_values(|s: String| s@) =~= card_strings_below(deck, 0));
    }
    while i < 52
        invariant
            i <= 52,
            valid_deck(deck),
            v@.map_values(|s: String| s@) == card_strings_below(deck, i as int),
        decreases 52 - i,
    {
        if test_bit(deck, i) {
            let s = card_to_string(i as u8);
            let ghost old_v = v@;
            v.push(s);
            proof {
                assert(v@.map_values(|s: String| s@) =~= old_v.map_values(|s: String| s@)
                    + seq![card_str(i as int)]);
            }
        }
        i = i + 1;
    }
    proof {
        lemma_card_strings_len(deck, 52);
    }
    v
}

/// Relies on rand::Rng::gen_range over `0..n`: it returns a uniformly
/// random value below `n` and panics only on an empty range.
#[verifier::external_body]
fn random_below(n: u32) -> (r: u32)
    requires
        1 <= n,
    ensures
        r < n,
{
    rand::Rng::gen_range(&mut rand::thread_rng(), 0..n)
}

/// How many of the positions `lo..hi` are free in `d`.
pub open spec fn free_in(d: u64, lo: int, hi: int) -> int {
    (hi - lo) - (count_below(d, hi) - count_below(d, lo))
}

/// Draws one uniformly random still-undealt card from the deck `deck`,
/// returned as a one-card set disjoint from it.
pub fn get_random_card(deck: Deck) -> (r: Deck)
    requires
        valid_deck(deck),
        card_count(deck) < 52,
    ensures
        valid_deck(r),
        card_count(r) == 1,
        decks_disjoint(r, deck),
{
    let dealt = count_cards(deck);
    let mut value = random_below(52 - dealt);
    let mut i: u32 = 0;
    while i < 52
        invariant
            valid_deck(deck),
            i <= 52,
            (value as int) < free_in(deck, i as int, 52),
        decreases 52 - i,
    {
        if !test_bit(deck, i) {
            if value == 0 {
                proof {
                    lemma_valid_single(i as int);
                    lemma_count_single(i as int, 52);
                    assert forall|j: int|
                        0 <= j < 64 implies !(bit_set(1u64 << (i as u64), j) && bit_set(
                        deck,
                        j,
                    )) by {
                        lemma_bit_single(i as int, j);
                    }
                }
                return 1u64 << (i as u64);
            }
            value = value - 1;
        }
        i = i + 1;
    }
    proof {
        assert(false);
    }
    0
}

} // verus!
