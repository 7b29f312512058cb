//! The card-set representation: a 52-bit field, one bit per card, four
//! contiguous 13-bit rank groups (one per suit).

use vstd::prelude::*;

verus! {

/// A card-set: bit index = suit_index * 13 + rank_index, with rank 0 the
/// deuce and rank 12 the ace. Bits 52..64 are always clear in a valid deck.
pub type Deck = u64;

/// Whether bit `i` of `d` is set.
pub open spec fn bit_set(d: u64, i: int) -> bool
    recommends
        0 <= i < 64,
{
    (d >> (i as u64)) & 1u64 == 1u64
}

/// A valid card-set uses only the 52 card bits.
pub open spec fn valid_deck(d: u64) -> bool {
    d >> 52u64 == 0u64
}

/// How many of the bits 0..n of `d` are set.
pub open spec fn count_below(d: u64, n: int) -> int
    decreases n,
{
    if n <= 0 {
        0
    } else {
        count_below(d, n - 1) + if bit_set(d, n - 1) { 1int } else { 0int }
    }
}

/// The number of cards in a card-set.
pub open spec fn card_count(d: u64) -> int {
    count_below(d, 52)
}

/// Tests one card bit.
pub fn test_bit(d: u64, i: u32) -> (r: bool)
    requires
        i < 64,
    ensures
        r == bit_set(d, i as int),
{
    (d >> (i as u64)) & 1u64 == 1u64
}

/// Counts the cards in a card-set.
pub fn count_cards(d: u64) -> (r: u32)
    ensures
        r == card_count(d),
        r <= 52,
{
    let mut c: u32 = 0;
    let mut i: u32 = 0;
    while i < 52
        invariant
            i <= 52,
            c == count_below(d, i as int),
            c <= i,
        decreases 52 - i,
    {
        if test_bit(d, i) {
            c = c + 1;
        }
        i = i + 1;
    }
    c
}

/// Two card-sets share no card.
pub open spec fn decks_disjoint(a: u64, b: u64) -> bool {
    forall|j: int| 0 <= j < 64 ==> !(bit_set(a, j) && bit_set(b, j))
}

proof fn bv_or_bit(a: u64, b: u64, j: u64)
    by (bit_vector)
    requires
        j < 64,
    ensures
        (((a | b) >> j) & 1u64 == 1u64) <==> (((a >> j) & 1u64 == 1u64) || ((b >> j) & 1u64
            == 1u64)),
{
}

/// A union holds the cards of both parts.
pub proof fn lemma_bit_or(a: u64, b: u64, j: int)
    requires
        0 <= j < 64,
    ensures
        bit_set(a | b, j) == (bit_set(a, j) || bit_set(b, j)),
{
    bv_or_bit(a, b, j as u64);
}

proof fn bv_and_bit(a: u64, b: u64, j: u64)
    by (bit_vector)
    requires
        j < 64,
    ensures
        (((a & b) >> j) & 1u64 == 1u64) <==> (((a >> j) & 1u64 == 1u64) && ((b >> j) & 1u64
            == 1u64)),
{
}

/// An intersection holds the cards common to both parts.
pub proof fn lemma_bit_and(a: u64, b: u64, j: int)
    requires
        0 <= j < 64,
    ensures
        bit_set(a & b, j) == (bit_set(a, j) && bit_set(b, j)),
{
    bv_and_bit(a, b, j as u64);
}

proof fn bv_single_bit(i: u64, j: u64)
    by (bit_vector)
    requires
        i < 64,
        j < 64,
    ensures
        (((1u64 << i) >> j) & 1u64 == 1u64) <==> i == j,
{
}

/// A one-card set holds exactly its one card.
pub proof fn lemma_bit_single(i: int, j: int)
    requires
        0 <= i < 64,
        0 <= j < 64,
    ensures
        bit_set(1u64 << (i as u64), j) == (i == j),
{
    bv_single_bit(i as u64, j as u64);
}

proof fn bv_zero_bits(j: u64)
    by (bit_vector)
    requires
        j < 64,
    ensures
        (0u64 >> j) & 1u64 == 0u64,
{
}

/// The empty card-set holds no card.
pub proof fn lemma_zero_bits(j: int)
    requires
        0 <= j < 64,
    ensures
        !bit_set(0u64, j),
{
    bv_zero_bits(j as u64);
}

proof fn bv_valid_or(a: u64, b: u64)
    by (bit_vector)
    ensures
        ((a | b) >> 52u64 == 0u64) <==> (a >> 52u64 == 0u64 && b >> 52u64 == 0u64),
{
}

/// A union is a valid deck exactly where both parts are.
pub proof fn lemma_valid_or(a: u64, b: u64)
    ensures
        valid_deck(a | b) == (valid_deck(a) && valid_deck(b)),
{
    bv_valid_or(a, b);
}

proof fn bv_single_valid(i: u64)
    by (bit_vector)
    requires
        i < 52,
    ensures
        (1u64 << i) >> 52u64 == 0u64,
{
}

/// A one-card set over a card position is a valid deck.
pub proof fn lemma_valid_single(i: int)
    requires
        0 <= i < 52,
    ensures
        valid_deck(1u64 << (i as u64)),
{
    bv_single_valid(i as u64);
}

proof fn bv_valid_high(d: u64, j: u64)
    by (bit_vector)
    requires
        d >> 52u64 == 0u64,
        52 <= j < 64,
    ensures
        (d >> j) & 1u64 == 0u64,
{
}

/// A valid deck holds no bit at or above position 52.
pub proof fn lemma_valid_no_high(d: u64, j: int)
    requires
        valid_deck(d),
        52 <= j < 64,
    ensures
        !bit_set(d, j),
{
    bv_valid_high(d, j as u64);
}

proof fn bv_xor_bit(a: u64, b: u64, j: u64)
    by (bit_vector)
    requires
        j < 64,
    ensures
        (((a ^ b) >> j) & 1u64 == 1u64) <==> (((a >> j) & 1u64 == 1u64) != ((b >> j) & 1u64
            == 1u64)),
{
}

proof fn bv_neq_xor(a: u64, b: u64)
    by (bit_vector)
    ensures
        a != b ==> a ^ b != 0u64,
{
}

/// Two card-sets holding the same cards are one value.
pub proof fn lemma_u64_bits_eq(a: u64, b: u64)
    requires
        forall|j: int| 0 <= j < 64 ==> bit_set(a, j) == bit_set(b, j),
    ensures
        a == b,
{
    if a != b {
        bv_neq_xor(a, b);
        let x = a ^ b;
        vstd::std_specs::bits::axiom_u64_trailing_zeros(x);
        let tz = vstd::std_specs::bits::u64_trailing_zeros(x);
        assert(tz < 64 && (x >> tz as u64) & 1u64 == 1u64);
        bv_xor_bit(a, b, tz as u64);
        assert(bit_set(a, tz as int) != bit_set(b, tz as int));
    }
}

/// Counting is monotone in the scanned prefix.
pub proof fn lemma_count_mono(d: u64, m: int, n: int)
    requires
        m <= n,
    ensures
        count_below(d, m) <= count_below(d, n),
    decreases n - m,
{
    if m < n {
        lemma_count_mono(d, m, n - 1);
    }
}

/// A range of positions holds no more cards than positions.
pub proof fn lemma_count_range_bound(d: u64, lo: int, hi: int)
    requires
        lo <= hi,
    ensures
        count_below(d, hi) - count_below(d, lo) <= hi - lo,
    decreases hi - lo,
{
    if lo < hi {
        lemma_count_range_bound(d, lo, hi - 1);
    }
}

/// Disjoint card-sets are counted card by card.
pub proof fn lemma_count_or_disjoint(a: u64, b: u64, n: int)
    requires
        decks_disjoint(a, b),
        0 <= n <= 64,
    ensures
        count_below(a | b, n) == count_below(a, n) + count_below(b, n),
    decreases n,
{
    if n > 0 {
        lemma_count_or_disjoint(a, b, n - 1);
        lemma_bit_or(a, b, n - 1);
    }
}

/// A one-card set counts one card once.
pub proof fn lemma_count_single(i: int, n: int)
    requires
        0 <= i < 64,
        0 <= n <= 64,
    ensures
        count_below(1u64 << (i as u64), n) == if i < n {
            1int
        } else {
            0int
        },
    decreases n,
{
    if n > 0 {
        lemma_count_single(i, n - 1);
        lemma_bit_single(i, n - 1);
    }
}

/// Where the count does not grow over a range, the range holds no card.
pub proof fn lemma_count_flat_pointwise(d: u64, lo: int, hi: int, j: int)
    requires
        0 <= lo <= j < hi <= 64,
        count_below(d, hi) == count_below(d, lo),
    ensures
        !bit_set(d, j),
{
    lemma_count_mono(d, lo, j);
    lemma_count_mono(d, j + 1, hi);
}

/// Where a range holds no card, the count does not grow over it.
pub proof fn lemma_count_flat(d: u64, lo: int, hi: int)
    requires
        0 <= lo <= hi,
        forall|j: int| lo <= j < hi ==> !bit_set(d, j),
    ensures
        count_below(d, hi) == count_below(d, lo),
    decreases hi - lo,
{
    if lo < hi {
        lemma_count_flat(d, lo, hi - 1);
    }
}

} // verus!
