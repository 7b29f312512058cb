//! The equity predictor: enumerates every board completion, classifies every
//! player's hand on each, and tallies the boards each player wins outright.

use crate::analyser::{analyse, classify_key, lemma_classify_key};
use crate::bits::{
    bit_set, card_count, count_below, count_cards, decks_disjoint, lemma_bit_and, lemma_bit_or, lemma_bit_single,
    lemma_count_flat, lemma_count_flat_pointwise, lemma_count_mono, lemma_count_or_disjoint,
    lemma_count_range_bound, lemma_u64_bits_eq, lemma_valid_no_high, lemma_valid_or,
    lemma_valid_single, lemma_zero_bits, test_bit, valid_deck, Deck,
};
use crate::hand::{key, seq_cmp, Hand};
use core::cmp::Ordering;
use vstd::prelude::*;

verus! {

/// Why a deal cannot be completed or priced.
#[derive(Debug, PartialEq, Eq, Structural, Clone, Copy)]
pub enum DealError {
    /// A seed card-set uses bits outside the 52-card space.
    SeedOverflow,
    /// Fewer undealt cards remain than the request asks for.
    InsufficientCards,
    /// Two players' hole-card sets intersect.
    DuplicateCard,
}

/// `c` is a `k`-card completion of the deck seeded with `seed`: a valid
/// card-set of exactly `k` cards, none of them already in the seed.
pub open spec fn is_combo(seed: u64, k: int, c: u64) -> bool {
    &&& valid_deck(c)
    &&& decks_disjoint(c, seed)
    &&& card_count(c) == k
}

/// `c` extends `current` by exactly `k` cards drawn from the free positions
/// `from..52`: below `from` it is `current`, and above it avoids the seed.
spec fn is_extension(seed: u64, current: u64, from: int, k: int, c: u64) -> bool {
    &&& valid_deck(c)
    &&& forall|j: int| 0 <= j < from ==> bit_set(c, j) == bit_set(current, j)
    &&& forall|j: int| from <= j < 52 ==> bit_set(c, j) ==> !bit_set(seed, j)
    &&& count_below(c, 52) - count_below(c, from) == k
}

/// Depth-first backtracking over ascending bit positions: appends to `out`
/// every extension of `current` by `k` cards from the free positions
/// `from..52`, each exactly once.
fn enumerate_from(seed: u64, current: u64, from: u32, k: u32, out: &mut Vec<u64>)
    requires
        valid_deck(seed),
        valid_deck(current),
        from <= 52,
        k <= 52,
        forall|j: int| from <= j < 64 ==> !bit_set(current, j),
        decks_disjoint(current, seed),
    ensures
        final(out)@.len() >= old(out)@.len(),
        forall|m: int| 0 <= m < old(out)@.len() ==> final(out)@[m] == old(out)@[m],
        forall|m: int|
            old(out)@.len() <= m < final(out)@.len() ==> is_extension(
                seed,
                current,
                from as int,
                k as int,
                final(out)@[m],
            ),
        forall|c: u64|
            is_extension(seed, current, from as int, k as int, c) ==> exists|m: int|
                old(out)@.len() <= m < final(out)@.len() && final(out)@[m] == c,
        forall|m1: int, m2: int|
            old(out)@.len() <= m1 < m2 < final(out)@.len() ==> final(out)@[m1] != final(out)@[m2],
        final(out)@.len() - old(out)@.len() == binom(
            (52 - from as int) - (count_below(seed, 52) - count_below(seed, from as int)),
            k as int,
        ),
    decreases 52 - from,
{
    proof {
        lemma_count_range_bound(seed, from as int, 52);
    }
    if k == 0 {
        proof {
            lemma_count_flat(current, from as int, 52);
            assert(is_extension(seed, current, from as int, 0, current));
            assert forall|c: u64|
                is_extension(seed, current, from as int, 0, c) implies c == current by {
                assert forall|j: int| 0 <= j < 64 implies bit_set(c, j) == bit_set(
                    current,
                    j,
                ) by {
                    if from as int <= j < 52 {
                        lemma_count_flat_pointwise(c, from as int, 52, j);
                    } else if 52 <= j {
                        lemma_valid_no_high(c, j);
                        lemma_valid_no_high(current, j);
                    }
                }
                lemma_u64_bits_eq(c, current);
            }
        }
        out.push(current);
        proof {
            assert forall|c: u64|
                is_extension(seed, current, from as int, k as int, c) implies exists|m: int|
                old(out)@.len() <= m < out@.len() && out@[m] == c by {
                assert(c == current);
                assert(out@[out@.len() - 1] == c);
            }
        }
        return ;
    }
    if from == 52 {
        proof {
            assert forall|c: u64|
                !is_extension(seed, current, 52, k as int, c) by {
            }
        }
        return ;
    }
    let ghost pre = out@;
    if test_bit(seed, from) {
        // The seed already holds this card: every extension skips it.
        enumerate_from(seed, current, from + 1, k, out);
        proof {
            assert forall|m: int|
                pre.len() <= m < out@.len() implies is_extension(
                seed,
                current,
                from as int,
                k as int,
                out@[m],
            ) by {
                let c = out@[m];
                assert(is_extension(seed, current, from as int + 1, k as int, c));
                assert(bit_set(c, from as int) == bit_set(current, from as int));
            }
            assert forall|c: u64|
                is_extension(seed, current, from as int, k as int, c) implies is_extension(
                seed,
                current,
                from as int + 1,
                k as int,
                c,
            ) by {
                assert(!bit_set(c, from as int));
                assert(!bit_set(current, from as int));
            }
        }
        return ;
    }
    // Take the card at this position, then explore the boards without it.
    let with_bit = current | (1u64 << (from as u64));
    proof {
        lemma_valid_single(from as int);
        lemma_valid_or(current, 1u64 << (from as u64));
        assert forall|j: int| 0 <= j < 64 implies bit_set(with_bit, j) == (bit_set(current, j) || j
            == from as int) by {
            lemma_bit_or(current, 1u64 << (from as u64), j);
            lemma_bit_single(from as int, j);
        }
    }
    enumerate_from(seed, with_bit, from + 1, k - 1, out);
    let ghost mid = out@;
    enumerate_from(seed, current, from + 1, k, out);
    proof {
        let f = from as int;
        let gk = k as int;
        // Pascal's rule: the boards taking this free card and those skipping
        // it together number `binom` of the free positions.
        lemma_count_range_bound(seed, f + 1, 52);
        let f1 = (52 - (f + 1)) - (count_below(seed, 52) - count_below(seed, f + 1));
        assert(count_below(seed, f + 1) == count_below(seed, f));
        if gk > f1 + 1 {
            assert(binom(f1 + 1, gk) == 0);
            assert(binom(f1, gk - 1) == 0);
            assert(binom(f1, gk) == 0);
        } else {
            assert(binom(f1 + 1, gk) == binom(f1, gk - 1) + binom(f1, gk));
        }
        // Taken-branch elements keep this card; skipped-branch elements lack it.
        assert forall|m: int|
            pre.len() <= m < out@.len() implies is_extension(seed, current, f, gk, out@[m])
            && (bit_set(out@[m], f) <==> m < mid.len()) by {
            let c = out@[m];
            if m < mid.len() {
                assert(is_extension(seed, with_bit, f + 1, gk - 1, c));
                assert(bit_set(c, f) == bit_set(with_bit, f));
                assert(count_below(c, f + 1) == count_below(c, f) + 1);
                assert forall|j: int| 0 <= j < f implies bit_set(c, j) == bit_set(
                    current,
                    j,
                ) by {
                    assert(bit_set(c, j) == bit_set(with_bit, j));
                }
            } else {
                assert(is_extension(seed, current, f + 1, gk, c));
                assert(bit_set(c, f) == bit_set(current, f));
                assert(count_below(c, f + 1) == count_below(c, f));
            }
        }
        // Completeness: an extension either takes this card or skips it.
        assert forall|c: u64|
            is_extension(seed, current, f, gk, c) implies exists|m: int|
            pre.len() <= m < out@.len() && out@[m] == c by {
            if bit_set(c, f) {
                assert(count_below(c, f + 1) == count_below(c, f) + 1);
                assert forall|j: int| 0 <= j < f + 1 implies bit_set(c, j) == bit_set(
                    with_bit,
                    j,
                ) by {
                    if j < f {
                        assert(bit_set(c, j) == bit_set(current, j));
                    }
                }
                assert(is_extension(seed, with_bit, f + 1, gk - 1, c));
                let m = choose|m: int| pre.len() <= m < mid.len() && (#[trigger] mid[m]) == c;
                assert(out@[m] == c);
            } else {
                assert(count_below(c, f + 1) == count_below(c, f));
                assert(is_extension(seed, current, f + 1, gk, c));
                let m = choose|m: int| mid.len() <= m < out@.len() && (#[trigger] out@[m]) == c;
                assert(out@[m] == c);
            }
        }
        // Distinctness: across the two branches the bit at this position
        // differs; within each branch the recursive call has shown it.
        assert forall|m1: int, m2: int|
            pre.len() <= m1 < m2 < out@.len() implies out@[m1] != out@[m2] by {
            if m1 < mid.len() && m2 >= mid.len() {
                assert(bit_set(out@[m1], f));
                assert(!bit_set(out@[m2], f));
            }
        }
    }
}

/// Every distinct `k`-card completion of the undealt portion of the deck
/// seeded with `deck`, or the reason none can be produced: a seed outside
/// the 52-card space, or fewer undealt cards than `k`.
pub fn find_all_combinations(deck: Deck, k: u32) -> (r: Result<Vec<Deck>, DealError>)
    ensures
        match r {
            Ok(v) => {
                &&& valid_deck(deck)
                &&& k <= 52 - card_count(deck)
                &&& forall|m: int| 0 <= m < v@.len() ==> is_combo(deck, k as int, v@[m])
                &&& forall|c: u64| is_combo(deck, k as int, c) ==> v@.contains(c)
                &&& v@.no_duplicates()
                &&& v@.len() as int == binom(52 - card_count(deck), k as int)
            },
            Err(e) => match e {
                DealError::SeedOverflow => !valid_deck(deck),
                DealError::InsufficientCards => valid_deck(deck) && k > 52 - card_count(deck),
                DealError::DuplicateCard => false,
            },
        },
{
    if deck >> 52u64 != 0 {
        return Err(DealError::SeedOverflow);
    }
    let dealt = count_cards(deck);
    if 52 - dealt < k {
        return Err(DealError::InsufficientCards);
    }
    let mut out: Vec<u64> = Vec::new();
    proof {
        assert forall|j: int| 0 <= j < 64 implies !bit_set(0u64, j) by {
            lemma_zero_bits(j);
        }
        assert(valid_deck(0u64)) by {
            assert(0u64 >> 52u64 == 0u64) by (bit_vector);
        }
    }
    enumerate_from(deck, 0, 0, k, &mut out);
    proof {
        assert forall|c: u64| #[trigger]
            is_combo(deck, k as int, c) == is_extension(deck, 0, 0, k as int, c) by {
            if is_combo(deck, k as int, c) {
                assert(count_below(c, 0) == 0);
                assert(is_extension(deck, 0, 0, k as int, c));
            }
            if is_extension(deck, 0, 0, k as int, c) {
                assert(count_below(c, 0) == 0);
                assert forall|j: int| 0 <= j < 64 implies !(bit_set(c, j) && bit_set(
                    deck,
                    j,
                )) by {
                    if 52 <= j {
                        lemma_valid_no_high(c, j);
                    }
                }
            }
        }
        assert forall|c: u64| is_combo(deck, k as int, c) implies out@.contains(c) by {
            let m = choose|m: int| 0 <= m < out@.len() && (#[trigger] out@[m]) == c;
        }
        assert forall|m1: int, m2: int|
            0 <= m1 < m2 < out@.len() implies out@[m1] != out@[m2] by {
        }
        assert(out@.no_duplicates());
    }
    Ok(out)
}

/// The binomial coefficient: how many `k`-card subsets an `n`-card pool
/// holds.
pub open spec fn binom(n: int, k: int) -> int
    decreases n,
{
    if n < 0 || k < 0 || k > n {
        0
    } else if k == 0 {
        1
    } else {
        binom(n - 1, k - 1) + binom(n - 1, k)
    }
}

spec fn pow2(n: int) -> int
    decreases n,
{
    if n <= 0 {
        1
    } else {
        2 * pow2(n - 1)
    }
}

proof fn lemma_pow2_pos(n: int)
    ensures
        pow2(n) >= 1,
    decreases n,
{
    if n > 0 {
        lemma_pow2_pos(n - 1);
    }
}

proof fn lemma_binom_nonneg(n: int, k: int)
    ensures
        binom(n, k) >= 0,
    decreases n,
{
    if !(n < 0 || k < 0 || k > n) && k != 0 {
        lemma_binom_nonneg(n - 1, k - 1);
        lemma_binom_nonneg(n - 1, k);
    }
}

proof fn lemma_binom_pow2(n: int, k: int)
    requires
        n >= 0,
    ensures
        binom(n, k) <= pow2(n),
    decreases n,
{
    lemma_pow2_pos(n);
    if n > 0 && !(k < 0 || k > n) && k != 0 {
        lemma_binom_pow2(n - 1, k - 1);
        lemma_binom_pow2(n - 1, k);
    }
}

proof fn lemma_pow2_52()
    ensures
        pow2(52) == 0x10000000000000,
{
    reveal_with_fuel(pow2, 53);
}

/// The number of distinct `k`-card subsets of an `n`-card pool, by Pascal's
/// rule.
pub fn calculate_combination_num(n: u32, k: u32) -> (r: u64)
    requires
        k <= n <= 52,
    ensures
        r as int == binom(n as int, k as int),
{
    let mut row: Vec<u64> = Vec::new();
    row.push(1);
    let mut m: u32 = 0;
    while m < n
        invariant
            m <= n <= 52,
            row@.len() == m + 1,
            forall|j: int| 0 <= j <= m as int ==> #[trigger] row@[j] as int == binom(m as int, j),
        decreases n - m,
    {
        let mut next: Vec<u64> = Vec::new();
        next.push(1);
        let mut j: usize = 1;
        while j <= m as usize
            invariant
                m < n <= 52,
                row@.len() == m + 1,
                forall|t: int| 0 <= t <= m as int ==> #[trigger] row@[t] as int == binom(
                    m as int,
                    t,
                ),
                1 <= j <= m + 1,
                next@.len() == j,
                forall|t: int| 0 <= t < j ==> #[trigger] next@[t] as int == binom(
                    m as int + 1,
                    t,
                ),
            decreases m as usize + 1 - j,
        {
            proof {
                lemma_binom_nonneg(m as int, j as int - 1);
                lemma_binom_nonneg(m as int, j as int);
                lemma_binom_pow2(m as int + 1, j as int);
                lemma_pow2_52();
                assert(pow2(m as int + 1) <= pow2(52)) by {
                    lemma_pow2_mono(m as int + 1, 52);
                }
            }
            let s = row[j - 1] + row[j];
            next.push(s);
            j = j + 1;
        }
        proof {
            lemma_binom_diag(m as int + 1);
        }
        next.push(1);
        row = next;
        m = m + 1;
    }
    row[k as usize]
}

proof fn lemma_pow2_mono(m: int, n: int)
    requires
        m <= n,
    ensures
        pow2(m) <= pow2(n),
    decreases n - m,
{
    lemma_pow2_pos(m);
    if m < n {
        lemma_pow2_mono(m, n - 1);
        lemma_pow2_pos(n - 1);
    }
}

proof fn lemma_binom_diag(n: int)
    requires
        n >= 0,
    ensures
        binom(n, n) == 1,
    decreases n,
{
    if n > 0 {
        lemma_binom_diag(n - 1);
        assert(binom(n - 1, n) == 0);
    }
}

/// Every player's card-set is valid and holds at most two hole cards, so
/// that a five-card board completes each to at most seven cards.
pub open spec fn players_ok(players: Seq<u64>) -> bool {
    forall|i: int|
        0 <= i < players.len() ==> valid_deck(#[trigger] players[i]) && card_count(players[i])
            <= 2
}

/// The union of the first `n` players' card-sets.
pub open spec fn union_all(players: Seq<u64>, n: int) -> u64
    decreases n,
{
    if n <= 0 {
        0u64
    } else {
        union_all(players, n - 1) | players[n - 1]
    }
}

/// Some two players share a card.
pub open spec fn any_overlap(players: Seq<u64>) -> bool {
    exists|i: int, j: int|
        0 <= i < j < players.len() && !decks_disjoint(players[i], players[j])
}

/// The classified hand of card-set `a` outranks that of card-set `b`.
pub open spec fn beats(a: u64, b: u64) -> bool {
    seq_cmp(classify_key(a), classify_key(b)) == Ordering::Greater
}

/// On `board`, player `i` holds the strict maximum hand among all players.
pub open spec fn wins(players: Seq<u64>, i: int, board: u64) -> bool {
    forall|j: int|
        0 <= j < players.len() && j != i ==> beats(players[i] | board, #[trigger] (players[j]
            | board))
}

/// No board has two outright winners: the per-player win counts tally
/// disjoint sets of boards, so the win probabilities sum to at most one and
/// the remainder is the tie mass.
pub proof fn lemma_at_most_one_winner(players: Seq<u64>, board: u64, i: int, j: int)
    requires
        0 <= i < players.len(),
        0 <= j < players.len(),
        i != j,
        wins(players, i, board),
    ensures
        !wins(players, j, board),
{
    assert(beats(players[i] | board, players[j] | board));
    crate::hand::lemma_seq_cmp_reverse(
        classify_key(players[i] | board),
        classify_key(players[j] | board),
    );
}

/// Every five-card board that completes the deck seeded with `seed`.
pub open spec fn board_set(seed: u64) -> Set<u64> {
    Set::new(|b: u64| is_combo(seed, 5, b))
}

/// The boards on which player `i` wins outright.
pub open spec fn win_set(players: Seq<u64>, i: int) -> Set<u64> {
    board_set(union_all(players, players.len() as int)).filter(|b: u64| wins(players, i, b))
}

/// How many of the first `n` boards player `i` wins outright.
pub open spec fn count_wins(players: Seq<u64>, i: int, boards: Seq<u64>, n: int) -> int
    decreases n,
{
    if n <= 0 {
        0
    } else {
        count_wins(players, i, boards, n - 1) + if wins(players, i, boards[n - 1]) {
            1int
        } else {
            0int
        }
    }
}

proof fn lemma_count_wins_bound(players: Seq<u64>, i: int, boards: Seq<u64>, n: int)
    ensures
        0 <= count_wins(players, i, boards, n) <= if n >= 0 {
            n
        } else {
            0int
        },
    decreases n,
{
    if n > 0 {
        lemma_count_wins_bound(players, i, boards, n - 1);
    }
}

/// A card lies in the union of the first `n` players' sets exactly where
/// one of them holds it.
proof fn lemma_union_bits(players: Seq<u64>, n: int, j: int)
    requires
        0 <= n <= players.len(),
        0 <= j < 64,
    ensures
        bit_set(union_all(players, n), j) <==> exists|m: int|
            0 <= m < n && bit_set(#[trigger] players[m], j),
    decreases n,
{
    if n == 0 {
        lemma_zero_bits(j);
    } else {
        lemma_union_bits(players, n - 1, j);
        lemma_bit_or(union_all(players, n - 1), players[n - 1], j);
        if bit_set(union_all(players, n), j) {
            if bit_set(players[n - 1], j) {
                assert(0 <= n - 1 < n && bit_set(players[n - 1], j));
            } else {
                let m = choose|m: int| 0 <= m < n - 1 && bit_set(#[trigger] players[m], j);
                assert(0 <= m < n && bit_set(players[m], j));
            }
        }
    }
}

/// Counting the boards a player wins among distinct boards counts the set
/// of such boards.
proof fn lemma_count_wins_is_set(players: Seq<u64>, i: int, boards: Seq<u64>, n: int)
    requires
        0 <= n <= boards.len(),
        boards.no_duplicates(),
    ensures
        boards.take(n).to_set().filter(|b: u64| wins(players, i, b)).finite(),
        count_wins(players, i, boards, n) == boards.take(n).to_set().filter(
            |b: u64| wins(players, i, b),
        ).len(),
    decreases n,
{
    broadcast use vstd::set::group_set_axioms, vstd::seq_lib::seq_to_set_is_finite;

    let w = |b: u64| wins(players, i, b);
    if n == 0 {
        assert(boards.take(0).to_set() =~= Set::<u64>::empty());
        assert(Set::<u64>::empty().filter(w) =~= Set::<u64>::empty());
    } else {
        lemma_count_wins_is_set(players, i, boards, n - 1);
        let prev = boards.take(n - 1).to_set();
        let cur = boards.take(n).to_set();
        let e = boards[n - 1];
        assert(boards.take(n) =~= boards.take(n - 1).push(e));
        assert forall|x: u64| cur.contains(x) <==> (prev.contains(x) || x == e) by {
            if cur.contains(x) {
                let m = choose|m: int| 0 <= m < n && (#[trigger] boards.take(n)[m]) == x;
                if m < n - 1 {
                    assert(boards.take(n - 1)[m] == x);
                }
            }
            if prev.contains(x) {
                let m = choose|m: int| 0 <= m < n - 1 && (#[trigger] boards.take(n - 1)[m]) == x;
                assert(boards.take(n)[m] == x);
            }
            if x == e {
                assert(boards.take(n)[n - 1] == x);
            }
        }
        assert(cur =~= prev.insert(e));
        assert(!prev.contains(e)) by {
            if prev.contains(e) {
                let m = choose|m: int| 0 <= m < n - 1 && (#[trigger] boards.take(n - 1)[m]) == e;
                assert(boards[m] == boards[n - 1]);
            }
        }
        boards.take(n - 1).to_set().lemma_len_filter(w);
        let pf = prev.filter(w);
        if w(e) {
            assert(cur.filter(w) =~= pf.insert(e));
            assert(!pf.contains(e));
        } else {
            assert(cur.filter(w) =~= pf);
        }
    }
}

/// For each player, how many of the given boards that player wins outright:
/// the board is unioned with the player's hole cards, classified, and the
/// strict maximum hand found under the ranking model.
pub fn compare_player_hands(players: &Vec<Deck>, combinations: &Vec<Deck>) -> (counts: Vec<u64>)
    requires
        players@.len() >= 1,
        players_ok(players@),
        forall|i: int, j: int|
            0 <= i < j < players@.len() ==> decks_disjoint(players@[i], players@[j]),
        forall|m: int|
            0 <= m < combinations@.len() ==> is_combo(
                union_all(players@, players@.len() as int),
                5,
                #[trigger] combinations@[m],
            ),
    ensures
        counts@.len() == players@.len(),
        forall|i: int|
            0 <= i < players@.len() ==> #[trigger] counts@[i] as int == count_wins(
                players@,
                i,
                combinations@,
                combinations@.len() as int,
            ),
{
    let np = players.len();
    let mut counts: Vec<u64> = Vec::new();
    let mut i: usize = 0;
    while i < np
        invariant
            i <= np,
            counts@.len() == i,
            forall|m: int| 0 <= m < i ==> counts@[m] == 0u64,
        decreases np - i,
    {
        counts.push(0);
        i = i + 1;
    }
    let mut ci: usize = 0;
    while ci < combinations.len()
        invariant
            np == players@.len(),
            1 <= np,
            players_ok(players@),
            forall|i1: int, i2: int|
                0 <= i1 < i2 < players@.len() ==> decks_disjoint(players@[i1], players@[i2]),
            forall|m: int|
                0 <= m < combinations@.len() ==> is_combo(
                    union_all(players@, players@.len() as int),
                    5,
                    #[trigger] combinations@[m],
                ),
            ci <= combinations@.len(),
            counts@.len() == np,
            forall|i: int|
                0 <= i < np ==> #[trigger] counts@[i] as int == count_wins(
                    players@,
                    i,
                    combinations@,
                    ci as int,
                ),
        decreases combinations@.len() - ci,
    {
        let board = combinations[ci];
        proof {
            lemma_board_player_union(players@, board, 0);
            lemma_count_wins_bound(players@, 0, combinations@, ci as int);
        }
        let mut best = analyse(players[0] | board);
        let mut best_i: usize = 0;
        let mut tied = false;
        proof {
            lemma_classify_key(players@[0] | board, best);
            crate::hand::lemma_seq_cmp_refl(classify_key(players@[0] | board));
        }
        let mut j: usize = 1;
        while j < np
            invariant
                np == players@.len(),
                1 <= np,
                players_ok(players@),
                forall|i1: int, i2: int|
                    0 <= i1 < i2 < players@.len() ==> decks_disjoint(players@[i1], players@[i2]),
                is_combo(union_all(players@, players@.len() as int), 5, board),
                1 <= j <= np,
                (best_i as int) < j,
                key(best) == classify_key(players@[best_i as int] | board),
                forall|m: int|
                    0 <= m < j ==> seq_cmp(
                        classify_key(#[trigger] players@[m] | board),
                        classify_key(players@[best_i as int] | board),
                    ) != Ordering::Greater,
                tied <==> exists|m: int|
                    0 <= m < j && m != best_i as int && seq_cmp(
                        classify_key(#[trigger] players@[m] | board),
                        classify_key(players@[best_i as int] | board),
                    ) == Ordering::Equal,
            decreases np - j,
        {
            proof {
                lemma_board_player_union(players@, board, j as int);
            }
            let h = analyse(players[j] | board);
            proof {
                lemma_classify_key(players@[j as int] | board, h);
                crate::hand::lemma_hand_cmp_key(best, h);
            }
            let ghost bk = classify_key(players@[best_i as int] | board);
            let ghost jk = classify_key(players@[j as int] | board);
            let c = best.cmp_hand(&h);
            match c {
                Ordering::Equal => {
                    proof {
                        crate::hand::lemma_seq_cmp_reverse(bk, jk);
                        assert(seq_cmp(jk, bk) == Ordering::Equal);
                    }
                    tied = true;
                },
                Ordering::Greater => {
                    proof {
                        crate::hand::lemma_seq_cmp_reverse(bk, jk);
                    }
                },
                Ordering::Less => {
                    proof {
                        crate::hand::lemma_seq_cmp_reverse(bk, jk);
                        assert forall|m: int|
                            0 <= m < j + 1 implies seq_cmp(
                            classify_key(#[trigger] players@[m] | board),
                            jk,
                        ) != Ordering::Greater by {
                            let mk = classify_key(players@[m] | board);
                            if m < j {
                                crate::hand::lemma_seq_cmp_eq(mk, bk);
                                if seq_cmp(mk, bk) == Ordering::Equal {
                                    assert(mk == bk);
                                } else {
                                    crate::hand::lemma_seq_cmp_reverse(mk, bk);
                                    crate::hand::lemma_seq_cmp_trans(mk, bk, jk);
                                }
                            } else {
                                crate::hand::lemma_seq_cmp_refl(jk);
                            }
                        }
                        assert forall|m: int|
                            0 <= m < j + 1 && m != j implies seq_cmp(
                            classify_key(#[trigger] players@[m] | board),
                            jk,
                        ) != Ordering::Equal by {
                            let mk = classify_key(players@[m] | board);
                            crate::hand::lemma_seq_cmp_eq(mk, bk);
                            if seq_cmp(mk, bk) == Ordering::Equal {
                                assert(mk == bk);
                            } else {
                                crate::hand::lemma_seq_cmp_reverse(mk, bk);
                                crate::hand::lemma_seq_cmp_trans(mk, bk, jk);
                            }
                        }
                    }
                    best = h;
                    best_i = j;
                    tied = false;
                },
            }
            j = j + 1;
        }
        let ghost bk = classify_key(players@[best_i as int] | board);
        if !tied {
            proof {
                assert forall|jj: int|
                    0 <= jj < players@.len() && jj != best_i as int implies beats(
                    players@[best_i as int] | board,
                    #[trigger] (players@[jj] | board),
                ) by {
                    let mk = classify_key(players@[jj] | board);
                    assert(seq_cmp(mk, bk) != Ordering::Greater);
                    assert(seq_cmp(mk, bk) != Ordering::Equal);
                    crate::hand::lemma_seq_cmp_reverse(mk, bk);
                }
                assert(wins(players@, best_i as int, board));
                assert forall|i: int|
                    0 <= i < np && i != best_i as int implies !wins(players@, i, board) by {
                    assert(seq_cmp(
                        classify_key(players@[i] | board),
                        bk,
                    ) != Ordering::Greater);
                }
                assert forall|i: int| 0 <= i < np implies count_wins(
                    players@,
                    i,
                    combinations@,
                    ci as int + 1,
                ) == count_wins(players@, i, combinations@, ci as int) + if i == best_i as int {
                    1int
                } else {
                    0int
                } by {
                    assert(combinations@[ci as int] == board);
                }
                lemma_count_wins_bound(players@, best_i as int, combinations@, ci as int);
            }
            let cur = counts[best_i];
            counts[best_i] = cur + 1;
        } else {
            proof {
                let m0 = choose|m: int|
                    0 <= m < np && m != best_i as int && seq_cmp(
                        classify_key(#[trigger] players@[m] | board),
                        bk,
                    ) == Ordering::Equal;
                assert forall|i: int| 0 <= i < np implies !wins(players@, i, board) by {
                    if i == best_i as int {
                        let mk = classify_key(players@[m0] | board);
                        crate::hand::lemma_seq_cmp_reverse(mk, bk);
                        assert(!beats(players@[i] | board, players@[m0] | board));
                    } else {
                        assert(seq_cmp(
                            classify_key(players@[i] | board),
                            bk,
                        ) != Ordering::Greater);
                        assert(!beats(players@[i] | board, players@[best_i as int] | board));
                    }
                }
                assert forall|i: int| 0 <= i < np implies count_wins(
                    players@,
                    i,
                    combinations@,
                    ci as int + 1,
                ) == count_wins(players@, i, combinations@, ci as int) by {
                    assert(combinations@[ci as int] == board);
                }
            }
        }
        ci = ci + 1;
    }
    counts
}

/// A board completion is disjoint from each player's hole cards, and their
/// union is a valid five-to-seven-card set the classifier accepts.
proof fn lemma_board_player_union(players: Seq<u64>, board: u64, j: int)
    requires
        players_ok(players),
        0 <= j < players.len(),
        is_combo(union_all(players, players.len() as int), 5, board),
    ensures
        valid_deck(players[j] | board),
        5 <= card_count(players[j] | board) <= 7,
{
    let u = union_all(players, players.len() as int);
    lemma_count_mono(players[j], 0, 52);
    assert forall|b: int| 0 <= b < 64 implies !(bit_set(players[j], b) && bit_set(
        board,
        b,
    )) by {
        if bit_set(players[j], b) {
            lemma_union_bits(players, players.len() as int, b);
            assert(bit_set(u, b));
        }
    }
    assert(decks_disjoint(players[j], board));
    lemma_count_or_disjoint(players[j], board, 52);
    lemma_valid_or(players[j], board);
}

/// The probability numerators of the equity computation: for each player,
/// the number of five-card boards that player wins outright, together with
/// the total number of boards. The caller divides; the tie mass is the
/// remainder.
pub fn predict(players: &Vec<Deck>) -> (r: Result<(Vec<u64>, u64), DealError>)
    requires
        players@.len() >= 2,
        players_ok(players@),
    ensures
        match r {
            Ok(t) => {
                &&& !any_overlap(players@)
                &&& card_count(union_all(players@, players@.len() as int)) <= 47
                &&& t.0@.len() == players@.len()
                &&& board_set(union_all(players@, players@.len() as int)).finite()
                &&& t.1 as int == board_set(union_all(players@, players@.len() as int)).len()
                &&& t.1 as int == binom(
                    52 - card_count(union_all(players@, players@.len() as int)),
                    5,
                )
                &&& forall|i: int|
                    0 <= i < players@.len() ==> win_set(players@, i).finite() && #[trigger] t.0@[
                        i
                    ] as int == win_set(players@, i).len()
            },
            Err(e) => match e {
                DealError::DuplicateCard => any_overlap(players@),
                DealError::InsufficientCards => !any_overlap(players@) && card_count(
                    union_all(players@, players@.len() as int),
                ) > 47,
                DealError::SeedOverflow => false,
            },
        },
{
    let np = players.len();
    let mut dealt: u64 = 0;
    let mut i: usize = 0;
    proof {
        assert(valid_deck(0u64)) by {
            assert(0u64 >> 52u64 == 0u64) by (bit_vector);
        }
        assert forall|j: int| 0 <= j < 64 implies !bit_set(0u64, j) by {
            lemma_zero_bits(j);
        }
    }
    while i < np
        invariant
            np == players@.len(),
            players_ok(players@),
            i <= np,
            dealt == union_all(players@, i as int),
            valid_deck(dealt),
            forall|j: int|
                0 <= j < 64 ==> (bit_set(dealt, j) <==> exists|m: int|
                    0 <= m < i && bit_set(#[trigger] players@[m], j)),
            forall|i1: int, i2: int|
                0 <= i1 < i2 < i ==> decks_disjoint(players@[i1], players@[i2]),
        decreases np - i,
    {
        let p = players[i];
        if dealt & p != 0 {
            proof {
                let x = dealt & p;
                vstd::std_specs::bits::axiom_u64_trailing_zeros(x);
                let tz = vstd::std_specs::bits::u64_trailing_zeros(x) as int;
                assert(bit_set(x, tz));
                lemma_bit_and(dealt, p, tz);
                let m = choose|m: int| 0 <= m < i && bit_set(#[trigger] players@[m], tz);
                assert(!decks_disjoint(players@[m], players@[i as int]));
            }
            return Err(DealError::DuplicateCard);
        }
        proof {
            assert forall|j: int| 0 <= j < 64 implies !(bit_set(dealt, j) && bit_set(
                p,
                j,
            )) by {
                lemma_bit_and(dealt, p, j);
                lemma_zero_bits(j);
            }
            assert forall|i1: int|
                0 <= i1 < i implies decks_disjoint(players@[i1], players@[i as int]) by {
                assert forall|j: int| 0 <= j < 64 implies !(bit_set(players@[i1], j) && bit_set(
                    players@[i as int],
                    j,
                )) by {
                    if bit_set(players@[i1], j) {
                        assert(bit_set(dealt, j));
                    }
                }
            }
            lemma_valid_or(dealt, p);
            assert forall|j: int|
                0 <= j < 64 implies (bit_set(dealt | p, j) <==> exists|m: int|
                0 <= m < i + 1 && bit_set(#[trigger] players@[m], j)) by {
                lemma_bit_or(dealt, p, j);
                if bit_set(dealt | p, j) {
                    if bit_set(p, j) {
                        assert(bit_set(players@[i as int], j));
                    } else {
                        let m = choose|m: int| 0 <= m < i && bit_set(#[trigger] players@[m], j);
                        assert(bit_set(players@[m], j));
                    }
                }
            }
        }
        dealt = dealt | p;
        i = i + 1;
    }
    let combos = match find_all_combinations(dealt, 5) {
        Ok(v) => v,
        Err(_) => {
            return Err(DealError::InsufficientCards);
        },
    };
    let counts = compare_player_hands(players, &combos);
    let total = combos.len() as u64;
    proof {
        broadcast use vstd::set::group_set_axioms, vstd::seq_lib::seq_to_set_is_finite;

        let u = union_all(players@, players@.len() as int);
        assert forall|c: u64| combos@.to_set().contains(c) <==> board_set(u).contains(c) by {
            if combos@.to_set().contains(c) {
                let m = choose|m: int| 0 <= m < combos@.len() && (#[trigger] combos@[m]) == c;
                assert(is_combo(u, 5, c));
            }
            if board_set(u).contains(c) {
                assert(combos@.contains(c));
            }
        }
        assert(combos@.to_set() =~= board_set(u));
        combos@.unique_seq_to_set();
        assert forall|i: int| 0 <= i < players@.len() implies win_set(players@, i).finite()
            && count_wins(players@, i, combos@, combos@.len() as int) == win_set(
            players@,
            i,
        ).len() by {
            lemma_count_wins_is_set(players@, i, combos@, combos@.len() as int);
            assert(combos@.take(combos@.len() as int) =~= combos@);
            assert(combos@.to_set().filter(|b: u64| wins(players@, i, b)) =~= win_set(
                players@,
                i,
            ));
        }
    }
    Ok((counts, total))
}

} // verus!
