//! The hand classifier: maps a card-set of five to seven cards to the single
//! best five-card hand obtainable from it, evaluating the eight categories in
//! strict precedence order.

use crate::bits::{bit_set, card_count, test_bit, valid_deck, Deck};
use crate::hand::Hand;
use vstd::prelude::*;

verus! {

pub open spec fn b2i(b: bool) -> int {
    if b {
        1
    } else {
        0
    }
}

/// How many suits hold rank `r` in `d` (0 to 4).
pub open spec fn rank_count(d: u64, r: int) -> int
    recommends
        0 <= r < 13,
{
    b2i(bit_set(d, r)) + b2i(bit_set(d, 13 + r)) + b2i(bit_set(d, 26 + r)) + b2i(
        bit_set(d, 39 + r),
    )
}

/// Rank `r` is present in some suit of `d`.
pub open spec fn has_rank(d: u64, r: int) -> bool {
    rank_count(d, r) >= 1
}

/// Suit `s` of `d` holds rank `r`.
pub open spec fn suit_has(d: u64, s: int, r: int) -> bool
    recommends
        0 <= s < 4,
        0 <= r < 13,
{
    bit_set(d, 13 * s + r)
}

/// How many of the ranks 0..n appear in exactly `c` suits of `d`.
pub open spec fn ranks_with_count_below(d: u64, c: int, n: int) -> int
    decreases n,
{
    if n <= 0 {
        0
    } else {
        ranks_with_count_below(d, c, n - 1) + b2i(rank_count(d, n - 1) == c)
    }
}

/// How many ranks appear in exactly `c` suits of `d`: the number of pairs
/// for c = 2, of three-of-a-kinds for c = 3, of four-of-a-kinds for c = 4.
pub open spec fn ranks_with_count(d: u64, c: int) -> int {
    ranks_with_count_below(d, c, 13)
}

/// How many of the ranks 0..n suit `s` of `d` holds.
pub open spec fn suit_size_below(d: u64, s: int, n: int) -> int
    decreases n,
{
    if n <= 0 {
        0
    } else {
        suit_size_below(d, s, n - 1) + b2i(suit_has(d, s, n - 1))
    }
}

/// How many cards of `d` lie in suit `s`.
pub open spec fn suit_size(d: u64, s: int) -> int {
    suit_size_below(d, s, 13)
}

/// Suit `s` holds a straight whose top rank is `top`: five consecutive ranks
/// ending at `top`, or the wheel (ace, 2, 3, 4, 5) whose top is rank 3.
pub open spec fn suit_straight_at(d: u64, s: int, top: int) -> bool
    recommends
        0 <= s < 4,
        3 <= top <= 12,
{
    if top == 3 {
        suit_has(d, s, 12) && suit_has(d, s, 0) && suit_has(d, s, 1) && suit_has(d, s, 2)
            && suit_has(d, s, 3)
    } else {
        suit_has(d, s, top - 4) && suit_has(d, s, top - 3) && suit_has(d, s, top - 2) && suit_has(
            d,
            s,
            top - 1,
        ) && suit_has(d, s, top)
    }
}

/// The ranks of `d`, suits merged, hold a straight with top rank `top`.
pub open spec fn straight_at(d: u64, top: int) -> bool
    recommends
        3 <= top <= 12,
{
    if top == 3 {
        has_rank(d, 12) && has_rank(d, 0) && has_rank(d, 1) && has_rank(d, 2) && has_rank(d, 3)
    } else {
        has_rank(d, top - 4) && has_rank(d, top - 3) && has_rank(d, top - 2) && has_rank(
            d,
            top - 1,
        ) && has_rank(d, top)
    }
}

/// The highest straight top in suit `s` at or below `top`, if any.
pub open spec fn suit_best_straight_from(d: u64, s: int, top: int) -> Option<u8>
    decreases top,
{
    if top < 3 {
        None
    } else if suit_straight_at(d, s, top) {
        Some(top as u8)
    } else {
        suit_best_straight_from(d, s, top - 1)
    }
}

/// The highest straight top in suit `s`, if that suit holds a straight.
pub open spec fn suit_best_straight(d: u64, s: int) -> Option<u8> {
    suit_best_straight_from(d, s, 12)
}

/// The highest straight top at or below `top` with suits merged, if any.
pub open spec fn best_straight_from(d: u64, top: int) -> Option<u8>
    decreases top,
{
    if top < 3 {
        None
    } else if straight_at(d, top) {
        Some(top as u8)
    } else {
        best_straight_from(d, top - 1)
    }
}

/// The highest straight top with suits merged, if the ranks hold a straight.
pub open spec fn best_straight(d: u64) -> Option<u8> {
    best_straight_from(d, 12)
}

/// The larger of two optional straight tops; `None` counts as no straight.
pub open spec fn opt_max(a: Option<u8>, b: Option<u8>) -> Option<u8> {
    match (a, b) {
        (Some(x), Some(y)) => if x >= y {
            Some(x)
        } else {
            Some(y)
        },
        (Some(x), None) => Some(x),
        (None, Some(y)) => Some(y),
        (None, None) => None,
    }
}

/// The highest straight-flush top across all four suits, if any suit holds
/// a straight.
pub open spec fn best_straightflush(d: u64) -> Option<u8> {
    opt_max(
        opt_max(
            opt_max(suit_best_straight(d, 0), suit_best_straight(d, 1)),
            suit_best_straight(d, 2),
        ),
        suit_best_straight(d, 3),
    )
}

/// The flush suit of `d`: a suit holding at least five cards. With at most
/// seven cards at most one suit can qualify; where several would, the
/// highest suit index is taken.
pub open spec fn flush_suit(d: u64) -> Option<u8> {
    if suit_size(d, 3) >= 5 {
        Some(3u8)
    } else if suit_size(d, 2) >= 5 {
        Some(2u8)
    } else if suit_size(d, 1) >= 5 {
        Some(1u8)
    } else if suit_size(d, 0) >= 5 {
        Some(0u8)
    } else {
        None
    }
}

/// Rank `r` is selectable: its suit count lies in `cmin ..= cmax` and it is
/// neither of the excluded ranks (13 stands for no exclusion).
pub open spec fn rank_matches(d: u64, cmin: int, cmax: int, x1: int, x2: int, r: int) -> bool {
    cmin <= rank_count(d, r) <= cmax && r != x1 && r != x2
}

/// Up to `k` selectable ranks at or below rank `r`, from the highest down.
pub open spec fn picks_from(d: u64, cmin: int, cmax: int, x1: int, x2: int, r: int, k: int) -> Seq<
    u8,
>
    decreases r + 1,
{
    if r < 0 || k <= 0 {
        Seq::empty()
    } else if rank_matches(d, cmin, cmax, x1, x2, r) {
        seq![r as u8] + picks_from(d, cmin, cmax, x1, x2, r - 1, k - 1)
    } else {
        picks_from(d, cmin, cmax, x1, x2, r - 1, k)
    }
}

/// Up to `k` selectable ranks, from the ace down.
pub open spec fn top_picks(d: u64, cmin: int, cmax: int, x1: int, x2: int, k: int) -> Seq<u8> {
    picks_from(d, cmin, cmax, x1, x2, 12, k)
}

/// The highest selectable rank, or 0 where none is.
pub open spec fn top1(d: u64, cmin: int, cmax: int, x1: int, x2: int) -> u8 {
    let s = top_picks(d, cmin, cmax, x1, x2, 1);
    if s.len() >= 1 {
        s[0]
    } else {
        0u8
    }
}

/// Up to `k` ranks of suit `s` at or below rank `r`, from the highest down.
pub open spec fn suit_picks_from(d: u64, s: int, r: int, k: int) -> Seq<u8>
    decreases r + 1,
{
    if r < 0 || k <= 0 {
        Seq::empty()
    } else if suit_has(d, s, r) {
        seq![r as u8] + suit_picks_from(d, s, r - 1, k - 1)
    } else {
        suit_picks_from(d, s, r - 1, k)
    }
}

/// The `k` highest ranks of suit `s`, from the highest down.
pub open spec fn suit_top_picks(d: u64, s: int, k: int) -> Seq<u8> {
    suit_picks_from(d, s, 12, k)
}

/// What the classifier returns for the card-set `d`: the first category in
/// strict precedence order whose condition holds, with its tie-break fields.
pub open spec fn classify_ok(d: u64, h: Hand) -> bool {
    let n2 = ranks_with_count(d, 2);
    let n3 = ranks_with_count(d, 3);
    let n4 = ranks_with_count(d, 4);
    let sf = best_straightflush(d);
    let fs = flush_suit(d);
    if sf is Some && fs is Some {
        h == (Hand::StraightFlush { top: sf->0, suit: fs->0 })
    } else if n4 == 1 {
        let q = top1(d, 4, 4, 13, 13);
        h == (Hand::Quads { rank: q, kicker: top1(d, 1, 4, q as int, 13) })
    } else if n3 >= 1 && n3 + n2 >= 2 {
        let t = top1(d, 3, 3, 13, 13);
        h == (Hand::FullHouse { trips: t, pair: top1(d, 2, 4, t as int, 13) })
    } else if fs is Some {
        h matches Hand::Flush { ranks, suit } && ranks@ == suit_top_picks(d, fs->0 as int, 5)
            && suit == fs->0
    } else if best_straight(d) is Some {
        h == (Hand::Straight { top: best_straight(d)->0 })
    } else if n3 >= 1 {
        let t = top1(d, 3, 3, 13, 13);
        h matches Hand::Trips { rank, kickers } && rank == t && kickers@ == top_picks(
            d,
            1,
            4,
            t as int,
            13,
            2,
        )
    } else if n2 >= 1 {
        let np = if n2 >= 2 {
            2int
        } else {
            1int
        };
        let ps = top_picks(d, 2, 4, 13, 13, np);
        let x1 = if ps.len() >= 1 {
            ps[0] as int
        } else {
            13int
        };
        let x2 = if ps.len() >= 2 {
            ps[1] as int
        } else {
            13int
        };
        h matches Hand::Pairs { pairs, kickers } && pairs@ == ps && kickers@ == top_picks(
            d,
            1,
            4,
            x1,
            x2,
            5 - 2 * np,
        )
    } else {
        h matches Hand::HighCard { ranks } && ranks@ == top_picks(d, 1, 4, 13, 13, 5)
    }
}

/// The comparison key of the hand that the classifier assigns to `d`: its
/// category followed by its tie-break fields, as `crate::hand::key` lays
/// them out.
pub open spec fn classify_key(d: u64) -> Seq<int> {
    let n2 = ranks_with_count(d, 2);
    let n3 = ranks_with_count(d, 3);
    let n4 = ranks_with_count(d, 4);
    let sf = best_straightflush(d);
    let fs = flush_suit(d);
    if sf is Some && fs is Some {
        seq![7int, sf->0 as int]
    } else if n4 == 1 {
        let q = top1(d, 4, 4, 13, 13);
        seq![6int, q as int, top1(d, 1, 4, q as int, 13) as int]
    } else if n3 >= 1 && n3 + n2 >= 2 {
        let t = top1(d, 3, 3, 13, 13);
        seq![5int, t as int, top1(d, 2, 4, t as int, 13) as int]
    } else if fs is Some {
        seq![4int] + crate::hand::ranks_of(suit_top_picks(d, fs->0 as int, 5))
    } else if best_straight(d) is Some {
        seq![3int, best_straight(d)->0 as int]
    } else if n3 >= 1 {
        let t = top1(d, 3, 3, 13, 13);
        seq![2int, t as int] + crate::hand::ranks_of(top_picks(d, 1, 4, t as int, 13, 2))
    } else if n2 >= 1 {
        let np = if n2 >= 2 {
            2int
        } else {
            1int
        };
        let ps = top_picks(d, 2, 4, 13, 13, np);
        let x1 = if ps.len() >= 1 {
            ps[0] as int
        } else {
            13int
        };
        let x2 = if ps.len() >= 2 {
            ps[1] as int
        } else {
            13int
        };
        seq![1int, ps.len() as int] + crate::hand::ranks_of(ps) + crate::hand::ranks_of(
            top_picks(d, 1, 4, x1, x2, 5 - 2 * np),
        )
    } else {
        seq![0int] + crate::hand::ranks_of(top_picks(d, 1, 4, 13, 13, 5))
    }
}

/// Any hand the classifier assigns to `d` carries the comparison key that
/// `d` alone determines: classification leaves nothing to choose but the
/// flush suit, which takes no part in comparisons.
pub proof fn lemma_classify_key(d: u64, h: Hand)
    requires
        classify_ok(d, h),
    ensures
        crate::hand::key(h) == classify_key(d),
{
    let n2 = ranks_with_count(d, 2);
    let n3 = ranks_with_count(d, 3);
    let n4 = ranks_with_count(d, 4);
    let sf = best_straightflush(d);
    let fs = flush_suit(d);
    if sf is Some && fs is Some {
        assert(crate::hand::key(h) =~= classify_key(d));
    } else if n4 == 1 {
        assert(crate::hand::key(h) =~= classify_key(d));
    } else if n3 >= 1 && n3 + n2 >= 2 {
        assert(crate::hand::key(h) =~= classify_key(d));
    } else if fs is Some {
        match h {
            Hand::Flush { ranks, suit } => {
                assert(crate::hand::key(h) =~= classify_key(d));
            },
            _ => {
                assert(false);
            },
        }
    } else if best_straight(d) is Some {
        assert(crate::hand::key(h) =~= classify_key(d));
    } else if n3 >= 1 {
        match h {
            Hand::Trips { rank, kickers } => {
                assert(crate::hand::key(h) =~= classify_key(d));
            },
            _ => {
                assert(false);
            },
        }
    } else if n2 >= 1 {
        match h {
            Hand::Pairs { pairs, kickers } => {
                assert(crate::hand::key(h) =~= classify_key(d));
            },
            _ => {
                assert(false);
            },
        }
    } else {
        match h {
            Hand::HighCard { ranks } => {
                assert(crate::hand::key(h) =~= classify_key(d));
            },
            _ => {
                assert(false);
            },
        }
    }
}

/// Counts the suits holding rank `r`.
fn rank_count_x(d: u64, r: u32) -> (c: u8)
    requires
        r < 13,
    ensures
        c as int == rank_count(d, r as int),
        c <= 4,
{
    let mut c: u8 = 0;
    if test_bit(d, r) {
        c = c + 1;
    }
    if test_bit(d, 13 + r) {
        c = c + 1;
    }
    if test_bit(d, 26 + r) {
        c = c + 1;
    }
    if test_bit(d, 39 + r) {
        c = c + 1;
    }
    c
}

/// Tests whether suit `s` holds rank `r`.
fn suit_has_x(d: u64, s: u32, r: u32) -> (b: bool)
    requires
        s < 4,
        r < 13,
    ensures
        b == suit_has(d, s as int, r as int),
{
    test_bit(d, 13 * s + r)
}

/// Counts the ranks whose suit count is exactly `c`.
fn count_ranks_with(d: u64, c: u8) -> (n: u8)
    ensures
        n as int == ranks_with_count(d, c as int),
        n <= 13,
{
    let mut n: u8 = 0;
    let mut r: u32 = 0;
    while r < 13
        invariant
            r <= 13,
            n as int == ranks_with_count_below(d, c as int, r as int),
            n <= r,
        decreases 13 - r,
    {
        if rank_count_x(d, r) == c {
            n = n + 1;
        }
        r = r + 1;
    }
    n
}

/// Counts the cards in suit `s`.
fn suit_size_x(d: u64, s: u32) -> (n: u8)
    requires
        s < 4,
    ensures
        n as int == suit_size(d, s as int),
        n <= 13,
{
    let mut n: u8 = 0;
    let mut r: u32 = 0;
    while r < 13
        invariant
            s < 4,
            r <= 13,
            n as int == suit_size_below(d, s as int, r as int),
            n <= r,
        decreases 13 - r,
    {
        if suit_has_x(d, s, r) {
            n = n + 1;
        }
        r = r + 1;
    }
    n
}

/// Finds the flush suit: the suit holding at least five cards, preferring
/// the highest suit index.
fn flush_suit_x(d: u64) -> (o: Option<u8>)
    ensures
        o == flush_suit(d),
{
    if suit_size_x(d, 3) >= 5 {
        Some(3)
    } else if suit_size_x(d, 2) >= 5 {
        Some(2)
    } else if suit_size_x(d, 1) >= 5 {
        Some(1)
    } else if suit_size_x(d, 0) >= 5 {
        Some(0)
    } else {
        None
    }
}

/// Tests for a straight in suit `s` topping at `top`, including the wheel
/// at top rank 3.
fn suit_straight_at_x(d: u64, s: u32, top: u32) -> (b: bool)
    requires
        s < 4,
        3 <= top <= 12,
    ensures
        b == suit_straight_at(d, s as int, top as int),
{
    if top == 3 {
        suit_has_x(d, s, 12) && suit_has_x(d, s, 0) && suit_has_x(d, s, 1) && suit_has_x(d, s, 2)
            && suit_has_x(d, s, 3)
    } else {
        suit_has_x(d, s, top - 4) && suit_has_x(d, s, top - 3) && suit_has_x(d, s, top - 2)
            && suit_has_x(d, s, top - 1) && suit_has_x(d, s, top)
    }
}

/// Tests for a straight in the merged ranks topping at `top`.
fn straight_at_x(d: u64, top: u32) -> (b: bool)
    requires
        3 <= top <= 12,
    ensures
        b == straight_at(d, top as int),
{
    if top == 3 {
        rank_count_x(d, 12) >= 1 && rank_count_x(d, 0) >= 1 && rank_count_x(d, 1) >= 1
            && rank_count_x(d, 2) >= 1 && rank_count_x(d, 3) >= 1
    } else {
        rank_count_x(d, top - 4) >= 1 && rank_count_x(d, top - 3) >= 1 && rank_count_x(d, top - 2)
            >= 1 && rank_count_x(d, top - 1) >= 1 && rank_count_x(d, top) >= 1
    }
}

/// The highest straight top in suit `s`, scanning from the ace down.
fn suit_best_straight_x(d: u64, s: u32) -> (o: Option<u8>)
    requires
        s < 4,
    ensures
        o == suit_best_straight(d, s as int),
{
    let mut top: u32 = 13;
    while top > 3
        invariant
            s < 4,
            3 <= top <= 13,
            suit_best_straight(d, s as int) == suit_best_straight_from(d, s as int, top as int
                - 1),
        decreases top,
    {
        top = top - 1;
        if suit_straight_at_x(d, s, top) {
            return Some(top as u8);
        }
    }
    assert(suit_best_straight_from(d, s as int, 2) is None);
    None
}

/// The highest straight top over the merged ranks, scanning from the ace
/// down.
fn best_straight_x(d: u64) -> (o: Option<u8>)
    ensures
        o == best_straight(d),
{
    let mut top: u32 = 13;
    while top > 3
        invariant
            3 <= top <= 13,
            best_straight(d) == best_straight_from(d, top as int - 1),
        decreases top,
    {
        top = top - 1;
        if straight_at_x(d, top) {
            return Some(top as u8);
        }
    }
    assert(best_straight_from(d, 2) is None);
    None
}

/// The larger of two optional straight tops.
fn opt_max_x(a: Option<u8>, b: Option<u8>) -> (o: Option<u8>)
    ensures
        o == opt_max(a, b),
{
    match (a, b) {
        (Some(x), Some(y)) => if x >= y {
            Some(x)
        } else {
            Some(y)
        },
        (Some(x), None) => Some(x),
        (None, Some(y)) => Some(y),
        (None, None) => None,
    }
}

/// The highest straight-flush top across the four suits.
fn best_straightflush_x(d: u64) -> (o: Option<u8>)
    ensures
        o == best_straightflush(d),
{
    let s0 = suit_best_straight_x(d, 0);
    let s1 = suit_best_straight_x(d, 1);
    let s2 = suit_best_straight_x(d, 2);
    let s3 = suit_best_straight_x(d, 3);
    opt_max_x(opt_max_x(opt_max_x(s0, s1), s2), s3)
}

/// Collects up to `k` selectable ranks from the ace down: ranks whose suit
/// count lies in `cmin ..= cmax`, skipping the excluded ranks `x1` and `x2`
/// (13 stands for no exclusion).
fn top_picks_x(d: u64, cmin: u8, cmax: u8, x1: u8, x2: u8, k: usize) -> (v: Vec<u8>)
    ensures
        v@ == top_picks(d, cmin as int, cmax as int, x1 as int, x2 as int, k as int),
        v@.len() <= k,
{
    let ghost gk = k as int;
    let mut v: Vec<u8> = Vec::new();
    proof {
        assert(Seq::<u8>::empty() + picks_from(
            d,
            cmin as int,
            cmax as int,
            x1 as int,
            x2 as int,
            12,
            gk,
        ) =~= top_picks(d, cmin as int, cmax as int, x1 as int, x2 as int, gk));
    }
    let mut r: u32 = 13;
    while r > 0
        invariant
            gk == k as int,
            r <= 13,
            v@.len() <= k,
            v@ + picks_from(
                d,
                cmin as int,
                cmax as int,
                x1 as int,
                x2 as int,
                r as int - 1,
                gk - v@.len(),
            ) == top_picks(d, cmin as int, cmax as int, x1 as int, x2 as int, gk),
        decreases r,
    {
        r = r - 1;
        let ghost old_v = v@;
        let c = rank_count_x(d, r);
        if cmin <= c && c <= cmax && (r as u8) != x1 && (r as u8) != x2 && v.len() < k {
            v.push(r as u8);
            proof {
                assert(rank_matches(d, cmin as int, cmax as int, x1 as int, x2 as int, r as int));
                assert(old_v + (seq![r as u8] + picks_from(
                    d,
                    cmin as int,
                    cmax as int,
                    x1 as int,
                    x2 as int,
                    r as int - 1,
                    gk - old_v.len() - 1,
                )) =~= v@ + picks_from(
                    d,
                    cmin as int,
                    cmax as int,
                    x1 as int,
                    x2 as int,
                    r as int - 1,
                    gk - v@.len(),
                ));
            }
        } else {
            proof {
                if v@.len() < k {
                    assert(!rank_matches(
                        d,
                        cmin as int,
                        cmax as int,
                        x1 as int,
                        x2 as int,
                        r as int,
                    ));
                    assert(picks_from(
                        d,
                        cmin as int,
                        cmax as int,
                        x1 as int,
                        x2 as int,
                        r as int,
                        gk - v@.len(),
                    ) == picks_from(
                        d,
                        cmin as int,
                        cmax as int,
                        x1 as int,
                        x2 as int,
                        r as int - 1,
                        gk - v@.len(),
                    ));
                } else {
                    assert(v@.len() == k);
                    assert(picks_from(
                        d,
                        cmin as int,
                        cmax as int,
                        x1 as int,
                        x2 as int,
                        r as int,
                        0,
                    ) == Seq::<u8>::empty());
                    assert(picks_from(
                        d,
                        cmin as int,
                        cmax as int,
                        x1 as int,
                        x2 as int,
                        r as int - 1,
                        0,
                    ) == Seq::<u8>::empty());
                }
            }
        }
    }
    proof {
        assert(v@ + picks_from(
            d,
            cmin as int,
            cmax as int,
            x1 as int,
            x2 as int,
            -1,
            gk - v@.len(),
        ) =~= v@);
    }
    v
}

/// Collects up to `k` ranks of suit `s` from the ace down.
fn suit_top_picks_x(d: u64, s: u32, k: usize) -> (v: Vec<u8>)
    requires
        s < 4,
    ensures
        v@ == suit_top_picks(d, s as int, k as int),
        v@.len() <= k,
{
    let ghost gk = k as int;
    let mut v: Vec<u8> = Vec::new();
    proof {
        assert(Seq::<u8>::empty() + suit_picks_from(d, s as int, 12, gk) =~= suit_top_picks(
            d,
            s as int,
            gk,
        ));
    }
    let mut r: u32 = 13;
    while r > 0
        invariant
            gk == k as int,
            s < 4,
            r <= 13,
            v@.len() <= k,
            v@ + suit_picks_from(d, s as int, r as int - 1, gk - v@.len()) == suit_top_picks(
                d,
                s as int,
                gk,
            ),
        decreases r,
    {
        r = r - 1;
        let ghost old_v = v@;
        if suit_has_x(d, s, r) && v.len() < k {
            v.push(r as u8);
            proof {
                assert(old_v + (seq![r as u8] + suit_picks_from(
                    d,
                    s as int,
                    r as int - 1,
                    gk - old_v.len() - 1,
                )) =~= v@ + suit_picks_from(d, s as int, r as int - 1, gk - v@.len()));
            }
        }
    }
    proof {
        assert(v@ + suit_picks_from(d, s as int, -1, gk - v@.len()) =~= v@);
    }
    v
}

/// The cards of `d` counted rank by rank, over the ranks 0..n.
pub open spec fn sum_rank_counts_below(d: u64, n: int) -> int
    decreases n,
{
    if n <= 0 {
        0
    } else {
        sum_rank_counts_below(d, n - 1) + rank_count(d, n - 1)
    }
}

/// The same sum leaving out the ranks `x1` and `x2`.
pub open spec fn sum_except_below(d: u64, x1: int, x2: int, n: int) -> int
    decreases n,
{
    if n <= 0 {
        0
    } else {
        sum_except_below(d, x1, x2, n - 1) + if n - 1 == x1 || n - 1 == x2 {
            0int
        } else {
            rank_count(d, n - 1)
        }
    }
}

/// How many of the ranks 0..n are selectable.
pub open spec fn num_matching_below(d: u64, cmin: int, cmax: int, x1: int, x2: int, n: int) -> int
    decreases n,
{
    if n <= 0 {
        0
    } else {
        num_matching_below(d, cmin, cmax, x1, x2, n - 1) + b2i(
            rank_matches(d, cmin, cmax, x1, x2, n - 1),
        )
    }
}

/// The first `13 s + j` card bits split into whole suits below `s` and the
/// first `j` ranks of suit `s`.
proof fn lemma_suit_chunk(d: u64, s: int, j: int)
    requires
        0 <= s < 4,
        0 <= j <= 13,
    ensures
        crate::bits::count_below(d, 13 * s + j) == crate::bits::count_below(d, 13 * s)
            + suit_size_below(d, s, j),
    decreases j,
{
    if j > 0 {
        lemma_suit_chunk(d, s, j - 1);
        assert(suit_has(d, s, j - 1) == bit_set(d, 13 * s + j - 1));
    }
}

/// Counting a card-set rank by rank counts every card once.
proof fn lemma_sum_suits_ranks(d: u64, n: int)
    requires
        0 <= n <= 13,
    ensures
        sum_rank_counts_below(d, n) == suit_size_below(d, 0, n) + suit_size_below(d, 1, n)
            + suit_size_below(d, 2, n) + suit_size_below(d, 3, n),
    decreases n,
{
    if n > 0 {
        lemma_sum_suits_ranks(d, n - 1);
        assert(suit_has(d, 0, n - 1) == bit_set(d, n - 1));
        assert(suit_has(d, 1, n - 1) == bit_set(d, 13 + (n - 1)));
        assert(suit_has(d, 2, n - 1) == bit_set(d, 26 + (n - 1)));
        assert(suit_has(d, 3, n - 1) == bit_set(d, 39 + (n - 1)));
    }
}

/// The number of cards equals the sum of the per-rank suit counts.
proof fn lemma_card_count_is_sum(d: u64)
    ensures
        card_count(d) == sum_rank_counts_below(d, 13),
{
    lemma_suit_chunk(d, 0, 13);
    lemma_suit_chunk(d, 1, 13);
    lemma_suit_chunk(d, 2, 13);
    lemma_suit_chunk(d, 3, 13);
    lemma_sum_suits_ranks(d, 13);
    assert(crate::bits::count_below(d, 0) == 0);
}

/// Leaving out up to two ranks takes exactly their counts from the sum.
proof fn lemma_sum_except(d: u64, x1: int, x2: int, n: int)
    requires
        0 <= n <= 13,
        x1 != x2 || x1 == 13,
    ensures
        sum_except_below(d, x1, x2, n) == sum_rank_counts_below(d, n) - (if 0 <= x1 < n {
            rank_count(d, x1)
        } else {
            0int
        }) - (if 0 <= x2 < n {
            rank_count(d, x2)
        } else {
            0int
        }),
    decreases n,
{
    if n > 0 {
        lemma_sum_except(d, x1, x2, n - 1);
    }
}

/// Each selectable rank carries at most four cards, so the remaining cards
/// force at least a quarter as many selectable ranks.
proof fn lemma_sum_le_4num(d: u64, x1: int, x2: int, n: int)
    requires
        0 <= n <= 13,
    ensures
        sum_except_below(d, x1, x2, n) <= 4 * num_matching_below(d, 1, 4, x1, x2, n),
    decreases n,
{
    if n > 0 {
        lemma_sum_le_4num(d, x1, x2, n - 1);
    }
}

/// Where every rank besides the excluded ones carries at most one card, the
/// remaining cards are each a selectable rank of their own.
proof fn lemma_sum_le_num_low(d: u64, x1: int, x2: int, n: int)
    requires
        0 <= n <= 13,
        forall|r: int| 0 <= r < n && r != x1 && r != x2 ==> rank_count(d, r) <= 1,
    ensures
        sum_except_below(d, x1, x2, n) <= num_matching_below(d, 1, 4, x1, x2, n),
    decreases n,
{
    if n > 0 {
        lemma_sum_le_num_low(d, x1, x2, n - 1);
    }
}

/// The selection takes `k` ranks where enough are selectable, and all of
/// them where not.
proof fn lemma_picks_len(d: u64, cmin: int, cmax: int, x1: int, x2: int, r: int, k: int)
    requires
        k >= 0,
        r <= 12,
    ensures
        picks_from(d, cmin, cmax, x1, x2, r, k).len() == if k <= num_matching_below(
            d,
            cmin,
            cmax,
            x1,
            x2,
            r + 1,
        ) {
            k
        } else {
            num_matching_below(d, cmin, cmax, x1, x2, r + 1)
        },
    decreases r + 1,
{
    if r >= 0 && k > 0 {
        if rank_matches(d, cmin, cmax, x1, x2, r) {
            lemma_picks_len(d, cmin, cmax, x1, x2, r - 1, k - 1);
        } else {
            lemma_picks_len(d, cmin, cmax, x1, x2, r - 1, k);
        }
    } else {
        lemma_num_matching_nonneg(d, cmin, cmax, x1, x2, r + 1);
    }
}

proof fn lemma_num_matching_nonneg(d: u64, cmin: int, cmax: int, x1: int, x2: int, n: int)
    ensures
        num_matching_below(d, cmin, cmax, x1, x2, n) >= 0,
    decreases n,
{
    if n > 0 {
        lemma_num_matching_nonneg(d, cmin, cmax, x1, x2, n - 1);
    }
}

/// Every selected rank is selectable and no higher than the scan start.
proof fn lemma_picks_elements(d: u64, cmin: int, cmax: int, x1: int, x2: int, r: int, k: int)
    requires
        r <= 12,
    ensures
        forall|i: int|
            0 <= i < picks_from(d, cmin, cmax, x1, x2, r, k).len() ==> rank_matches(
                d,
                cmin,
                cmax,
                x1,
                x2,
                (#[trigger] picks_from(d, cmin, cmax, x1, x2, r, k)[i]) as int,
            ) && picks_from(d, cmin, cmax, x1, x2, r, k)[i] as int <= r,
    decreases r + 1,
{
    if r >= 0 && k > 0 {
        let p = picks_from(d, cmin, cmax, x1, x2, r, k);
        if rank_matches(d, cmin, cmax, x1, x2, r) {
            lemma_picks_elements(d, cmin, cmax, x1, x2, r - 1, k - 1);
            let rest = picks_from(d, cmin, cmax, x1, x2, r - 1, k - 1);
            assert(p == seq![r as u8] + rest);
            assert forall|i: int| 0 <= i < p.len() implies rank_matches(
                d,
                cmin,
                cmax,
                x1,
                x2,
                (#[trigger] p[i]) as int,
            ) && p[i] as int <= r by {
                if i == 0 {
                    assert(p[0] == r as u8);
                } else {
                    assert(p[i] == rest[i - 1]);
                }
            }
        } else {
            lemma_picks_elements(d, cmin, cmax, x1, x2, r - 1, k);
            let rest = picks_from(d, cmin, cmax, x1, x2, r - 1, k);
            assert forall|i: int| 0 <= i < p.len() implies rank_matches(
                d,
                cmin,
                cmax,
                x1,
                x2,
                (#[trigger] p[i]) as int,
            ) && p[i] as int <= r by {
                assert(p[i] == rest[i]);
            }
        }
    }
}

/// The suit selection takes `k` ranks where the suit holds as many.
proof fn lemma_suit_picks_len(d: u64, s: int, r: int, k: int)
    requires
        k >= 0,
        r <= 12,
    ensures
        suit_picks_from(d, s, r, k).len() == if k <= suit_size_below(d, s, r + 1) {
            k
        } else {
            suit_size_below(d, s, r + 1)
        },
    decreases r + 1,
{
    if r >= 0 && k > 0 {
        if suit_has(d, s, r) {
            lemma_suit_picks_len(d, s, r - 1, k - 1);
        } else {
            lemma_suit_picks_len(d, s, r - 1, k);
        }
    } else {
        lemma_suit_size_nonneg(d, s, r + 1);
    }
}

proof fn lemma_suit_size_nonneg(d: u64, s: int, n: int)
    ensures
        suit_size_below(d, s, n) >= 0,
    decreases n,
{
    if n > 0 {
        lemma_suit_size_nonneg(d, s, n - 1);
    }
}

/// Four-of-a-kinds, three-of-a-kinds and pairs account for four, three and
/// two cards each.
proof fn lemma_sum_ge_weighted(d: u64, n: int)
    requires
        0 <= n <= 13,
    ensures
        sum_rank_counts_below(d, n) >= 4 * ranks_with_count_below(d, 4, n) + 3
            * ranks_with_count_below(d, 3, n) + 2 * ranks_with_count_below(d, 2, n),
    decreases n,
{
    if n > 0 {
        lemma_sum_ge_weighted(d, n - 1);
    }
}

proof fn lemma_rwc_nonneg(d: u64, c: int, n: int)
    ensures
        ranks_with_count_below(d, c, n) >= 0,
    decreases n,
{
    if n > 0 {
        lemma_rwc_nonneg(d, c, n - 1);
    }
}

proof fn lemma_rwc_mono(d: u64, c: int, m: int, n: int)
    requires
        m <= n,
    ensures
        ranks_with_count_below(d, c, m) <= ranks_with_count_below(d, c, n),
    decreases n - m,
{
    if m < n {
        lemma_rwc_mono(d, c, m, n - 1);
    }
}

/// A rank carrying exactly `c` cards is counted among the ranks with count
/// `c`.
proof fn lemma_rwc_ge1(d: u64, c: int, r: int)
    requires
        0 <= r < 13,
        rank_count(d, r) == c,
    ensures
        ranks_with_count(d, c) >= 1,
{
    lemma_rwc_nonneg(d, c, r);
    lemma_rwc_mono(d, c, r + 1, 13);
}

/// Two distinct ranks carrying exactly `c` cards each are counted twice.
proof fn lemma_rwc_ge2(d: u64, c: int, r1: int, r2: int)
    requires
        0 <= r1 < r2 < 13,
        rank_count(d, r1) == c,
        rank_count(d, r2) == c,
    ensures
        ranks_with_count(d, c) >= 2,
{
    lemma_rwc_nonneg(d, c, r1);
    lemma_rwc_mono(d, c, r1 + 1, r2);
    lemma_rwc_mono(d, c, r2 + 1, 13);
}

/// Every pair and every three-of-a-kind besides the excluded rank is
/// selectable with counts two to four.
proof fn lemma_num_matching_pairs(d: u64, t: int, n: int)
    requires
        0 <= n <= 13,
    ensures
        num_matching_below(d, 2, 4, t, 13, n) >= ranks_with_count_below(d, 2, n)
            + ranks_with_count_below(d, 3, n) - b2i(0 <= t < n),
    decreases n,
{
    if n > 0 {
        lemma_num_matching_pairs(d, t, n - 1);
    }
}

/// Classifies a card-set of five to seven cards as the single best
/// five-card hand obtainable from it, evaluating the eight categories in
/// strict precedence order.
pub fn analyse(deck: Deck) -> (h: Hand)
    requires
        valid_deck(deck),
        5 <= card_count(deck) <= 7,
    ensures
        classify_ok(deck, h),
{
    let n2 = count_ranks_with(deck, 2);
    let n3 = count_ranks_with(deck, 3);
    let n4 = count_ranks_with(deck, 4);
    let sf = best_straightflush_x(deck);
    let fs = flush_suit_x(deck);
    proof {
        lemma_card_count_is_sum(deck);
        lemma_sum_ge_weighted(deck, 13);
        lemma_rwc_nonneg(deck, 2, 13);
        lemma_rwc_nonneg(deck, 3, 13);
        lemma_rwc_nonneg(deck, 4, 13);
    }
    if sf.is_some() && fs.is_some() {
        return Hand::StraightFlush { top: sf.unwrap(), suit: fs.unwrap() };
    }
    if n4 == 1 {
        proof {
            lemma_num_matching_exact(deck, 4, 13);
            lemma_picks_len(deck, 4, 4, 13, 13, 12, 1);
        }
        let qv = top_picks_x(deck, 4, 4, 13, 13, 1);
        let q = qv[0];
        proof {
            lemma_picks_elements(deck, 4, 4, 13, 13, 12, 1);
            assert(rank_count(deck, q as int) == 4);
            lemma_sum_except(deck, q as int, 13, 13);
            lemma_sum_le_4num(deck, q as int, 13, 13);
            lemma_picks_len(deck, 1, 4, q as int, 13, 12, 1);
        }
        let kv = top_picks_x(deck, 1, 4, q, 13, 1);
        return Hand::Quads { rank: q, kicker: kv[0] };
    }
    if n3 >= 1 && n3 + n2 >= 2 {
        proof {
            lemma_num_matching_exact(deck, 3, 13);
            lemma_picks_len(deck, 3, 3, 13, 13, 12, 1);
        }
        let tv = top_picks_x(deck, 3, 3, 13, 13, 1);
        let t = tv[0];
        proof {
            lemma_num_matching_pairs(deck, t as int, 13);
            lemma_picks_len(deck, 2, 4, t as int, 13, 12, 1);
        }
        let pv = top_picks_x(deck, 2, 4, t, 13, 1);
        return Hand::FullHouse { trips: t, pair: pv[0] };
    }
    if fs.is_some() {
        let s = fs.unwrap();
        proof {
            lemma_suit_picks_len(deck, s as int, 12, 5);
        }
        let v = suit_top_picks_x(deck, s as u32, 5);
        let ranks = [v[0], v[1], v[2], v[3], v[4]];
        proof {
            assert(ranks@ =~= v@);
        }
        return Hand::Flush { ranks, suit: s };
    }
    let st = best_straight_x(deck);
    if st.is_some() {
        return Hand::Straight { top: st.unwrap() };
    }
    if n3 >= 1 {
        proof {
            lemma_num_matching_exact(deck, 3, 13);
            lemma_picks_len(deck, 3, 3, 13, 13, 12, 1);
        }
        let tv = top_picks_x(deck, 3, 3, 13, 13, 1);
        let t = tv[0];
        proof {
            lemma_picks_elements(deck, 3, 3, 13, 13, 12, 1);
            assert(rank_count(deck, t as int) == 3);
            assert forall|r: int| 0 <= r < 13 && r != t as int && r != 13 implies rank_count(
                deck,
                r,
            ) <= 1 by {
                if rank_count(deck, r) == 2 {
                    lemma_rwc_ge1(deck, 2, r);
                }
                if rank_count(deck, r) == 3 {
                    if r < t as int {
                        lemma_rwc_ge2(deck, 3, r, t as int);
                    } else {
                        lemma_rwc_ge2(deck, 3, t as int, r);
                    }
                }
                if rank_count(deck, r) == 4 {
                    lemma_rwc_ge1(deck, 4, r);
                }
            }
            lemma_sum_except(deck, t as int, 13, 13);
            lemma_sum_le_num_low(deck, t as int, 13, 13);
            lemma_picks_len(deck, 1, 4, t as int, 13, 12, 2);
        }
        let kv = top_picks_x(deck, 1, 4, t, 13, 2);
        let kickers = [kv[0], kv[1]];
        proof {
            assert(kickers@ =~= kv@);
        }
        return Hand::Trips { rank: t, kickers };
    }
    if n2 >= 1 {
        let np: usize = if n2 >= 2 {
            2
        } else {
            1
        };
        proof {
            lemma_num_matching_pairs(deck, 13, 13);
            lemma_picks_len(deck, 2, 4, 13, 13, 12, np as int);
        }
        let ps = top_picks_x(deck, 2, 4, 13, 13, np);
        let x1 = ps[0];
        let x2 = if np == 2 {
            ps[1]
        } else {
            13
        };
        let kn = 5 - 2 * np;
        let kv = top_picks_x(deck, 1, 4, x1, x2, kn);
        return Hand::Pairs { pairs: ps, kickers: kv };
    }
    proof {
        assert forall|r: int| 0 <= r < 13 && r != 13 && r != 13 implies rank_count(deck, r)
            <= 1 by {
            if rank_count(deck, r) == 2 {
                lemma_rwc_ge1(deck, 2, r);
            }
            if rank_count(deck, r) == 3 {
                lemma_rwc_ge1(deck, 3, r);
            }
            if rank_count(deck, r) == 4 {
                lemma_rwc_ge1(deck, 4, r);
            }
        }
        lemma_sum_except(deck, 13, 13, 13);
        lemma_sum_le_num_low(deck, 13, 13, 13);
        lemma_picks_len(deck, 1, 4, 13, 13, 12, 5);
    }
    let v = top_picks_x(deck, 1, 4, 13, 13, 5);
    let ranks = [v[0], v[1], v[2], v[3], v[4]];
    proof {
        assert(ranks@ =~= v@);
    }
    Hand::HighCard { ranks }
}

/// Selecting by an exact count `c` selects just the ranks with count `c`.
proof fn lemma_num_matching_exact(d: u64, c: int, n: int)
    requires
        0 <= n <= 13,
        1 <= c,
    ensures
        num_matching_below(d, c, c, 13, 13, n) == ranks_with_count_below(d, c, n),
    decreases n,
{
    if n > 0 {
        lemma_num_matching_exact(d, c, n - 1);
    }
}

/// Every rank of suit `s` is sorted under the highest selected one.
proof fn lemma_suit_picks_elements(d: u64, s: int, r: int, k: int)
    requires
        r <= 12,
    ensures
        forall|i: int|
            0 <= i < suit_picks_from(d, s, r, k).len() ==> suit_has(
                d,
                s,
                (#[trigger] suit_picks_from(d, s, r, k)[i]) as int,
            ) && suit_picks_from(d, s, r, k)[i] as int <= r,
    decreases r + 1,
{
    if r >= 0 && k > 0 {
        let p = suit_picks_from(d, s, r, k);
        if suit_has(d, s, r) {
            lemma_suit_picks_elements(d, s, r - 1, k - 1);
            let rest = suit_picks_from(d, s, r - 1, k - 1);
            assert forall|i: int| 0 <= i < p.len() implies suit_has(
                d,
                s,
                (#[trigger] p[i]) as int,
            ) && p[i] as int <= r by {
                if i == 0 {
                    assert(p[0] == r as u8);
                } else {
                    assert(p[i] == rest[i - 1]);
                }
            }
        } else {
            lemma_suit_picks_elements(d, s, r - 1, k);
            let rest = suit_picks_from(d, s, r - 1, k);
            assert forall|i: int| 0 <= i < p.len() implies suit_has(
                d,
                s,
                (#[trigger] p[i]) as int,
            ) && p[i] as int <= r by {
                assert(p[i] == rest[i]);
            }
        }
    }
}

/// A rank held by any suit is a present rank.
proof fn lemma_suit_has_rank(d: u64, s: int, r: int)
    requires
        0 <= s < 4,
        0 <= r < 13,
        suit_has(d, s, r),
    ensures
        has_rank(d, r),
{
    if s == 0 {
        assert(bit_set(d, r));
    } else if s == 1 {
        assert(bit_set(d, 13 + r));
    } else if s == 2 {
        assert(bit_set(d, 26 + r));
    } else {
        assert(bit_set(d, 39 + r));
    }
}

/// A straight found in a suit tops at a rank that suit holds.
proof fn lemma_suit_best_straight_some(d: u64, s: int, top: int, v: u8)
    requires
        top <= 12,
        suit_best_straight_from(d, s, top) == Some(v),
    ensures
        3 <= v as int <= top,
        suit_straight_at(d, s, v as int),
    decreases top,
{
    if top >= 3 && !suit_straight_at(d, s, top) {
        lemma_suit_best_straight_some(d, s, top - 1, v);
    }
}

/// A straight found over the merged ranks tops at a present rank.
proof fn lemma_best_straight_some(d: u64, top: int, v: u8)
    requires
        top <= 12,
        best_straight_from(d, top) == Some(v),
    ensures
        3 <= v as int <= top,
        straight_at(d, v as int),
    decreases top,
{
    if top >= 3 && !straight_at(d, top) {
        lemma_best_straight_some(d, top - 1, v);
    }
}

proof fn lemma_num_matching_mono(d: u64, cmin: int, cmax: int, x1: int, x2: int, m: int, n: int)
    requires
        m <= n,
    ensures
        num_matching_below(d, cmin, cmax, x1, x2, m) <= num_matching_below(
            d,
            cmin,
            cmax,
            x1,
            x2,
            n,
        ),
    decreases n - m,
{
    if m < n {
        lemma_num_matching_mono(d, cmin, cmax, x1, x2, m, n - 1);
    }
}

/// One selectable rank makes the selectable count positive.
proof fn lemma_num_matching_ge1(d: u64, cmin: int, cmax: int, x1: int, x2: int, r: int)
    requires
        0 <= r < 13,
        rank_matches(d, cmin, cmax, x1, x2, r),
    ensures
        num_matching_below(d, cmin, cmax, x1, x2, 13) >= 1,
{
    lemma_num_matching_nonneg(d, cmin, cmax, x1, x2, r);
    lemma_num_matching_mono(d, cmin, cmax, x1, x2, r + 1, 13);
}

/// The first selected rank is the highest selectable one.
proof fn lemma_picks_max(d: u64, cmin: int, cmax: int, x1: int, x2: int, r: int, k: int, e: int)
    requires
        k >= 1,
        0 <= e <= r <= 12,
        rank_matches(d, cmin, cmax, x1, x2, e),
    ensures
        picks_from(d, cmin, cmax, x1, x2, r, k).len() >= 1,
        picks_from(d, cmin, cmax, x1, x2, r, k)[0] as int >= e,
    decreases r,
{
    if !rank_matches(d, cmin, cmax, x1, x2, r) {
        lemma_picks_max(d, cmin, cmax, x1, x2, r - 1, k, e);
    }
}

/// The rank fields a hand carries for tie-breaking, pair counts and suits
/// left out.
pub open spec fn hand_ranks(h: Hand) -> Seq<u8> {
    match h {
        Hand::HighCard { ranks } => ranks@,
        Hand::Pairs { pairs, kickers } => pairs@ + kickers@,
        Hand::Trips { rank, kickers } => seq![rank] + kickers@,
        Hand::Straight { top } => seq![top],
        Hand::Flush { ranks, suit } => ranks@,
        Hand::FullHouse { trips, pair } => seq![trips, pair],
        Hand::Quads { rank, kicker } => seq![rank, kicker],
        Hand::StraightFlush { top, suit } => seq![top],
    }
}

/// Whatever hand the classifier assigns to a five-to-seven-card set, the
/// tie-break ranks it carries are ranks actually present in the input.
pub proof fn lemma_classifier_ranks_present(d: u64, h: Hand)
    requires
        valid_deck(d),
        5 <= card_count(d) <= 7,
        classify_ok(d, h),
    ensures
        forall|i: int|
            0 <= i < hand_ranks(h).len() ==> has_rank(d, (#[trigger] hand_ranks(h)[i]) as int),
{
    let n2 = ranks_with_count(d, 2);
    let n3 = ranks_with_count(d, 3);
    let n4 = ranks_with_count(d, 4);
    let sf = best_straightflush(d);
    let fs = flush_suit(d);
    lemma_card_count_is_sum(d);
    lemma_sum_ge_weighted(d, 13);
    lemma_rwc_nonneg(d, 2, 13);
    lemma_rwc_nonneg(d, 3, 13);
    lemma_rwc_nonneg(d, 4, 13);
    if sf is Some && fs is Some {
        let v = sf->0;
        assert forall|s: int|
            0 <= s < 4 && suit_best_straight(d, s) == Some(v) implies has_rank(d, v as int) by {
            lemma_suit_best_straight_some(d, s, 12, v);
            lemma_suit_has_rank(d, s, v as int);
        }
        assert(suit_best_straight(d, 0) == Some(v) || suit_best_straight(d, 1) == Some(v)
            || suit_best_straight(d, 2) == Some(v) || suit_best_straight(d, 3) == Some(v));
    } else if n4 == 1 {
        lemma_num_matching_exact(d, 4, 13);
        lemma_picks_len(d, 4, 4, 13, 13, 12, 1);
        lemma_picks_elements(d, 4, 4, 13, 13, 12, 1);
        let q = top1(d, 4, 4, 13, 13);
        assert(rank_count(d, q as int) == 4);
        lemma_sum_except(d, q as int, 13, 13);
        lemma_sum_le_4num(d, q as int, 13, 13);
        lemma_picks_len(d, 1, 4, q as int, 13, 12, 1);
        lemma_picks_elements(d, 1, 4, q as int, 13, 12, 1);
        assert(has_rank(d, top1(d, 1, 4, q as int, 13) as int));
    } else if n3 >= 1 && n3 + n2 >= 2 {
        lemma_num_matching_exact(d, 3, 13);
        lemma_picks_len(d, 3, 3, 13, 13, 12, 1);
        lemma_picks_elements(d, 3, 3, 13, 13, 12, 1);
        let t = top1(d, 3, 3, 13, 13);
        assert(rank_count(d, t as int) == 3);
        lemma_num_matching_pairs(d, t as int, 13);
        lemma_picks_len(d, 2, 4, t as int, 13, 12, 1);
        lemma_picks_elements(d, 2, 4, t as int, 13, 12, 1);
        assert(has_rank(d, top1(d, 2, 4, t as int, 13) as int));
    } else if fs is Some {
        let s = fs->0 as int;
        lemma_suit_picks_elements(d, s, 12, 5);
        assert forall|i: int|
            0 <= i < hand_ranks(h).len() implies has_rank(
            d,
            (#[trigger] hand_ranks(h)[i]) as int,
        ) by {
            lemma_suit_has_rank(d, s, hand_ranks(h)[i] as int);
        }
    } else if best_straight(d) is Some {
        lemma_best_straight_some(d, 12, best_straight(d)->0);
    } else if n3 >= 1 {
        lemma_num_matching_exact(d, 3, 13);
        lemma_picks_len(d, 3, 3, 13, 13, 12, 1);
        lemma_picks_elements(d, 3, 3, 13, 13, 12, 1);
        let t = top1(d, 3, 3, 13, 13);
        assert(rank_count(d, t as int) == 3);
        lemma_picks_elements(d, 1, 4, t as int, 13, 12, 2);
        match h {
            Hand::Trips { rank, kickers } => {
                assert(hand_ranks(h) =~= seq![rank] + kickers@);
            },
            _ => {
                assert(false);
            },
        }
    } else if n2 >= 1 {
        lemma_picks_elements(d, 2, 4, 13, 13, 12, if n2 >= 2 { 2int } else { 1int });
        let ps = top_picks(d, 2, 4, 13, 13, if n2 >= 2 { 2int } else { 1int });
        let x1 = if ps.len() >= 1 { ps[0] as int } else { 13int };
        let x2 = if ps.len() >= 2 { ps[1] as int } else { 13int };
        lemma_picks_elements(d, 1, 4, x1, x2, 12, 5 - 2 * (if n2 >= 2 { 2int } else { 1int }));
        match h {
            Hand::Pairs { pairs, kickers } => {
                assert(hand_ranks(h) =~= pairs@ + kickers@);
                assert forall|i: int|
                    0 <= i < hand_ranks(h).len() implies has_rank(
                    d,
                    (#[trigger] hand_ranks(h)[i]) as int,
                ) by {
                    if i < pairs@.len() {
                        assert(hand_ranks(h)[i] == pairs@[i]);
                    } else {
                        assert(hand_ranks(h)[i] == kickers@[i - pairs@.len()]);
                    }
                }
            },
            _ => {
                assert(false);
            },
        }
    } else {
        lemma_picks_elements(d, 1, 4, 13, 13, 12, 5);
    }
}

/// A seven-card set holding four cards of one rank and a pair among the
/// remaining three always classifies as four-of-a-kind — never as a full
/// house — and its kicker is the highest rank present besides the quads.
pub proof fn lemma_quads_with_pair(d: u64, h: Hand, q: int, p: int)
    requires
        valid_deck(d),
        card_count(d) == 7,
        0 <= q < 13,
        0 <= p < 13,
        q != p,
        rank_count(d, q) == 4,
        rank_count(d, p) >= 2,
        classify_ok(d, h),
    ensures
        h == (Hand::Quads { rank: q as u8, kicker: top1(d, 1, 4, q, 13) }),
        has_rank(d, top1(d, 1, 4, q, 13) as int),
        top1(d, 1, 4, q, 13) as int != q,
        forall|r: int|
            0 <= r < 13 && r != q && has_rank(d, r) ==> r <= top1(d, 1, 4, q, 13) as int,
{
    let n2 = ranks_with_count(d, 2);
    let n3 = ranks_with_count(d, 3);
    let n4 = ranks_with_count(d, 4);
    lemma_card_count_is_sum(d);
    lemma_sum_ge_weighted(d, 13);
    lemma_rwc_nonneg(d, 2, 13);
    lemma_rwc_nonneg(d, 3, 13);
    lemma_rwc_nonneg(d, 4, 13);
    // Exactly one four-of-a-kind.
    lemma_rwc_ge1(d, 4, q);
    assert(n4 == 1);
    // Each suit holds the quad card, so no suit reaches five cards and no
    // flush — hence no straight flush either — can exist.
    lemma_suit_chunk(d, 0, 13);
    lemma_suit_chunk(d, 1, 13);
    lemma_suit_chunk(d, 2, 13);
    lemma_suit_chunk(d, 3, 13);
    lemma_sum_suits_ranks(d, 13);
    assert(crate::bits::count_below(d, 0) == 0);
    assert(suit_size(d, 0) + suit_size(d, 1) + suit_size(d, 2) + suit_size(d, 3) == 7);
    assert(suit_has(d, 0, q) && suit_has(d, 1, q) && suit_has(d, 2, q) && suit_has(d, 3, q)) by {
        assert(rank_count(d, q) == 4);
    }
    assert forall|s: int| 0 <= s < 4 implies suit_size(d, s) >= 1 by {
        lemma_suit_size_ge1(d, s, q);
    }
    assert(flush_suit(d) is None);
    // The quads branch of the classifier applies.
    lemma_num_matching_exact(d, 4, 13);
    lemma_picks_len(d, 4, 4, 13, 13, 12, 1);
    lemma_picks_elements(d, 4, 4, 13, 13, 12, 1);
    let q0 = top1(d, 4, 4, 13, 13) as int;
    assert(rank_count(d, q0) == 4);
    if q0 != q {
        if q0 < q {
            lemma_rwc_ge2(d, 4, q0, q);
        } else {
            lemma_rwc_ge2(d, 4, q, q0);
        }
    }
    assert(q0 == q);
    // The kicker: the pair rank guarantees one exists, and the selection
    // takes the highest rank present besides the quads.
    assert(rank_matches(d, 1, 4, q, 13, p));
    lemma_num_matching_ge1(d, 1, 4, q, 13, p);
    lemma_picks_len(d, 1, 4, q, 13, 12, 1);
    lemma_picks_elements(d, 1, 4, q, 13, 12, 1);
    let k0 = top1(d, 1, 4, q, 13);
    assert(rank_matches(d, 1, 4, q, 13, k0 as int));
    assert forall|r: int| 0 <= r < 13 && r != q && has_rank(d, r) implies r <= k0 as int by {
        lemma_picks_max(d, 1, 4, q, 13, 12, 1, r);
    }
}

/// The wheel in suit `s`: the ace together with ranks 2 to 5 of one suit,
/// the lowest straight.
pub open spec fn wheel_deck(s: int) -> u64 {
    0x100Fu64 << ((13 * s) as u64)
}

proof fn bv_wheel_bits(s: u64, j: u64)
    by (bit_vector)
    requires
        s < 4,
        j < 64,
    ensures
        (((0x100Fu64 << (13 * s)) >> j) & 1u64 == 1u64) <==> (j == 13 * s || j == 13 * s + 1 || j
            == 13 * s + 2 || j == 13 * s + 3 || j == 13 * s + 12),
        (0x100Fu64 << (13 * s)) >> 52u64 == 0u64,
{
}

/// The wheel is a valid five-card set.
pub proof fn lemma_wheel_deck_wf(s: int)
    requires
        0 <= s < 4,
    ensures
        valid_deck(wheel_deck(s)),
        card_count(wheel_deck(s)) == 5,
{
    let d = wheel_deck(s);
    assert forall|j: int|
        0 <= j < 64 implies (bit_set(d, j) <==> (j == 13 * s || j == 13 * s + 1 || j == 13 * s + 2
        || j == 13 * s + 3 || j == 13 * s + 12)) by {
        bv_wheel_bits(s as u64, j as u64);
    }
    bv_wheel_bits(s as u64, 0);
    lemma_card_count_is_sum(d);
    assert forall|r: int|
        0 <= r < 13 implies rank_count(d, r) == (if r == 0 || r == 1 || r == 2 || r == 3 || r
        == 12 {
        1int
    } else {
        0int
    }) by {
        assert(bit_set(d, r) <==> (s == 0 && (r == 0 || r == 1 || r == 2 || r == 3 || r == 12)));
        assert(bit_set(d, 13 + r) <==> (s == 1 && (r == 0 || r == 1 || r == 2 || r == 3 || r
            == 12)));
        assert(bit_set(d, 26 + r) <==> (s == 2 && (r == 0 || r == 1 || r == 2 || r == 3 || r
            == 12)));
        assert(bit_set(d, 39 + r) <==> (s == 3 && (r == 0 || r == 1 || r == 2 || r == 3 || r
            == 12)));
    }
    reveal_with_fuel(sum_rank_counts_below, 14);
    assert(sum_rank_counts_below(d, 13) == 5);
}

/// The wheel classifies as a straight flush whose top tie-break rank equals
/// the 5-high straight's top, rank 3 — the ace never acts as its top card —
/// and it ranks strictly below a 6-high straight flush.
pub proof fn lemma_wheel_classifies(s: int, h: Hand)
    requires
        0 <= s < 4,
        classify_ok(wheel_deck(s), h),
    ensures
        h == (Hand::StraightFlush { top: 3, suit: s as u8 }),
        crate::hand::hand_cmp(h, (Hand::StraightFlush { top: 4, suit: s as u8 }))
            == core::cmp::Ordering::Less,
{
    let d = wheel_deck(s);
    assert forall|j: int|
        0 <= j < 64 implies (bit_set(d, j) <==> (j == 13 * s || j == 13 * s + 1 || j == 13 * s + 2
        || j == 13 * s + 3 || j == 13 * s + 12)) by {
        bv_wheel_bits(s as u64, j as u64);
    }
    assert forall|t: int, r: int|
        0 <= t < 4 && 0 <= r < 13 implies (suit_has(d, t, r) <==> (t == s && (r == 0 || r == 1 || r
        == 2 || r == 3 || r == 12))) by {
        assert(suit_has(d, t, r) == bit_set(d, 13 * t + r));
    }
    assert forall|t: int| 0 <= t < 4 implies suit_size(d, t) == (if t == s {
        5int
    } else {
        0int
    }) by {
        reveal_with_fuel(suit_size_below, 14);
    }
    assert(flush_suit(d) == Some(s as u8));
    assert(suit_straight_at(d, s, 3));
    assert forall|t: int| 0 <= t < 4 implies suit_best_straight(d, t) == (if t == s {
        Some(3u8)
    } else {
        None::<u8>
    }) by {
        reveal_with_fuel(suit_best_straight_from, 11);
    }
    assert(best_straightflush(d) == Some(3u8));
    assert(h == (Hand::StraightFlush { top: 3u8, suit: s as u8 }));
}

/// A suit holding some rank holds at least one card.
proof fn lemma_suit_size_ge1(d: u64, s: int, r: int)
    requires
        0 <= r < 13,
        suit_has(d, s, r),
    ensures
        suit_size(d, s) >= 1,
{
    lemma_suit_size_nonneg(d, s, r);
    lemma_suit_size_mono(d, s, r + 1, 13);
}

proof fn lemma_suit_size_mono(d: u64, s: int, m: int, n: int)
    requires
        m <= n,
    ensures
        suit_size_below(d, s, m) <= suit_size_below(d, s, n),
    decreases n - m,
{
    if m < n {
        lemma_suit_size_mono(d, s, m, n - 1);
    }
}

} // verus!
