//! The hand ranking model: a tagged variant for the eight poker categories,
//! each carrying only the fields its tie-break rule needs, and a total order
//! with category precedence first and tie-break fields second.
//!
//! All carried rank values are rank indices 0 (deuce) to 12 (ace), and rank
//! sequences are listed from the highest rank down. Suit fields record flush
//! membership only; they never take part in equality or ordering.

use core::cmp::Ordering;
use vstd::prelude::*;

verus! {

#[derive(Debug)]
#[allow(inconsistent_fields)]
pub enum Hand {
    HighCard { ranks: [u8; 5] },
    Pairs { pairs: Vec<u8>, kickers: Vec<u8> },
    Trips { rank: u8, kickers: [u8; 2] },
    Straight { top: u8 },
    Flush { ranks: [u8; 5], suit: u8 },
    FullHouse { trips: u8, pair: u8 },
    Quads { rank: u8, kicker: u8 },
    StraightFlush { top: u8, suit: u8 },
}

/// Category precedence, ascending: a hand of a higher category beats every
/// hand of a lower one, whatever the tie-break fields say.
pub open spec fn category(h: Hand) -> int {
    match h {
        Hand::HighCard { .. } => 0,
        Hand::Pairs { .. } => 1,
        Hand::Trips { .. } => 2,
        Hand::Straight { .. } => 3,
        Hand::Flush { .. } => 4,
        Hand::FullHouse { .. } => 5,
        Hand::Quads { .. } => 6,
        Hand::StraightFlush { .. } => 7,
    }
}

pub open spec fn int_cmp(a: int, b: int) -> Ordering {
    if a < b {
        Ordering::Less
    } else if a == b {
        Ordering::Equal
    } else {
        Ordering::Greater
    }
}

/// The second comparison applies only where the first one ties.
pub open spec fn ord_chain(first: Ordering, second: Ordering) -> Ordering {
    if first == Ordering::Equal {
        second
    } else {
        first
    }
}

pub open spec fn ord_reverse(o: Ordering) -> Ordering {
    match o {
        Ordering::Less => Ordering::Greater,
        Ordering::Equal => Ordering::Equal,
        Ordering::Greater => Ordering::Less,
    }
}

/// Lexicographic comparison of rank sequences; where one sequence is a
/// proper prefix of the other, the shorter one is the lesser.
pub open spec fn seq_cmp(a: Seq<int>, b: Seq<int>) -> Ordering
    decreases a.len(),
{
    if a.len() == 0 && b.len() == 0 {
        Ordering::Equal
    } else if a.len() == 0 {
        Ordering::Less
    } else if b.len() == 0 {
        Ordering::Greater
    } else if a[0] != b[0] {
        int_cmp(a[0], b[0])
    } else {
        seq_cmp(a.drop_first(), b.drop_first())
    }
}

pub open spec fn ranks_of(s: Seq<u8>) -> Seq<int> {
    s.map_values(|r: u8| r as int)
}

/// The tie-break fields of a hand, flattened in the order they are compared.
/// The number of pair ranks comes first for `Pairs`, so that two pairs beat
/// one pair; suits are left out everywhere.
pub open spec fn tiebreak(h: Hand) -> Seq<int> {
    match h {
        Hand::HighCard { ranks } => ranks_of(ranks@),
        Hand::Pairs { pairs, kickers } => seq![pairs@.len() as int] + ranks_of(pairs@) + ranks_of(
            kickers@,
        ),
        Hand::Trips { rank, kickers } => seq![rank as int] + ranks_of(kickers@),
        Hand::Straight { top } => seq![top as int],
        Hand::Flush { ranks, suit } => ranks_of(ranks@),
        Hand::FullHouse { trips, pair } => seq![trips as int, pair as int],
        Hand::Quads { rank, kicker } => seq![rank as int, kicker as int],
        Hand::StraightFlush { top, suit } => seq![top as int],
    }
}

/// The full comparison key of a hand: its category, then its tie-breaks.
pub open spec fn key(h: Hand) -> Seq<int> {
    seq![category(h)] + tiebreak(h)
}

/// The total order on hands: category precedence first, tie-break fields
/// second, both read from the comparison key.
pub open spec fn hand_cmp(a: Hand, b: Hand) -> Ordering {
    ord_chain(int_cmp(category(a), category(b)), tie_cmp(a, b))
}

/// Tie-break comparison between two hands of the same category. For hands
/// of different categories the result is immaterial: `hand_cmp` has already
/// decided on the category.
pub open spec fn tie_cmp(a: Hand, b: Hand) -> Ordering {
    match (a, b) {
        (Hand::HighCard { ranks: x }, Hand::HighCard { ranks: y }) => seq_cmp(
            ranks_of(x@),
            ranks_of(y@),
        ),
        (
            Hand::Pairs { pairs: p1, kickers: k1 },
            Hand::Pairs { pairs: p2, kickers: k2 },
        ) => ord_chain(
            int_cmp(p1@.len() as int, p2@.len() as int),
            ord_chain(seq_cmp(ranks_of(p1@), ranks_of(p2@)), seq_cmp(ranks_of(k1@), ranks_of(k2@))),
        ),
        (Hand::Trips { rank: r1, kickers: k1 }, Hand::Trips { rank: r2, kickers: k2 }) => ord_chain(
            int_cmp(r1 as int, r2 as int),
            seq_cmp(ranks_of(k1@), ranks_of(k2@)),
        ),
        (Hand::Straight { top: t1 }, Hand::Straight { top: t2 }) => int_cmp(t1 as int, t2 as int),
        (Hand::Flush { ranks: x, suit: _ }, Hand::Flush { ranks: y, suit: _ }) => seq_cmp(
            ranks_of(x@),
            ranks_of(y@),
        ),
        (
            Hand::FullHouse { trips: s1, pair: q1 },
            Hand::FullHouse { trips: s2, pair: q2 },
        ) => ord_chain(int_cmp(s1 as int, s2 as int), int_cmp(q1 as int, q2 as int)),
        (Hand::Quads { rank: r1, kicker: c1 }, Hand::Quads { rank: r2, kicker: c2 }) => ord_chain(
            int_cmp(r1 as int, r2 as int),
            int_cmp(c1 as int, c2 as int),
        ),
        (Hand::StraightFlush { top: t1, suit: _ }, Hand::StraightFlush { top: t2, suit: _ }) => int_cmp(
            t1 as int,
            t2 as int,
        ),
        _ => Ordering::Equal,
    }
}

/// Hand equality: identical category and tie-break fields. Suit identity is
/// no part of it.
pub open spec fn hand_eq(a: Hand, b: Hand) -> bool {
    hand_cmp(a, b) == Ordering::Equal
}

impl Hand {
    pub fn highcard(cards: &[u8; 5]) -> (r: Self)
        ensures
            r == (Hand::HighCard { ranks: *cards }),
    {
        Hand::HighCard { ranks: *cards }
    }

    pub fn pairs(pairs: Vec<u8>, kickers: Vec<u8>) -> (r: Self)
        ensures
            r == (Hand::Pairs { pairs, kickers }),
    {
        Hand::Pairs { pairs, kickers }
    }

    pub fn set(rank: u8, kickers: &[u8; 2]) -> (r: Self)
        ensures
            r == (Hand::Trips { rank, kickers: *kickers }),
    {
        Hand::Trips { rank, kickers: *kickers }
    }

    pub fn straight(top: u8) -> (r: Self)
        ensures
            r == (Hand::Straight { top }),
    {
        Hand::Straight { top }
    }

    pub fn flush(cards: &[u8; 5], suit: u8) -> (r: Self)
        ensures
            r == (Hand::Flush { ranks: *cards, suit }),
    {
        Hand::Flush { ranks: *cards, suit }
    }

    pub fn fullhouse(trips: u8, pair: u8) -> (r: Self)
        ensures
            r == (Hand::FullHouse { trips, pair }),
    {
        Hand::FullHouse { trips, pair }
    }

    pub fn quads(rank: u8, kicker: u8) -> (r: Self)
        ensures
            r == (Hand::Quads { rank, kicker }),
    {
        Hand::Quads { rank, kicker }
    }

    pub fn straightflush(top: u8, suit: u8) -> (r: Self)
        ensures
            r == (Hand::StraightFlush { top, suit }),
    {
        Hand::StraightFlush { top, suit }
    }

    pub fn category_index(&self) -> (c: u8)
        ensures
            c as int == category(*self),
    {
        match self {
            Hand::HighCard { .. } => 0,
            Hand::Pairs { .. } => 1,
            Hand::Trips { .. } => 2,
            Hand::Straight { .. } => 3,
            Hand::Flush { .. } => 4,
            Hand::FullHouse { .. } => 5,
            Hand::Quads { .. } => 6,
            Hand::StraightFlush { .. } => 7,
        }
    }
}

fn cmp_u8(a: u8, b: u8) -> (r: Ordering)
    ensures
        r == int_cmp(a as int, b as int),
{
    if a < b {
        Ordering::Less
    } else if a == b {
        Ordering::Equal
    } else {
        Ordering::Greater
    }
}

/// Rewrites a comparison of two sequences to start at their first possible
/// difference.
proof fn lemma_seq_cmp_skip(a: Seq<int>, b: Seq<int>, i: int)
    requires
        0 <= i <= a.len(),
        i <= b.len(),
        forall|j: int| 0 <= j < i ==> a[j] == b[j],
    ensures
        seq_cmp(a, b) == seq_cmp(a.skip(i), b.skip(i)),
    decreases i,
{
    if i == 0 {
        assert(a.skip(0) =~= a);
        assert(b.skip(0) =~= b);
    } else {
        assert(a[0] == b[0]);
        let a1 = a.drop_first();
        let b1 = b.drop_first();
        assert(forall|j: int| 0 <= j < i - 1 ==> a1[j] == b1[j]);
        lemma_seq_cmp_skip(a1, b1, i - 1);
        assert(a1.skip(i - 1) =~= a.skip(i));
        assert(b1.skip(i - 1) =~= b.skip(i));
    }
}

/// Compares rank slices lexicographically, the shorter counting as the
/// lesser where one is a prefix of the other.
fn cmp_ranks(a: &[u8], b: &[u8]) -> (r: Ordering)
    ensures
        r == seq_cmp(ranks_of(a@), ranks_of(b@)),
{
    let ghost ga = ranks_of(a@);
    let ghost gb = ranks_of(b@);
    let n = if a.len() < b.len() {
        a.len()
    } else {
        b.len()
    };
    let mut i: usize = 0;
    while i < n
        invariant
            n <= a@.len(),
            n <= b@.len(),
            n == if a@.len() < b@.len() {
                a@.len()
            } else {
                b@.len()
            },
            i <= n,
            ga == ranks_of(a@),
            gb == ranks_of(b@),
            forall|j: int| 0 <= j < i ==> ga[j] == gb[j],
        decreases n - i,
    {
        let x = a[i];
        let y = b[i];
        if x != y {
            proof {
                lemma_seq_cmp_skip(ga, gb, i as int);
            }
            if x < y {
                return Ordering::Less;
            } else {
                return Ordering::Greater;
            }
        }
        i = i + 1;
    }
    proof {
        lemma_seq_cmp_skip(ga, gb, n as int);
    }
    if a.len() < b.len() {
        Ordering::Less
    } else if a.len() == b.len() {
        Ordering::Equal
    } else {
        Ordering::Greater
    }
}

fn cmp_len(a: usize, b: usize) -> (r: Ordering)
    ensures
        r == int_cmp(a as int, b as int),
{
    if a < b {
        Ordering::Less
    } else if a == b {
        Ordering::Equal
    } else {
        Ordering::Greater
    }
}

impl Hand {
    /// The total order of the ranking model: category precedence descending
    /// from straight flush to high card, then the category's tie-break rule.
    pub fn cmp_hand(&self, other: &Hand) -> (r: Ordering)
        ensures
            r == hand_cmp(*self, *other),
    {
        let ca = self.category_index();
        let cb = other.category_index();
        if ca < cb {
            return Ordering::Less;
        }
        if ca > cb {
            return Ordering::Greater;
        }
        match (self, other) {
            (Hand::HighCard { ranks: x }, Hand::HighCard { ranks: y }) => cmp_ranks(
                x.as_slice(),
                y.as_slice(),
            ),
            (
                Hand::Pairs { pairs: p1, kickers: k1 },
                Hand::Pairs { pairs: p2, kickers: k2 },
            ) => {
                let c = cmp_len(p1.len(), p2.len());
                if !matches!(c, Ordering::Equal) {
                    return c;
                }
                let c = cmp_ranks(p1.as_slice(), p2.as_slice());
                if !matches!(c, Ordering::Equal) {
                    return c;
                }
                cmp_ranks(k1.as_slice(), k2.as_slice())
            },
            (Hand::Trips { rank: r1, kickers: k1 }, Hand::Trips { rank: r2, kickers: k2 }) => {
                let c = cmp_u8(*r1, *r2);
                if !matches!(c, Ordering::Equal) {
                    return c;
                }
                cmp_ranks(k1.as_slice(), k2.as_slice())
            },
            (Hand::Straight { top: t1 }, Hand::Straight { top: t2 }) => cmp_u8(*t1, *t2),
            (Hand::Flush { ranks: x, .. }, Hand::Flush { ranks: y, .. }) => cmp_ranks(
                x.as_slice(),
                y.as_slice(),
            ),
            (
                Hand::FullHouse { trips: s1, pair: q1 },
                Hand::FullHouse { trips: s2, pair: q2 },
            ) => {
                let c = cmp_u8(*s1, *s2);
                if !matches!(c, Ordering::Equal) {
                    return c;
                }
                cmp_u8(*q1, *q2)
            },
            (Hand::Quads { rank: r1, kicker: c1 }, Hand::Quads { rank: r2, kicker: c2 }) => {
                let c = cmp_u8(*r1, *r2);
                if !matches!(c, Ordering::Equal) {
                    return c;
                }
                cmp_u8(*c1, *c2)
            },
            (Hand::StraightFlush { top: t1, .. }, Hand::StraightFlush { top: t2, .. }) => cmp_u8(
                *t1,
                *t2,
            ),
            _ => {
                proof {
                    assert(false);
                }
                Ordering::Equal
            },
        }
    }
}

pub proof fn lemma_seq_cmp_refl(a: Seq<int>)
    ensures
        seq_cmp(a, a) == Ordering::Equal,
    decreases a.len(),
{
    if a.len() > 0 {
        lemma_seq_cmp_refl(a.drop_first());
    }
}

pub proof fn lemma_seq_cmp_eq(a: Seq<int>, b: Seq<int>)
    ensures
        (seq_cmp(a, b) == Ordering::Equal) <==> (a == b),
    decreases a.len(),
{
    if a.len() == 0 || b.len() == 0 {
        if a.len() == 0 && b.len() == 0 {
            assert(a =~= b);
        }
    } else if a[0] == b[0] {
        let a1 = a.drop_first();
        let b1 = b.drop_first();
        lemma_seq_cmp_eq(a1, b1);
        if seq_cmp(a, b) == Ordering::Equal {
            assert(a.len() == b.len());
            assert forall|i: int| 0 <= i < a.len() implies a[i] == b[i] by {
                if i > 0 {
                    assert(a[i] == a1[i - 1]);
                    assert(b[i] == b1[i - 1]);
                }
            }
            assert(a =~= b);
        } else {
            if a == b {
                assert(a.drop_first() =~= b.drop_first());
            }
        }
    } else {
        assert(a != b) by {
            assert(a[0] != b[0]);
        }
    }
}

pub proof fn lemma_seq_cmp_reverse(a: Seq<int>, b: Seq<int>)
    ensures
        seq_cmp(b, a) == ord_reverse(seq_cmp(a, b)),
    decreases a.len(),
{
    if a.len() > 0 && b.len() > 0 && a[0] == b[0] {
        lemma_seq_cmp_reverse(a.drop_first(), b.drop_first());
    }
}

pub proof fn lemma_seq_cmp_trans(a: Seq<int>, b: Seq<int>, c: Seq<int>)
    requires
        seq_cmp(a, b) == Ordering::Less,
        seq_cmp(b, c) == Ordering::Less,
    ensures
        seq_cmp(a, c) == Ordering::Less,
    decreases a.len(),
{
    if a.len() == 0 {
        assert(c.len() > 0);
    } else {
        assert(b.len() > 0);
        assert(c.len() > 0);
        if a[0] == b[0] && b[0] == c[0] {
            lemma_seq_cmp_trans(a.drop_first(), b.drop_first(), c.drop_first());
        }
    }
}

/// Peels the leading element off a lexicographic comparison.
proof fn lemma_seq_cmp_cons(x: int, y: int, s: Seq<int>, t: Seq<int>)
    ensures
        seq_cmp(seq![x] + s, seq![y] + t) == ord_chain(int_cmp(x, y), seq_cmp(s, t)),
{
    let a = seq![x] + s;
    let b = seq![y] + t;
    assert(a[0] == x);
    assert(b[0] == y);
    if x == y {
        assert(a.drop_first() =~= s);
        assert(b.drop_first() =~= t);
    }
}

/// Comparing concatenations whose left parts have one length splits into
/// comparing the parts in turn.
proof fn lemma_seq_cmp_concat(a1: Seq<int>, b1: Seq<int>, a2: Seq<int>, b2: Seq<int>)
    requires
        a1.len() == a2.len(),
    ensures
        seq_cmp(a1 + b1, a2 + b2) == ord_chain(seq_cmp(a1, a2), seq_cmp(b1, b2)),
    decreases a1.len(),
{
    if a1.len() == 0 {
        assert(a1 + b1 =~= b1);
        assert(a2 + b2 =~= b2);
    } else {
        let u = a1 + b1;
        let v = a2 + b2;
        assert(u[0] == a1[0]);
        assert(v[0] == a2[0]);
        if a1[0] == a2[0] {
            assert(u.drop_first() =~= a1.drop_first() + b1);
            assert(v.drop_first() =~= a2.drop_first() + b2);
            lemma_seq_cmp_concat(a1.drop_first(), b1, a2.drop_first(), b2);
        }
    }
}

/// The structural comparison agrees with a plain lexicographic comparison of
/// the two hands' keys.
pub proof fn lemma_hand_cmp_key(a: Hand, b: Hand)
    ensures
        hand_cmp(a, b) == seq_cmp(key(a), key(b)),
{
    lemma_seq_cmp_cons(category(a), category(b), tiebreak(a), tiebreak(b));
    if category(a) == category(b) {
        match (a, b) {
            (Hand::HighCard { ranks: x }, Hand::HighCard { ranks: y }) => {
            },
            (Hand::Pairs { pairs: p1, kickers: k1 }, Hand::Pairs { pairs: p2, kickers: k2 }) => {
                let la = p1@.len() as int;
                let lb = p2@.len() as int;
                assert(tiebreak(a) =~= seq![la] + (ranks_of(p1@) + ranks_of(k1@)));
                assert(tiebreak(b) =~= seq![lb] + (ranks_of(p2@) + ranks_of(k2@)));
                lemma_seq_cmp_cons(
                    la,
                    lb,
                    ranks_of(p1@) + ranks_of(k1@),
                    ranks_of(p2@) + ranks_of(k2@),
                );
                if la == lb {
                    lemma_seq_cmp_concat(ranks_of(p1@), ranks_of(k1@), ranks_of(p2@), ranks_of(k2@));
                }
            },
            (Hand::Trips { rank: r1, kickers: k1 }, Hand::Trips { rank: r2, kickers: k2 }) => {
                lemma_seq_cmp_cons(r1 as int, r2 as int, ranks_of(k1@), ranks_of(k2@));
            },
            (Hand::Straight { top: t1 }, Hand::Straight { top: t2 }) => {
                assert(tiebreak(a) =~= seq![t1 as int] + Seq::<int>::empty());
                assert(tiebreak(b) =~= seq![t2 as int] + Seq::<int>::empty());
                lemma_seq_cmp_cons(t1 as int, t2 as int, Seq::empty(), Seq::empty());
            },
            (Hand::Flush { ranks: x, .. }, Hand::Flush { ranks: y, .. }) => {
            },
            (Hand::FullHouse { trips: s1, pair: q1 }, Hand::FullHouse { trips: s2, pair: q2 }) => {
                lemma_hand_cmp_key_two(s1 as int, q1 as int, s2 as int, q2 as int);
            },
            (Hand::Quads { rank: r1, kicker: c1 }, Hand::Quads { rank: r2, kicker: c2 }) => {
                lemma_hand_cmp_key_two(r1 as int, c1 as int, r2 as int, c2 as int);
            },
            (Hand::StraightFlush { top: t1, .. }, Hand::StraightFlush { top: t2, .. }) => {
                assert(tiebreak(a) =~= seq![t1 as int] + Seq::<int>::empty());
                assert(tiebreak(b) =~= seq![t2 as int] + Seq::<int>::empty());
                lemma_seq_cmp_cons(t1 as int, t2 as int, Seq::empty(), Seq::empty());
            },
            _ => {
                assert(false);
            },
        }
    }
}

/// Two-field tie-breaks compare as chained single comparisons.
pub proof fn lemma_hand_cmp_key_two(x1: int, x2: int, y1: int, y2: int)
    ensures
        seq_cmp(seq![x1, x2], seq![y1, y2]) == ord_chain(int_cmp(x1, y1), int_cmp(x2, y2)),
{
    assert(seq![x1, x2] =~= seq![x1] + (seq![x2] + Seq::<int>::empty()));
    assert(seq![y1, y2] =~= seq![y1] + (seq![y2] + Seq::<int>::empty()));
    lemma_seq_cmp_cons(x2, y2, Seq::empty(), Seq::empty());
    lemma_seq_cmp_cons(x1, y1, seq![x2] + Seq::<int>::empty(), seq![y2] + Seq::<int>::empty());
}

/// Comparing one hand with itself ties: the order is reflexive in its
/// equality.
pub proof fn lemma_hand_cmp_refl(a: Hand)
    ensures
        hand_cmp(a, a) == Ordering::Equal,
{
    lemma_hand_cmp_key(a, a);
    lemma_seq_cmp_refl(key(a));
}

/// Swapping the operands reverses the comparison, so of `<`, `==` and `>`
/// exactly one relates any two hands.
pub proof fn lemma_hand_cmp_reverse(a: Hand, b: Hand)
    ensures
        hand_cmp(b, a) == ord_reverse(hand_cmp(a, b)),
{
    lemma_hand_cmp_key(a, b);
    lemma_hand_cmp_key(b, a);
    lemma_seq_cmp_reverse(key(a), key(b));
}

/// Two hands tie exactly where their comparison keys coincide, category and
/// tie-break fields alike.
pub proof fn lemma_hand_eq_is_key_eq(a: Hand, b: Hand)
    ensures
        hand_eq(a, b) <==> key(a) == key(b),
{
    lemma_hand_cmp_key(a, b);
    lemma_seq_cmp_eq(key(a), key(b));
}

/// The strict order is transitive.
pub proof fn lemma_hand_cmp_trans(a: Hand, b: Hand, c: Hand)
    requires
        hand_cmp(a, b) == Ordering::Less,
        hand_cmp(b, c) == Ordering::Less,
    ensures
        hand_cmp(a, c) == Ordering::Less,
{
    lemma_hand_cmp_key(a, b);
    lemma_hand_cmp_key(b, c);
    lemma_hand_cmp_key(a, c);
    lemma_seq_cmp_trans(key(a), key(b), key(c));
}

/// A hand that ties with another compares against any third hand just as
/// the other does.
pub proof fn lemma_hand_cmp_equal_left(a: Hand, b: Hand, c: Hand)
    requires
        hand_cmp(a, b) == Ordering::Equal,
    ensures
        hand_cmp(a, c) == hand_cmp(b, c),
{
    lemma_hand_eq_is_key_eq(a, b);
    lemma_hand_cmp_key(a, c);
    lemma_hand_cmp_key(b, c);
}

/// Category precedence dominates the tie-break fields: a hand of a higher
/// category beats every hand of a lower one, whatever values they carry.
pub proof fn lemma_category_dominates(a: Hand, b: Hand)
    requires
        category(a) > category(b),
    ensures
        hand_cmp(a, b) == Ordering::Greater,
{
}

impl PartialEq for Hand {
    fn eq(&self, other: &Hand) -> (r: bool) {
        matches!(self.cmp_hand(other), Ordering::Equal)
    }
}

impl vstd::std_specs::cmp::PartialEqSpecImpl for Hand {
    open spec fn obeys_eq_spec() -> bool {
        true
    }

    open spec fn eq_spec(&self, other: &Hand) -> bool {
        hand_eq(*self, *other)
    }
}

impl PartialOrd for Hand {
    fn partial_cmp(&self, other: &Hand) -> (r: Option<Ordering>) {
        Some(self.cmp_hand(other))
    }
}

impl vstd::std_specs::cmp::PartialOrdSpecImpl for Hand {
    open spec fn obeys_partial_cmp_spec() -> bool {
        true
    }

    open spec fn partial_cmp_spec(&self, other: &Hand) -> Option<Ordering> {
        Some(hand_cmp(*self, *other))
    }
}

} // verus!
