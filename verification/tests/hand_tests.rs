use poker_equity::Hand;

#[test]
fn compare_highcard_pair() {
    let highcard = Hand::highcard(&[12, 11, 10, 9, 8]);
    let pair = Hand::pairs(vec![2], vec![3, 4, 5]);
    assert!(pair > highcard);
}

#[test]
fn compare_pair_set() {
    let set = Hand::set(2, &[3, 4]);
    let pair = Hand::pairs(vec![13, 12], vec![11]);
    assert!(set > pair);
}

#[test]
fn category_precedence_dominates_tiebreaks() {
    // The lowest quads beat the highest full house, whatever they carry.
    let quads = Hand::quads(0, 1);
    let fullhouse = Hand::fullhouse(12, 11);
    assert!(quads > fullhouse);
    // And the lowest full house beats the highest flush.
    let flush = Hand::flush(&[12, 11, 10, 9, 7], 2);
    assert!(Hand::fullhouse(0, 1) > flush);
}

#[test]
fn ranking_is_total_and_transitive() {
    let a = Hand::highcard(&[8, 6, 4, 2, 0]);
    let b = Hand::pairs(vec![0], vec![3, 2, 1]);
    let c = Hand::straight(5);
    assert!(a < b);
    assert!(b < c);
    assert!(a < c);
    assert!(c > a);
    assert!(!(a < a) && !(a > a));
    assert!(a == a);
}

#[test]
fn suits_do_not_break_ties() {
    // Equal flushes in different suits are equal hands.
    let clubs = Hand::flush(&[12, 10, 8, 6, 4], 0);
    let spades = Hand::flush(&[12, 10, 8, 6, 4], 2);
    assert!(clubs == spades);
    let low = Hand::straightflush(3, 1);
    let high = Hand::straightflush(4, 1);
    assert!(low == Hand::straightflush(3, 3));
    assert!(low < high);
}

#[test]
fn two_pairs_beat_one_pair() {
    let one = Hand::pairs(vec![12], vec![11, 10, 9]);
    let two = Hand::pairs(vec![1, 0], vec![2]);
    assert!(two > one);
}
