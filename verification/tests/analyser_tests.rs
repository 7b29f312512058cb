use poker_equity::analyser::analyse;
use poker_equity::deck::to_deck;
use poker_equity::{Deck, Hand};

#[test]
fn test() {
    let a = Hand::pairs(vec![10], vec![1, 4, 5]);
    let b = Hand::pairs(vec![0, 1], vec![3]);
    assert!(a < b);

    let a = Hand::fullhouse(8, 10);
    let b = Hand::fullhouse(10, 8);
    assert!(a < b);

    assert_eq!(analyse(0b1111111 as Deck), Hand::straightflush(6, 0));
}

#[test]
fn classifies_pair_with_kickers() {
    let deck = to_deck(&["Ad", "Ac", "7d", "8c", "Th", "9s", "3s"]);
    let hand = analyse(deck);
    assert_eq!(hand, Hand::pairs(vec![12], vec![8, 7, 6]));
}

#[test]
fn wheel_is_lowest_straight_flush() {
    // Ace, 2, 3, 4, 5 of hearts: the straight tops at rank 3, below the
    // 6-high straight flush; the ace is not the top card.
    let wheel = to_deck(&["Ah", "2h", "3h", "4h", "5h"]);
    assert_eq!(analyse(wheel), Hand::straightflush(3, 1));
    assert!(analyse(wheel) < Hand::straightflush(4, 1));
    let six_high = to_deck(&["2h", "3h", "4h", "5h", "6h"]);
    assert_eq!(analyse(six_high), Hand::straightflush(4, 1));
    assert!(analyse(wheel) < analyse(six_high));
}

#[test]
fn quads_with_pair_stay_quads() {
    // Four fives plus a pair of deuces and a nine: quads, never a full
    // house, with the nine as kicker.
    let deck = to_deck(&["5c", "5h", "5s", "5d", "2c", "2h", "9c"]);
    assert_eq!(analyse(deck), Hand::quads(3, 7));
}

#[test]
fn classifier_uses_only_present_ranks() {
    // A seven-card set with no made hand: the five highest present ranks.
    let deck = to_deck(&["2c", "4h", "6s", "8d", "Tc", "Qh", "Ad"]);
    let hand = analyse(deck);
    assert_eq!(hand, Hand::highcard(&[12, 10, 8, 6, 4]));
    match hand {
        Hand::HighCard { ranks } => {
            for r in ranks.iter() {
                assert!([0u8, 2, 4, 6, 8, 10, 12].contains(r));
            }
        },
        _ => panic!(),
    }
}

#[test]
fn full_house_picks_highest_triple_then_pair() {
    // Two triples: the higher is the set, the lower serves as the pair.
    let deck = to_deck(&["8c", "8h", "8s", "Tc", "Th", "Ts", "Ad"]);
    assert_eq!(analyse(deck), Hand::fullhouse(8, 6));
}

#[test]
fn pairs_select_best_two_of_three() {
    // Three pairs in seven cards: the best two play, the third rank can
    // only serve as the kicker.
    let deck = to_deck(&["Qc", "Qh", "Js", "Jd", "Tc", "Th", "2s"]);
    assert_eq!(analyse(deck), Hand::pairs(vec![10, 9], vec![8]));
}

#[test]
fn flush_takes_top_five_ranks() {
    let deck = to_deck(&["2s", "5s", "7s", "9s", "Js", "Ks", "Ad"]);
    assert_eq!(analyse(deck), Hand::flush(&[11, 9, 7, 5, 3], 2));
}

#[test]
fn straight_over_merged_suits() {
    let deck = to_deck(&["4c", "5h", "6s", "7d", "8c", "8h", "2s"]);
    assert_eq!(analyse(deck), Hand::straight(6));
}
