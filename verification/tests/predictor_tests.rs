use poker_equity::deck::to_deck;
use poker_equity::predictor::{
    calculate_combination_num, compare_player_hands, find_all_combinations, predict, DealError,
};

#[test]
fn test_n50_k5() {
    let combinations: Vec<u64> = find_all_combinations(0b110, 5).unwrap();
    assert_eq!(combinations.len() as u64, calculate_combination_num(52 - 2, 5));
}

#[test]
fn test_n46_k1() {
    let combinations = find_all_combinations(0b1111110, 1).unwrap();
    assert_eq!(combinations.len() as u64, calculate_combination_num(52 - 6, 1));
}

#[test]
fn test_empty_deck() {
    // Every card is dealt: one more cannot be drawn.
    let r = find_all_combinations(0xfffffffffffff, 1);
    assert_eq!(r, Err(DealError::InsufficientCards));
}

#[test]
fn test_overflown_deck() {
    // The seed claims more cards than the deck holds.
    let r = find_all_combinations(0x1fffffffffffff, 0);
    assert_eq!(r, Err(DealError::SeedOverflow));
}

#[test]
fn enumerator_yields_distinct_boards() {
    // A two-card seed leaves C(50, 5) = 2,118,760 distinct boards, each of
    // exactly five cards, none reusing a seed bit.
    let seed: u64 = 0b110;
    let combinations = find_all_combinations(seed, 5).unwrap();
    assert_eq!(combinations.len(), 2_118_760);
    assert_eq!(combinations.len() as u64, calculate_combination_num(50, 5));
    let mut seen = std::collections::HashSet::with_capacity(combinations.len());
    for c in &combinations {
        assert_eq!(c & seed, 0);
        assert_eq!(c.count_ones(), 5);
        assert!(seen.insert(*c));
    }
}

#[test]
fn duplicate_card_fails_fast() {
    // Two players share the ace of clubs: validation fails before any
    // combination is enumerated.
    let players = vec![to_deck(&["Ac", "Kd"]), to_deck(&["Ac", "Qh"])];
    assert_eq!(predict(&players), Err(DealError::DuplicateCard));
}

#[test]
#[allow(non_snake_case)]
fn test_AKsuited_vs_72suited() {
    let players = vec![0b100001u64, 0b1100000000000u64];
    let combinations = find_all_combinations(players[0] + players[1], 5).unwrap();
    assert_eq!(combinations.len() as u64, calculate_combination_num(48, 5));
    let counts = compare_player_hands(&players, &combinations);
    let odds: Vec<f32> =
        counts.iter().map(|c| *c as f32 / combinations.len() as f32).collect();
    let tie_odds = 1f32 - odds[0] - odds[1];
    // Exact enumeration over all 1,712,304 boards: 10,542 of them tie.
    assert_eq!((tie_odds * 100000f32).trunc() as i32, 615);
}

#[test]
fn test_6_way_hand() {
    let players = vec![
        to_deck(&["Ac", "Ad"]),
        to_deck(&["7d", "2c"]),
        to_deck(&["7c", "2d"]),
        to_deck(&["8c", "2h"]),
        to_deck(&["Ks", "Qs"]),
        to_deck(&["Th", "9s"]),
    ];
    let (counts, total) = predict(&players).unwrap();
    let odds: Vec<f32> = counts.iter().map(|c| *c as f32 / total as f32).collect();
    // Exact enumeration over all 658,008 boards: the pocket aces win
    // 369,624 of them outright and 27,683 end in a tie.
    assert_eq!((odds[0] * 10000f32).trunc() as i32, 5617);
    assert_eq!((odds[1..].iter().sum::<f32>() * 10000f32).trunc() as i32, 3961);
    assert_eq!(((1f32 - odds.iter().sum::<f32>()) * 10000f32).trunc() as i32, 420);
}

#[test]
fn six_way_probabilities_account_for_every_board() {
    // Winner, opponents and ties sum to one within floating tolerance.
    let players = vec![
        to_deck(&["Ac", "Ad"]),
        to_deck(&["7d", "2c"]),
        to_deck(&["7c", "2d"]),
        to_deck(&["8c", "2h"]),
        to_deck(&["Ks", "Qs"]),
        to_deck(&["Th", "9s"]),
    ];
    let (counts, total) = predict(&players).unwrap();
    let odds: Vec<f32> = counts.iter().map(|c| *c as f32 / total as f32).collect();
    let tie = 1f32 - odds.iter().sum::<f32>();
    let whole = odds[0] + odds[1..].iter().sum::<f32>() + tie;
    assert!((whole - 1f32).abs() < 1e-6);
    assert!(odds.iter().all(|p| *p >= 0f32));
    assert!(tie >= 0f32);
}

#[test]
fn binomial_matches_known_values() {
    assert_eq!(calculate_combination_num(50, 5), 2_118_760);
    assert_eq!(calculate_combination_num(52, 5), 2_598_960);
    assert_eq!(calculate_combination_num(48, 5), 1_712_304);
    assert_eq!(calculate_combination_num(46, 1), 46);
    assert_eq!(calculate_combination_num(52, 0), 1);
    assert_eq!(calculate_combination_num(52, 52), 1);
}

#[test]
fn too_many_players_exhaust_the_deck() {
    // Twenty-four two-card players deal 48 cards: four undealt cards cannot
    // fill a five-card board.
    let players: Vec<u64> = (0..24).map(|i| 0b11u64 << (2 * i)).collect();
    assert_eq!(predict(&players), Err(DealError::InsufficientCards));
}
