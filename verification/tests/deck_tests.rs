use poker_equity::deck::{card_from_string, card_to_string, from_deck, get_random_card, to_deck};
use poker_equity::Deck;

#[test]
fn test_card_string_conversions() {
    for val in 0..52u8 {
        let s = card_to_string(val);
        assert_eq!(card_from_string(&s), val);
    }
}

#[test]
fn test_deck_conversions() {
    let d = 0xfffffffffffff as Deck;
    let c = from_deck(d);
    let refs: Vec<&str> = c.iter().map(|s| s.as_str()).collect();
    let d2 = to_deck(&refs);
    assert_eq!(d, d2);
}

#[test]
fn test_random_deck_generation() {
    let mut deck = 0;
    for _ in 0..52 {
        deck += get_random_card(deck);
    }
    assert_eq!(deck, 0xfffffffffffff);
}

#[test]
fn card_codes_match_notation() {
    // suit index times 13 plus rank index: the ace of spades sits at 38.
    assert_eq!(card_from_string("As"), 2 * 13 + 12);
    assert_eq!(card_from_string("2c"), 0);
    assert_eq!(card_from_string("Kd"), 3 * 13 + 11);
    assert_eq!(card_from_string("TH"), 1 * 13 + 8);
    assert_eq!(card_to_string(38), "As");
    assert_eq!(card_to_string(0), "2c");
}

#[test]
fn last_undealt_card_is_drawn() {
    // With a single card undealt the draw is forced: the sampler cannot
    // hand anything else back.
    let missing: u32 = 17;
    let deck: Deck = 0xfffffffffffff & !(1u64 << missing);
    assert_eq!(get_random_card(deck), 1u64 << missing);
}

#[test]
fn from_deck_lists_cards_by_position() {
    let deck: Deck = (1u64 << 0) | (1u64 << 51);
    assert_eq!(from_deck(deck), vec!["2c".to_string(), "Ad".to_string()]);
}
