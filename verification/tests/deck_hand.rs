use itertools::Itertools;

use schotten::components::Card;
use schotten::deck::Deck;
use schotten::hand::Hand;

fn deck_cards(deck: &Deck) -> Vec<Card> {
    let mut out = Vec::new();
    for i in 0..deck.len() {
        out.push(*deck.get(i));
    }
    out
}

#[test]
fn deck_new() {
    let deck = Deck::new();
    let contents = deck_cards(&deck);

    let all_cards = (1..=9)
        .cartesian_product(1..=6)
        .map(|(num, color)| Card::build(num, color));

    for card in all_cards {
        assert!(contents.contains(&card));
    }

    assert_eq!(deck.len(), 54);
}

#[test]
fn deck_new_shuffled() {
    // Has a tiny chance of a false positive: two independent shuffles of
    // 54 cards coinciding.
    assert_ne!(deck_cards(&Deck::new()), deck_cards(&Deck::new()));
}

#[test]
fn deck_draw() {
    let mut deck = Deck::new();

    for _ in 0..54 {
        assert!(deck.draw().is_some());
    }
    assert!(deck.draw().is_none());
}

#[test]
fn hand_add_remove() {
    let mut hand = Hand::new();
    assert_eq!(hand.len(), 0);

    hand.add(Card::build(1, 3));
    hand.add(Card::build(5, 1));
    hand.add(Card::build(8, 6));
    assert_eq!(hand.len(), 3);
    assert_eq!(*hand.get(1), Card::build(5, 1));

    // Removal swaps the last card into the hole.
    let removed = hand.remove(0);
    assert_eq!(removed, Card::build(1, 3));
    assert_eq!(hand.len(), 2);
    assert_eq!(*hand.get(0), Card::build(8, 6));
}
