use itertools::Itertools;

use schotten::board::CardsOnBoard;
use schotten::components::{Card, Player, Stone};

fn compare(player: Player, vec1: &Vec<Card>, vec2: &Vec<Card>, first_has_advantage: bool) -> bool {
    assert!(vec1.len() == vec2.len());

    let mut board = CardsOnBoard::new();

    let stone = Stone::build(rand::random_range(0..9));

    for i in 0..vec1.len() {
        if first_has_advantage {
            board.place_card(player, stone, vec1[i].clone());
            board.place_card(player.get_other(), stone, vec2[i].clone());
        } else {
            board.place_card(player.get_other(), stone, vec2[i].clone());
            board.place_card(player, stone, vec1[i].clone());
        }
    }

    board.proto_is_legal_claim(player, stone)
}

// Assumes vec1 is stronger than vec2
fn all_options_winning_hands(vec1: &Vec<Card>, vec2: &Vec<Card>) -> bool {
    assert!(vec1.len() == vec2.len());

    let player1 = Player::build(0);

    compare(player1, vec1, vec2, true)
        && compare(player1, vec1, vec2, false)
        && compare(player1.get_other(), vec1, vec2, true)
        && compare(player1.get_other(), vec1, vec2, false)
}

#[test]
fn test_winning_hands() {
    let sum_low = vec![Card::build(1, 1), Card::build(1, 2), Card::build(2, 1)]; // 0
    let sum_high = vec![Card::build(9, 1), Card::build(9, 2), Card::build(8, 2)]; // 1

    let run_low = vec![Card::build(1, 3), Card::build(2, 2), Card::build(3, 2)]; // 2
    let run_high = vec![Card::build(7, 1), Card::build(8, 1), Card::build(9, 3)]; // 3

    let color_low = vec![Card::build(1, 4), Card::build(2, 4), Card::build(4, 4)]; // 4
    let color_high = vec![Card::build(6, 4), Card::build(8, 4), Card::build(9, 4)]; // 5

    // not valid against sum_low
    let three_of_low_v1 = vec![Card::build(1, 5), Card::build(1, 6), Card::build(1, 1)]; // 6
    // not valid against run_low
    let three_of_low_v2 = vec![Card::build(1, 5), Card::build(1, 6), Card::build(1, 3)]; // 7
    // not valid against sum_high
    let three_of_high_v1 = vec![Card::build(9, 5), Card::build(9, 6), Card::build(9, 1)]; // 8
    // not valid against run_high
    let three_of_high_v2 = vec![Card::build(9, 5), Card::build(9, 6), Card::build(9, 3)]; // 9

    // not valid against three_of_low_v1
    let color_run_low_v1 = vec![Card::build(1, 5), Card::build(2, 5), Card::build(3, 5)]; // 10
    // not valid against run_low, three_of_low_v2
    let color_run_low_v2 = vec![Card::build(1, 3), Card::build(2, 3), Card::build(3, 3)]; // 11
    // not valid against three_of_high_v1
    let color_run_high_v1 = vec![Card::build(9, 5), Card::build(8, 5), Card::build(7, 5)]; // 12
    // not valid against color_high
    let color_run_high_v2 = vec![Card::build(9, 4), Card::build(8, 4), Card::build(7, 4)]; // 13

    let mut all_stuff: Vec<Vec<Card>> = Vec::new();

    all_stuff.push(sum_low);
    all_stuff.push(sum_high);
    all_stuff.push(run_low);
    all_stuff.push(run_high);
    all_stuff.push(color_low);
    all_stuff.push(color_high);
    all_stuff.push(three_of_low_v1);
    all_stuff.push(three_of_low_v2);
    all_stuff.push(three_of_high_v1);
    all_stuff.push(three_of_high_v2);
    all_stuff.push(color_run_low_v1);
    all_stuff.push(color_run_low_v2);
    all_stuff.push(color_run_high_v1);
    all_stuff.push(color_run_high_v2);

    let not_forbidden_games = |(i1, i2): (usize, usize)| {
        let tmp = (i1, i2);
        !(i1 <= i2
            || tmp == (6, 1)
            || tmp == (7, 6)
            || tmp == (7, 2)
            || tmp == (8, 1)
            || tmp == (9, 8)
            || tmp == (9, 3)
            || tmp == (10, 6)
            || tmp == (11, 10)
            || tmp == (11, 2)
            || tmp == (11, 7)
            || tmp == (12, 9)
            || tmp == (13, 12)
            || tmp == (13, 5))
    };

    for (i1, i2) in (0..all_stuff.len())
        .cartesian_product(0..all_stuff.len())
        .filter(|item| not_forbidden_games(item.clone()))
    {
        assert!(
            all_options_winning_hands(&all_stuff[i1], &all_stuff[i2]),
            "{:?}\n{:?}",
            &all_stuff[i1],
            &all_stuff[i2]
        );
    }
}

#[test]
fn test_ties() {
    let mut all_cards_vec: Vec<Vec<Card>> = Vec::new();

    let all_cards = || {
        (1..=9)
            .cartesian_product(1..=6)
            .map(|(num, color)| Card::build(num, color))
    };

    for card1 in all_cards() {
        for card2 in all_cards().filter(|card| *card != card1) {
            for card3 in all_cards().filter(|card| *card != card2 && *card != card1) {
                all_cards_vec.push(vec![card1.clone(), card2.clone(), card3]);
            }
        }
    }

    for cards in &all_cards_vec {
        assert!(compare(Player::build(0), cards, cards, true));
        assert!(!compare(Player::build(0), cards, cards, false));
        assert!(compare(Player::build(1), cards, cards, true));
        assert!(!compare(Player::build(1), cards, cards, false));
    }
}
