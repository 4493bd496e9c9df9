use schotten::board::CardsOnBoard;
use schotten::components::{Card, Player, Stone};

#[test]
fn test_less_than_three() {
    let mut board = CardsOnBoard::new();

    // second stone
    board.place_card(Player::build(1), Stone::build(1), Card::build(1, 1));

    // third stone
    board.place_card(Player::build(1), Stone::build(2), Card::build(1, 2));
    board.place_card(Player::build(1), Stone::build(2), Card::build(1, 3));

    // forth stone
    board.place_card(Player::build(0), Stone::build(3), Card::build(1, 4));

    // fifth stone
    board.place_card(Player::build(0), Stone::build(4), Card::build(1, 5));
    board.place_card(Player::build(1), Stone::build(4), Card::build(1, 6));

    // sixth stone
    board.place_card(Player::build(0), Stone::build(5), Card::build(2, 1));
    board.place_card(Player::build(1), Stone::build(5), Card::build(2, 2));
    board.place_card(Player::build(1), Stone::build(5), Card::build(2, 3));

    // seventh stone
    board.place_card(Player::build(0), Stone::build(6), Card::build(2, 4));
    board.place_card(Player::build(0), Stone::build(6), Card::build(2, 5));

    // eighth stone
    board.place_card(Player::build(0), Stone::build(7), Card::build(2, 6));
    board.place_card(Player::build(0), Stone::build(7), Card::build(3, 1));
    board.place_card(Player::build(1), Stone::build(7), Card::build(3, 2));

    // ninth stone
    board.place_card(Player::build(0), Stone::build(8), Card::build(3, 3));
    board.place_card(Player::build(0), Stone::build(8), Card::build(3, 4));
    board.place_card(Player::build(1), Stone::build(8), Card::build(3, 5));
    board.place_card(Player::build(1), Stone::build(8), Card::build(3, 6));

    for player in (0..2).map(|p| Player::build(p)) {
        for stone in (0..9).map(|s| Stone::build(s)) {
            assert!(!board.proto_is_legal_claim(player, stone));
        }
    }
}

#[test]
fn test_789_color_run() {
    let mut board = CardsOnBoard::new();

    board.place_card(Player::build(0), Stone::build(0), Card::build(7, 1));
    board.place_card(Player::build(0), Stone::build(0), Card::build(8, 1));
    board.place_card(Player::build(0), Stone::build(0), Card::build(9, 1));

    assert!(board.proto_is_legal_claim(Player::build(0), Stone::build(0)));
}

#[test]
fn test_123_color_run() {
    let player = Player::build(1);
    let stone = Stone::build(1);

    let tmp_fn = || {
        let mut board = CardsOnBoard::new();

        board.place_card(player, stone, Card::build(1, 2));
        board.place_card(player, stone, Card::build(2, 2));
        board.place_card(player, stone, Card::build(3, 2));

        board
    };

    let mut board = tmp_fn();

    board.place_card(player.get_other(), stone, Card::build(1, 6));

    assert!(board.proto_is_legal_claim(player, stone), "Mini Test 1");

    board = tmp_fn();

    board.place_card(player.get_other(), stone, Card::build(2, 6));

    assert!(!board.proto_is_legal_claim(player, stone), "Mini Test 2");

    board = tmp_fn();

    board.place_card(player.get_other(), stone, Card::build(7, 5));
    board.place_card(player.get_other(), stone, Card::build(8, 5));

    let stone2 = Stone::build(5);

    board.place_card(player, stone2, Card::build(9, 1));
    board.place_card(player, stone2, Card::build(9, 2));
    board.place_card(player, stone2, Card::build(9, 3));
    board.place_card(player.get_other(), stone2, Card::build(9, 4));
    board.place_card(player.get_other(), stone2, Card::build(9, 5));
    board.place_card(player.get_other(), stone2, Card::build(9, 6));

    let stone2 = Stone::build(6);

    board.place_card(player, stone2, Card::build(6, 1));
    board.place_card(player, stone2, Card::build(6, 2));
    board.place_card(player, stone2, Card::build(6, 3));
    board.place_card(player.get_other(), stone2, Card::build(6, 4));
    board.place_card(player.get_other(), stone2, Card::build(6, 5));
    board.place_card(player.get_other(), stone2, Card::build(6, 6));

    assert!(board.proto_is_legal_claim(player, stone), "Mini Test 3");
}

#[test]
fn test_999() {
    let player = Player::build(0);
    let stone = Stone::build(2);

    let mut board = CardsOnBoard::new();

    board.place_card(player.get_other(), stone, Card::build(1, 6));
    board.place_card(player, stone, Card::build(9, 1));
    board.place_card(player, stone, Card::build(9, 4));
    board.place_card(player, stone, Card::build(9, 5));

    assert!(!board.proto_is_legal_claim(player, stone));

    board.place_card(player, Stone::build(6), Card::build(2, 1));
    board.place_card(player, Stone::build(6), Card::build(2, 2));
    board.place_card(player, Stone::build(6), Card::build(2, 3));
    board.place_card(player.get_other(), Stone::build(6), Card::build(2, 4));
    board.place_card(player.get_other(), Stone::build(6), Card::build(2, 5));
    board.place_card(player.get_other(), Stone::build(6), Card::build(2, 6));

    assert!(board.proto_is_legal_claim(player, stone));
}

#[test]
fn test_111() {
    let player = Player::build(1);
    let stone = Stone::build(3);

    let mut board = CardsOnBoard::new();

    board.place_card(player.get_other(), stone, Card::build(1, 6));
    board.place_card(player, stone, Card::build(1, 2));
    board.place_card(player, stone, Card::build(1, 4));
    board.place_card(player, stone, Card::build(1, 5));

    assert!(!board.proto_is_legal_claim(player, stone));

    board.place_card(player, Stone::build(6), Card::build(2, 1));
    board.place_card(player, Stone::build(6), Card::build(2, 2));
    board.place_card(player, Stone::build(6), Card::build(2, 3));
    board.place_card(player.get_other(), Stone::build(6), Card::build(2, 4));
    board.place_card(player.get_other(), Stone::build(6), Card::build(2, 5));
    board.place_card(player.get_other(), Stone::build(6), Card::build(2, 6));

    assert!(board.proto_is_legal_claim(player, stone));

    board = CardsOnBoard::new();

    let stone = Stone::build(1);

    board.place_card(player, stone, Card::build(1, 2));
    board.place_card(player, stone, Card::build(1, 4));
    board.place_card(player, stone, Card::build(1, 5));
    board.place_card(player.get_other(), stone, Card::build(7, 5));
    board.place_card(player.get_other(), stone, Card::build(4, 5));

    assert!(board.proto_is_legal_claim(player, stone));
}

#[test]
fn test_689_color() {
    let player = Player::build(0);
    let stone = Stone::build(4);

    let tmp_fn = || {
        let mut board = CardsOnBoard::new();

        board.place_card(player, stone, Card::build(6, 4));
        board.place_card(player, stone, Card::build(8, 4));
        board.place_card(player, stone, Card::build(9, 4));
        board.place_card(player.get_other(), stone, Card::build(2, 1));

        board
    };

    let mut board = tmp_fn();

    assert!(!board.proto_is_legal_claim(player, stone));

    board.place_card(player.get_other(), stone, Card::build(2, 4));

    assert!(!board.proto_is_legal_claim(player, stone));

    board = tmp_fn();

    board.place_card(player.get_other(), stone, Card::build(3, 1));

    assert!(!board.proto_is_legal_claim(player, stone));

    board = tmp_fn();

    board.place_card(player.get_other(), stone, Card::build(3, 6));

    assert!(board.proto_is_legal_claim(player, stone));

    board = CardsOnBoard::new();

    board.place_card(player, stone, Card::build(6, 4));
    board.place_card(player, stone, Card::build(8, 4));
    board.place_card(player, stone, Card::build(9, 4));

    board.place_card(player.get_other(), stone, Card::build(6, 5));
    board.place_card(player.get_other(), stone, Card::build(9, 5));

    assert!(board.proto_is_legal_claim(player, stone));
}

#[test]
fn test_124_color() {
    let player = Player::build(1);
    let stone = Stone::build(5);
    let other = player.get_other();

    let tmp_fn = || {
        let mut board = CardsOnBoard::new();

        board.place_card(player, stone, Card::build(4, 6));
        board.place_card(player, stone, Card::build(1, 6));
        board.place_card(player, stone, Card::build(2, 6));

        board
    };

    let mut board = tmp_fn();

    board.place_card(other, stone, Card::build(4, 2));
    board.place_card(other, stone, Card::build(1, 2));

    assert!(!board.proto_is_legal_claim(player, stone));

    board = tmp_fn();

    board.place_card(other, stone, Card::build(9, 2));
    board.place_card(other, stone, Card::build(6, 3));

    assert!(board.proto_is_legal_claim(player, stone));

    board = tmp_fn();

    board.place_card(other, stone, Card::build(2, 1));
    board.place_card(other, stone, Card::build(3, 2));

    assert!(board.proto_is_legal_claim(player, stone));
}

#[test]
fn test_123() {
    let player = Player::build(0);
    let stone = Stone::build(6);
    let other = player.get_other();

    let tmp_fn = || {
        let mut board = CardsOnBoard::new();

        board.place_card(player, stone, Card::build(3, 3));
        board.place_card(player, stone, Card::build(1, 3));
        board.place_card(player, stone, Card::build(2, 2));

        board
    };

    let mut board = tmp_fn();

    board.place_card(other, stone, Card::build(1, 6));
    board.place_card(other, stone, Card::build(2, 6));

    assert!(!board.proto_is_legal_claim(player, stone));

    board = tmp_fn();

    board.place_card(other, stone, Card::build(1, 6));
    board.place_card(other, stone, Card::build(2, 5));

    assert!(board.proto_is_legal_claim(player, stone));

    board = tmp_fn();

    board.place_card(other, stone, Card::build(6, 3));
    board.place_card(other, stone, Card::build(9, 3));

    let first_stone = Stone::build(0);

    board.place_card(player, first_stone, Card::build(2, 3));
    board.place_card(player, first_stone, Card::build(4, 3));
    board.place_card(player, first_stone, Card::build(5, 3));
    board.place_card(other, first_stone, Card::build(7, 3));
    board.place_card(other, first_stone, Card::build(8, 3));

    assert!(board.proto_is_legal_claim(player, stone));

    board = tmp_fn();

    board.place_card(other, stone, Card::build(6, 3));
    board.place_card(other, stone, Card::build(9, 4));

    assert!(board.proto_is_legal_claim(player, stone));
}

#[test]
fn test_789() {
    let player = Player::build(1);
    let stone = Stone::build(0);
    let other = player.get_other();

    let mut board = CardsOnBoard::new();

    board.place_card(other, stone, Card::build(6, 2));
    board.place_card(other, stone, Card::build(7, 1));
    board.place_card(player, stone, Card::build(8, 2));
    board.place_card(player, stone, Card::build(7, 4));
    board.place_card(player, stone, Card::build(9, 3));

    assert!(board.proto_is_legal_claim(player, stone));
}

#[test]
fn test_689() {
    let player = Player::build(0);
    let stone = Stone::build(1);
    let other = player.get_other();

    let tmp_fn = || {
        let mut board = CardsOnBoard::new();

        board.place_card(player, stone, Card::build(6, 1));
        board.place_card(player, stone, Card::build(9, 6));
        board.place_card(player, stone, Card::build(8, 1));

        board
    };

    let mut board = tmp_fn();

    board.place_card(other, stone, Card::build(7, 1));
    board.place_card(other, stone, Card::build(8, 5));

    assert!(!board.proto_is_legal_claim(player, stone));

    board = tmp_fn();

    board.place_card(other, stone, Card::build(7, 5));
    board.place_card(other, stone, Card::build(8, 5));

    let last_stone = Stone::build(8);

    board.place_card(player, last_stone, Card::build(9, 1));
    board.place_card(player, last_stone, Card::build(9, 2));

    board.place_card(other, last_stone, Card::build(9, 3));
    board.place_card(other, last_stone, Card::build(9, 4));
    board.place_card(other, last_stone, Card::build(9, 5));

    assert!(!board.proto_is_legal_claim(player, stone));

    let second_to_last_stone = Stone::build(7);

    board.place_card(player, second_to_last_stone, Card::build(6, 2));
    board.place_card(player, second_to_last_stone, Card::build(6, 3));
    board.place_card(player, second_to_last_stone, Card::build(6, 4));

    board.place_card(other, second_to_last_stone, Card::build(6, 5));
    board.place_card(other, second_to_last_stone, Card::build(6, 6));

    assert!(!board.proto_is_legal_claim(player, stone));

    let stone3 = Stone::build(2);

    board.place_card(player, stone3, Card::build(1, 5));
    board.place_card(player, stone3, Card::build(2, 5));
    board.place_card(player, stone3, Card::build(3, 5));

    board.place_card(other, stone3, Card::build(4, 5));
    board.place_card(other, stone3, Card::build(5, 5));

    assert!(board.proto_is_legal_claim(player, stone));
}

#[test]
fn test_899() {
    let player = Player::build(1);
    let stone = Stone::build(2);
    let other = player.get_other();

    let tmp_fn = || {
        let mut board = CardsOnBoard::new();

        board.place_card(player, stone, Card::build(9, 1));
        board.place_card(player, stone, Card::build(9, 6));
        board.place_card(player, stone, Card::build(8, 1));

        board
    };

    let mut board = tmp_fn();

    board.place_card(other, stone, Card::build(9, 2));

    let last_stone = Stone::build(8);

    board.place_card(player, last_stone, Card::build(9, 3));
    board.place_card(player, last_stone, Card::build(9, 4));
    board.place_card(player, last_stone, Card::build(9, 5));

    assert!(!board.proto_is_legal_claim(player, stone));

    board = tmp_fn();

    board.place_card(other, stone, Card::build(9, 2));
    board.place_card(other, stone, Card::build(9, 3));

    board.place_card(player, last_stone, Card::build(9, 4));
    board.place_card(player, last_stone, Card::build(9, 5));

    assert!(board.proto_is_legal_claim(player, stone));
}

/// Regression fixture: a color-run of 1-2-3 (score 66) against an
/// opponent with no known cards, after every eight and nine has been
/// committed elsewhere. The best completion left is a 5-6-7 color-run
/// (score 70), so the claim must be refused.
#[test]
fn test_123_color_run_against_unknown_with_high_cards_gone() {
    let player = Player::build(0);
    let other = player.get_other();
    let stone = Stone::build(0);

    let mut board = CardsOnBoard::new();

    board.place_card(player, stone, Card::build(1, 3));
    board.place_card(player, stone, Card::build(2, 3));
    board.place_card(player, stone, Card::build(3, 3));

    // All nines and eights go to other stones, split between the players;
    // no stone ever holds more than three cards of one side.
    for color in 1..=6u8 {
        board.place_card(other, Stone::build(1 + (color - 1) / 3), Card::build(9, color));
        board.place_card(player, Stone::build(1 + (color - 1) / 3), Card::build(8, color));
    }

    assert!(!board.proto_is_legal_claim(player, stone));

    // Once the sevens are also gone, a 4-5-6 color-run (score 69) still
    // beats 66: the claim stays illegal.
    for color in 1..=6u8 {
        board.place_card(other, Stone::build(3 + (color - 1) / 3), Card::build(7, color));
    }

    assert!(!board.proto_is_legal_claim(player, stone));

    // With the fours, fives and sixes gone too, the best completions are
    // a 1-2-3 color-run tying at 66, which does not beat the claimant,
    // and three-of-a-kinds below it: now the claim is legal.
    for color in 1..=6u8 {
        board.place_card(player, Stone::build(3 + (color - 1) / 3), Card::build(4, color));
        board.place_card(other, Stone::build(5 + (color - 1) / 3), Card::build(5, color));
        board.place_card(player, Stone::build(5 + (color - 1) / 3), Card::build(6, color));
    }

    assert!(board.proto_is_legal_claim(player, stone));
}

/// Revealing more of the opponent's cards never makes a legal claim
/// illegal: the same position, queried with less and then more of the
/// opponent's hand revealed.
#[test]
fn revealing_cards_never_hurts() {
    let player = Player::build(0);
    let other = player.get_other();
    let stone = Stone::build(0);

    let mut board = CardsOnBoard::new();

    // A 7-8-9 color-run can only be tied, never beaten: legal with the
    // opponent's hand empty.
    board.place_card(player, stone, Card::build(7, 2));
    board.place_card(player, stone, Card::build(8, 2));
    board.place_card(player, stone, Card::build(9, 2));
    assert!(board.proto_is_legal_claim(player, stone));

    // Still legal after each reveal of an opposing card there.
    board.place_card(other, stone, Card::build(7, 1));
    assert!(board.proto_is_legal_claim(player, stone));
    board.place_card(other, stone, Card::build(8, 1));
    assert!(board.proto_is_legal_claim(player, stone));
    board.place_card(other, stone, Card::build(9, 1));
    assert!(board.proto_is_legal_claim(player, stone));
}
