use std::cell::RefCell;
use std::rc::Rc;

use schotten::board::CardsOnBoard;
use schotten::claims::Claims;
use schotten::components::{Player, Stone};

fn five_claimed_rec(
    claims: Rc<RefCell<Claims>>,
    player: Player,
    stone: usize,
    count: u8,
    others_streak: u8,
) {
    if stone == 9 {
        let mut board = CardsOnBoard::new();

        board.set_claims(claims.borrow().clone());

        let res = board.terminal_state();

        assert!(res.is_some() && res.unwrap() == player);
    } else if 9 - stone as u8 == count {
        for s in stone as u8..9 {
            claims.borrow_mut().claim(player, Stone::build(s as u8));
        }

        five_claimed_rec(Rc::clone(&claims), player, 9, count, others_streak);

        for s in stone as u8..9 {
            claims.borrow_mut().unclaim(Stone::build(s as u8));
        }
    } else {
        if others_streak < 2 {
            claims.borrow_mut().claim(player.get_other(), Stone::build(stone as u8));

            five_claimed_rec(Rc::clone(&claims), player, stone + 1, count, others_streak + 1);

            claims.borrow_mut().unclaim(Stone::build(stone as u8));
        }

        five_claimed_rec(Rc::clone(&claims), player, stone + 1, count, 0);

        if count > 0 {
            claims.borrow_mut().claim(player, Stone::build(stone as u8));

            five_claimed_rec(Rc::clone(&claims), player, stone + 1, count - 1, 0);

            claims.borrow_mut().unclaim(Stone::build(stone as u8));
        }
    }
}

#[test]
fn test_five_claimed() {
    five_claimed_rec(Rc::new(RefCell::new(Claims::new())), Player::build(0), 0, 5, 0);

    five_claimed_rec(Rc::new(RefCell::new(Claims::new())), Player::build(1), 0, 5, 0);
}

fn three_streak_rec(
    claims: Rc<RefCell<Claims>>,
    player: Player,
    stone: usize,
    player_count: u8,
    player_streak: u8,
    streak_done: bool,
    other_count: u8,
    other_streak: u8,
) {
    let mut tmp_streak_done = streak_done;

    if player_streak == 3 {
        tmp_streak_done = true;
    }

    if stone == 9 {
        let mut board = CardsOnBoard::new();

        board.set_claims(claims.borrow().clone());

        let res = board.terminal_state();

        assert!(
            res.is_some() && res.unwrap() == player,
            "player_count:{player_count} player_streak:{player_streak} {streak_done}"
        );
    } else {
        if (!tmp_streak_done) && ((9 - stone as u8 == 3 - player_streak) || stone == 6) {
            for s in stone..(stone + 3 - player_streak as usize) {
                claims.borrow_mut().claim(player, Stone::build(s as u8));
            }

            three_streak_rec(
                Rc::clone(&claims),
                player,
                9,
                player_count,
                player_streak,
                tmp_streak_done,
                other_count,
                other_streak,
            );

            for s in stone..(stone + 3 - player_streak as usize) {
                claims.borrow_mut().unclaim(Stone::build(s as u8));
            }
        } else {
            three_streak_rec(
                Rc::clone(&claims),
                player,
                stone + 1,
                player_count,
                0,
                tmp_streak_done,
                other_count,
                0,
            );

            if other_count > 0 && other_streak < 2 {
                claims.borrow_mut().claim(player.get_other(), Stone::build(stone as u8));

                three_streak_rec(
                    Rc::clone(&claims),
                    player,
                    stone + 1,
                    player_count,
                    0,
                    tmp_streak_done,
                    other_count - 1,
                    other_streak + 1,
                );

                claims.borrow_mut().unclaim(Stone::build(stone as u8));
            }

            if (!tmp_streak_done) && player_count == 3 - player_streak {
                for i in 0..(3 - player_streak) as usize {
                    claims.borrow_mut().claim(player, Stone::build((stone + i) as u8));
                }

                three_streak_rec(
                    Rc::clone(&claims),
                    player,
                    stone + 3,
                    0,
                    3,
                    true,
                    other_count,
                    0,
                );

                for i in 0..(3 - player_streak) as usize {
                    claims.borrow_mut().unclaim(Stone::build((stone + i) as u8));
                }
            } else if player_count > 0 {
                claims.borrow_mut().claim(player, Stone::build(stone as u8));

                three_streak_rec(
                    Rc::clone(&claims),
                    player,
                    stone + 1,
                    player_count - 1,
                    player_streak + 1,
                    tmp_streak_done,
                    other_count,
                    0,
                );

                claims.borrow_mut().unclaim(Stone::build(stone as u8));
            }
        }
    }
}

#[test]
fn test_three_streak() {
    three_streak_rec(
        Rc::new(RefCell::new(Claims::new())),
        Player::build(0),
        0,
        5,
        0,
        false,
        4,
        0,
    );

    three_streak_rec(
        Rc::new(RefCell::new(Claims::new())),
        Player::build(1),
        0,
        5,
        0,
        false,
        4,
        0,
    );
}

fn not_terminal_rec(
    claims: Rc<RefCell<Claims>>,
    stone: usize,
    p1_streak: u8,
    p1_count: u8,
    p2_streak: u8,
    p2_count: u8,
) {
    if stone == 9 {
        let mut board = CardsOnBoard::new();

        board.set_claims(claims.borrow().clone());

        let res = board.terminal_state();

        assert!(res.is_none());
    } else {
        not_terminal_rec(Rc::clone(&claims), stone + 1, 0, p1_count, 0, p2_count);

        if p1_streak < 2 && p1_streak > 0 {
            claims.borrow_mut().claim(Player::build(0), Stone::build(stone as u8));

            not_terminal_rec(
                Rc::clone(&claims),
                stone + 1,
                p1_streak + 1,
                p1_count - 1,
                0,
                p2_count,
            );

            claims.borrow_mut().unclaim(Stone::build(stone as u8));
        }

        if p2_streak < 2 && p2_streak > 0 {
            claims.borrow_mut().claim(Player::build(1), Stone::build(stone as u8));

            not_terminal_rec(
                Rc::clone(&claims),
                stone + 1,
                0,
                p1_count,
                p2_streak + 1,
                p2_count - 1,
            );

            claims.borrow_mut().unclaim(Stone::build(stone as u8));
        }
    }
}

#[test]
fn test_not_terminal() {
    not_terminal_rec(Rc::new(RefCell::new(Claims::new())), 0, 0, 4, 0, 4);
}
