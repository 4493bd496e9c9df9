//! A strategy that plays uniformly at random among its legal options.

use vstd::prelude::*;

use rand::RngExt;

use crate::board::CardsOnBoard;
use crate::components::{Player as PlayerTag, Stone};
use crate::hand::Hand;
use crate::player::Player;

verus! {

/// Relies on rand's `RngExt::random_range` over `0..n`: the sample lies
/// below `n`; the range is non-empty, so the call returns normally.
#[verifier::external_body]
fn rand_below(n: usize) -> (r: usize)
    requires
        n > 0,
    ensures
        r < n,
{
    rand::rng().random_range(0..n)
}

pub struct RandomPlayer;

impl Player for RandomPlayer {
    fn choose_action(&self, hand: &Hand, board: &CardsOnBoard, player: PlayerTag) -> (r: (
        usize,
        Stone,
    )) {
        let stones = board.available_stones_for(player);
        proof {
            use_type_invariant(&player);
            let s = choose|s: int|
                0 <= s < 9 && #[trigger] board.stone_open_for(player.spec_index(), s);
            assert(exists|j: int|
                0 <= j < stones@.len() && (#[trigger] stones@[j]).spec_index() == s);
        }
        let idx = rand_below(stones.len());
        let stone = stones[idx];
        let card_index = rand_below(hand.len());
        (card_index, stone)
    }
}

} // verus!
