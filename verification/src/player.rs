//! The move-selection strategy interface. Implementations decide which
//! card to play where, and which stones to attempt to claim; the game
//! loop holds them to the contract below so that a verified game never
//! plays out of bounds or onto an unavailable stone.

use vstd::prelude::*;

use crate::board::CardsOnBoard;
use crate::components::{Player as PlayerTag, Stone};
use crate::hand::Hand;

verus! {

pub trait Player {
    /// Choose a card (by hand position) and an available stone to play it
    /// to. Called only when the hand is non-empty and some stone is still
    /// open for the player.
    fn choose_action(&self, hand: &Hand, board: &CardsOnBoard, player: PlayerTag) -> (r: (
        usize,
        Stone,
    ))
        requires
            board.wf(),
            hand@.len() > 0,
            exists|s: int| 0 <= s < 9 && #[trigger] board.stone_open_for(player.spec_index(), s),
        ensures
            r.0 < hand@.len(),
            board.stone_open_for(player.spec_index(), r.1.spec_index()),
    ;

    /// The stones the strategy wants to attempt to claim this turn. Any
    /// stones may be named: illegal attempts are rejected by the board.
    fn claim(&self, hand: &Hand, board: &CardsOnBoard, player: PlayerTag) -> (r: Vec<Stone>)
        requires
            board.wf(),
    {
        let mut out: Vec<Stone> = Vec::new();
        let mut s: u8 = 0;
        while s < 9
            invariant
                s <= 9,
            decreases 9 - s,
        {
            out.push(Stone::build(s));
            s += 1;
        }
        out
    }
}

} // verus!
