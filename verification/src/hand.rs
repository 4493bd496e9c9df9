//! A player's personal hand: the cards drawn but not yet committed to a
//! stone, capped at six.

use vstd::prelude::*;

use crate::components::Card;

verus! {

/// How many cards a personal hand may hold.
pub const CARDS_IN_HAND: usize = 6;

pub struct Hand {
    hand: Vec<Card>,
}

impl View for Hand {
    type V = Seq<Card>;

    closed spec fn view(&self) -> Seq<Card> {
        self.hand@
    }
}

impl Hand {
    pub fn new() -> (r: Hand)
        ensures
            r@ =~= Seq::<Card>::empty(),
    {
        Hand { hand: Vec::new() }
    }

    /// Remove and return the card at the given position; the last card
    /// takes its place.
    pub fn remove(&mut self, index: usize) -> (r: Card)
        requires
            index < old(self)@.len(),
        ensures
            r == old(self)@[index as int],
            final(self)@ == old(self)@.update(index as int, old(self)@.last()).drop_last(),
    {
        self.hand.swap_remove(index)
    }

    /// Take a drawn card into the hand, which must not be full.
    pub fn add(&mut self, card: Card)
        requires
            old(self)@.len() < CARDS_IN_HAND,
        ensures
            final(self)@ == old(self)@.push(card),
    {
        self.hand.push(card);
    }

    pub fn len(&self) -> (r: usize)
        ensures
            r == self@.len(),
    {
        self.hand.len()
    }

    /// The card at the given position.
    pub fn get(&self, i: usize) -> (r: &Card)
        requires
            i < self@.len(),
        ensures
            *r == self@[i as int],
    {
        &self.hand[i]
    }
}

} // verus!
