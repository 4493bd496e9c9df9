//! The draw deck: all 54 distinct cards in a shuffled order, drawn from
//! the top one at a time.

use vstd::prelude::*;

use rand::seq::SliceRandom;

use crate::components::{
    all_cards, card_valid, is_universe, lemma_universe_covers, lemma_universe_index, Card,
};

verus! {

pub struct Deck {
    deck: Vec<Card>,
}

impl View for Deck {
    type V = Seq<Card>;

    closed spec fn view(&self) -> Seq<Card> {
        self.deck@
    }
}

/// Relies on rand's `SliceRandom::shuffle`: it permutes the slice in
/// place, so afterward the vector holds the same cards in some order.
#[verifier::external_body]
fn shuffle_cards(cards: &mut Vec<Card>)
    ensures
        final(cards)@.to_multiset() == old(cards)@.to_multiset(),
{
    cards.shuffle(&mut rand::rng());
}

impl Deck {
    /// A full deck: each of the 54 cards exactly once, in random order.
    pub fn new() -> (r: Deck)
        ensures
            r@.len() == 54,
            forall|c: Card| card_valid(c) ==> r@.contains(c),
            forall|a: int, b: int| 0 <= a < b < 54 ==> r@[a] != r@[b],
    {
        let mut deck = all_cards();
        let ghost before = deck@;
        shuffle_cards(&mut deck);
        proof {
            broadcast use vstd::seq_lib::group_to_multiset_ensures;

            assert(before.no_duplicates()) by {
                assert forall|a: int, b: int|
                    0 <= a < before.len() && 0 <= b < before.len() && a != b implies before[a]
                    != before[b] by {
                    lemma_universe_index(before, a);
                    lemma_universe_index(before, b);
                }
            }
            before.lemma_multiset_has_no_duplicates();
            assert forall|c: Card| card_valid(c) implies deck@.contains(c) by {
                lemma_universe_covers(before, c);
                assert(before.to_multiset().count(c) > 0);
                assert(deck@.to_multiset().count(c) > 0);
            }
            assert(deck@.to_multiset().len() == before.to_multiset().len());
            assert(deck@.len() == 54);
            deck@.lemma_multiset_has_no_duplicates_conv();
            assert(deck@.no_duplicates());
        }
        Deck { deck }
    }

    pub fn len(&self) -> (r: usize)
        ensures
            r == self@.len(),
    {
        self.deck.len()
    }

    /// Draw the top card, if any remain.
    pub fn draw(&mut self) -> (r: Option<Card>)
        ensures
            old(self)@.len() > 0 ==> (r == Some(old(self)@.last()) && final(self)@ == old(
                self,
            )@.drop_last()),
            old(self)@.len() == 0 ==> (r is None && final(self)@ == old(self)@),
    {
        self.deck.pop()
    }

    /// The card at the given position, counting from the bottom.
    pub fn get(&self, i: usize) -> (r: &Card)
        requires
            i < self@.len(),
        ensures
            *r == self@[i as int],
    {
        &self.deck[i]
    }
}

} // verus!
