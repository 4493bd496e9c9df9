//! The present-card ledger: which of the 54 cards have been committed
//! anywhere on the board, by either player. Monotonically set; its
//! complement is the unseen universe that hypothetical completions are
//! drawn from.

use vstd::prelude::*;

use crate::components::{card_index, card_valid, lemma_card_index_injective, Card};

verus! {

/// One flag per card of the universe, addressed by `card_index`.
pub struct PresentCards {
    table: Vec<bool>,
}

impl View for PresentCards {
    type V = Set<Card>;

    /// The set of valid cards whose flag is set.
    closed spec fn view(&self) -> Set<Card> {
        Set::new(|c: Card| card_valid(c) && self.table@[card_index(c)])
    }
}

impl PresentCards {
    pub closed spec fn wf(self) -> bool {
        self.table@.len() == 54
    }

    pub fn new() -> (r: PresentCards)
        ensures
            r.wf(),
            r@ =~= Set::<Card>::empty(),
    {
        let mut table: Vec<bool> = Vec::new();
        let mut i: usize = 0;
        while i < 54
            invariant
                i <= 54,
                table@.len() == i,
                forall|j: int| 0 <= j < i ==> !table@[j],
            decreases 54 - i,
        {
            table.push(false);
            i += 1;
        }
        let r = PresentCards { table };
        proof {
            assert(r@ =~= Set::<Card>::empty());
        }
        r
    }

    /// Record a card as present. Idempotent: re-adding changes nothing.
    pub fn add_card(&mut self, card: &Card)
        requires
            old(self).wf(),
        ensures
            final(self).wf(),
            final(self)@ =~= old(self)@.insert(*card),
    {
        proof {
            use_type_invariant(card);
        }
        let idx = card.num_index() * 6 + card.color_index();
        self.table.set(idx, true);
        proof {
            assert forall|c: Card| self@.contains(c) == old(self)@.insert(*card).contains(c) by {
                if c != *card && card_valid(c) && card_index(c) == card_index(*card) {
                    lemma_card_index_injective(c, *card);
                }
            }
            assert(self@ =~= old(self)@.insert(*card));
        }
    }

    pub fn is_present(&self, card: &Card) -> (r: bool)
        requires
            self.wf(),
        ensures
            r == self@.contains(*card),
    {
        proof {
            use_type_invariant(card);
        }
        let idx = card.num_index() * 6 + card.color_index();
        self.table[idx]
    }
}

} // verus!
