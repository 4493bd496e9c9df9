//! The claims ledger: per-stone final ownership. A stone is claimed at most
//! once in real play; the explicit unset operation exists only for test
//! scaffolding and is never invoked by the game itself.

use vstd::prelude::*;

use crate::components::{Player, Stone};

verus! {

#[derive(Debug, Clone)]
pub struct Claims {
    slots: Vec<Option<Player>>,
}

impl View for Claims {
    type V = Seq<Option<Player>>;

    closed spec fn view(&self) -> Seq<Option<Player>> {
        self.slots@
    }
}

impl Claims {
    pub open spec fn wf(self) -> bool {
        self@.len() == 9
    }

    pub fn new() -> (r: Claims)
        ensures
            r.wf(),
            forall|i: int| 0 <= i < 9 ==> r@[i] is None,
    {
        let mut slots: Vec<Option<Player>> = Vec::new();
        let mut i: usize = 0;
        while i < 9
            invariant
                i <= 9,
                slots@.len() == i,
                forall|j: int| 0 <= j < i ==> slots@[j] is None,
            decreases 9 - i,
        {
            slots.push(None);
            i += 1;
        }
        Claims { slots }
    }

    /// Record that the player owns the stone. Claims are set at most once
    /// per stone in valid play.
    pub fn claim(&mut self, player: Player, stone: Stone)
        requires
            old(self).wf(),
            old(self)@[stone.spec_index()] is None,
        ensures
            final(self).wf(),
            final(self)@ =~= old(self)@.update(stone.spec_index(), Some(player)),
    {
        proof {
            use_type_invariant(&stone);
        }
        let idx = stone.get_index();
        self.slots.set(idx, Some(player));
    }

    /// Record ownership of each listed stone at once.
    pub fn claims(&mut self, player: Player, stones: &[Stone])
        requires
            old(self).wf(),
            forall|i: int|
                0 <= i < stones@.len() ==> old(self)@[(#[trigger] stones@[i]).spec_index()]
                    is None,
        ensures
            final(self).wf(),
            forall|k: int|
                0 <= k < 9 ==> final(self)@[k] == if (exists|i: int|
                    0 <= i < stones@.len() && (#[trigger] stones@[i]).spec_index() == k) {
                    Some(player)
                } else {
                    old(self)@[k]
                },
    {
        let mut i: usize = 0;
        let n = stones.len();
        while i < n
            invariant
                i <= n,
                n == stones@.len(),
                self.wf(),
                forall|k: int|
                    0 <= k < 9 ==> self@[k] == if (exists|j: int|
                        0 <= j < i && (#[trigger] stones@[j]).spec_index() == k) {
                        Some(player)
                    } else {
                        old(self)@[k]
                    },
            decreases n - i,
        {
            let stone = stones[i];
            proof {
                use_type_invariant(&stone);
            }
            let idx = stone.get_index();
            self.slots.set(idx, Some(player));
            i += 1;
        }
    }

    pub fn who_claimed(&self, stone: Stone) -> (r: Option<Player>)
        requires
            self.wf(),
        ensures
            r == self@[stone.spec_index()],
    {
        proof {
            use_type_invariant(&stone);
        }
        self.slots[stone.get_index()]
    }

    /// Forget a claim. Test scaffolding only; never called in real play.
    pub fn unclaim(&mut self, stone: Stone)
        requires
            old(self).wf(),
        ensures
            final(self).wf(),
            final(self)@ =~= old(self)@.update(stone.spec_index(), None),
    {
        proof {
            use_type_invariant(&stone);
        }
        let idx = stone.get_index();
        self.slots.set(idx, None);
    }

    /// A snapshot of the nine ownership slots, in stone order.
    pub fn iter(&self) -> (r: Vec<Option<Player>>)
        requires
            self.wf(),
        ensures
            r@ == self@,
    {
        let mut out: Vec<Option<Player>> = Vec::new();
        let mut i: usize = 0;
        while i < 9
            invariant
                i <= 9,
                self.wf(),
                out@ =~= self@.subrange(0, i as int),
            decreases 9 - i,
        {
            out.push(self.slots[i]);
            i += 1;
        }
        proof {
            assert(out@ =~= self@);
        }
        out
    }
}

} // verus!
