//! The advantage ledger: per-stone tie-break ownership, granted to whoever
//! first commits a full hand of three cards to a stone, and immutable
//! afterward. The holder of the advantage wins ties at that stone.

use vstd::prelude::*;

use crate::components::{Player, Stone};

verus! {

pub struct Advantage {
    slots: Vec<Option<Player>>,
}

impl View for Advantage {
    type V = Seq<Option<Player>>;

    closed spec fn view(&self) -> Seq<Option<Player>> {
        self.slots@
    }
}

impl Advantage {
    pub open spec fn wf(self) -> bool {
        self@.len() == 9
    }

    pub fn new() -> (r: Advantage)
        ensures
            r.wf(),
            forall|i: int| 0 <= i < 9 ==> r@[i] is None,
    {
        let mut slots: Vec<Option<Player>> = Vec::new();
        let mut i: usize = 0;
        while i < 9
            invariant
                i <= 9,
                slots@.len() == i,
                forall|j: int| 0 <= j < i ==> slots@[j] is None,
            decreases 9 - i,
        {
            slots.push(None);
            i += 1;
        }
        Advantage { slots }
    }

    /// Grant the advantage at one stone. The advantage is set exactly once:
    /// granting it again to a different player would be a caller bug.
    pub fn set(&mut self, player: Player, stone: Stone)
        requires
            old(self).wf(),
            old(self)@[stone.spec_index()] is None || old(self)@[stone.spec_index()] == Some(
                player,
            ),
        ensures
            final(self).wf(),
            final(self)@ =~= old(self)@.update(stone.spec_index(), Some(player)),
    {
        proof {
            use_type_invariant(&stone);
        }
        let idx = stone.get_index();
        self.slots.set(idx, Some(player));
    }

    /// Grant the advantage at each listed stone at once.
    pub fn set_multi(&mut self, player: Player, stones: &[Stone])
        requires
            old(self).wf(),
            forall|i: int|
                0 <= i < stones@.len() ==> old(self)@[(#[trigger] stones@[i]).spec_index()]
                    is None,
        ensures
            final(self).wf(),
            forall|k: int|
                0 <= k < 9 ==> final(self)@[k] == if (exists|i: int|
                    0 <= i < stones@.len() && (#[trigger] stones@[i]).spec_index() == k) {
                    Some(player)
                } else {
                    old(self)@[k]
                },
    {
        let mut i: usize = 0;
        let n = stones.len();
        while i < n
            invariant
                i <= n,
                n == stones@.len(),
                self.wf(),
                forall|k: int|
                    0 <= k < 9 ==> self@[k] == if (exists|j: int|
                        0 <= j < i && (#[trigger] stones@[j]).spec_index() == k) {
                        Some(player)
                    } else {
                        old(self)@[k]
                    },
            decreases n - i,
        {
            let stone = stones[i];
            proof {
                use_type_invariant(&stone);
            }
            let idx = stone.get_index();
            self.slots.set(idx, Some(player));
            i += 1;
        }
    }

    /// The advantage holder at the stone with the given index.
    pub fn get(&self, idx: usize) -> (r: Option<Player>)
        requires
            self.wf(),
            idx < 9,
        ensures
            r == self@[idx as int],
    {
        self.slots[idx]
    }
}

} // verus!
