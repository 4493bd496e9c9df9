//! The board aggregate: both players' committed cards at each stone, the
//! present-card ledger, the advantage ledger and the claims ledger, with
//! the claim-legality oracle tying them together.

use vstd::prelude::*;

use crate::advantage::Advantage;
use crate::claims::Claims;
use crate::components::{card_valid, player_eq, Card, Player, Stone};
use crate::legal::{
    no_completion_beats, no_pair_completion_beats, no_single_completion_beats,
    no_triple_completion_beats,
};
use crate::present::PresentCards;
use crate::stonecards::{spec_strength, StoneCards};
use crate::terminal::{spec_terminal, terminal_of};

verus! {

pub struct CardsOnBoard {
    advantage: Advantage,
    // Eighteen position-hands: the hand of player `p` at stone `s` sits at
    // index `p * 9 + s`.
    cards: Vec<StoneCards>,
    present_cards: PresentCards,
    claims: Claims,
}

impl CardsOnBoard {
    /// The cards player `p` has committed at stone `s`.
    pub closed spec fn spec_hand(self, p: int, s: int) -> Seq<Card> {
        self.cards@[p * 9 + s]@
    }

    /// The set of cards committed anywhere on the board.
    pub closed spec fn spec_present(self) -> Set<Card> {
        self.present_cards@
    }

    /// The tie-break owner of stone `s`, if any.
    pub closed spec fn spec_adv(self, s: int) -> Option<Player> {
        self.advantage@[s]
    }

    /// The nine claim slots, in stone order.
    pub closed spec fn spec_claims(self) -> Seq<Option<Player>> {
        self.claims@
    }

    /// Well-formedness: nine stones per player with at most three valid
    /// cards each; the advantage at a stone belongs to a player whose hand
    /// there is full, and is assigned as soon as a hand fills; every
    /// committed card is recorded in the present-card ledger.
    pub closed spec fn wf(self) -> bool {
        &&& self.cards@.len() == 18
        &&& (forall|i: int| 0 <= i < 18 ==> (#[trigger] self.cards@[i]).wf())
        &&& self.advantage.wf()
        &&& self.claims.wf()
        &&& self.present_cards.wf()
        &&& (forall|s: int|
            0 <= s < 9 ==> match #[trigger] self.spec_adv(s) {
                Some(q) => (q.spec_index() == 0 || q.spec_index() == 1) && self.spec_hand(
                    q.spec_index(),
                    s,
                ).len() == 3,
                None => true,
            })
        &&& (forall|p: int, s: int|
            0 <= p < 2 && 0 <= s < 9 && (#[trigger] self.spec_hand(p, s)).len() == 3
                ==> self.spec_adv(s) is Some)
        &&& (forall|p: int, s: int, i: int|
            0 <= p < 2 && 0 <= s < 9 && 0 <= i < self.spec_hand(p, s).len()
                ==> self.spec_present().contains(#[trigger] self.spec_hand(p, s)[i]))
    }

    /// The stone is unclaimed and the player's hand there is not yet full.
    pub open spec fn stone_open_for(self, p: int, s: int) -> bool {
        self.spec_claims()[s] is None && self.spec_hand(p, s).len() < 3
    }

    /// What the claim-legality oracle decides: a claim needs a full hand;
    /// against a full opposing hand it is a direct comparison, where the
    /// advantage holder wins ties; against a partial opposing hand, no
    /// completion from the unseen universe may beat the claimant.
    pub open spec fn spec_legal_claim(self, player: Player, stone: Stone) -> bool {
        let mine = self.spec_hand(player.spec_index(), stone.spec_index());
        let theirs = self.spec_hand(1 - player.spec_index(), stone.spec_index());
        if mine.len() != 3 {
            false
        } else if theirs.len() == 3 {
            if self.spec_adv(stone.spec_index()) == Some(player) {
                spec_strength(mine) >= spec_strength(theirs)
            } else {
                spec_strength(mine) > spec_strength(theirs)
            }
        } else {
            no_completion_beats(spec_strength(mine), theirs, self.spec_present())
        }
    }

    /// Well-formedness exported: the claims ledger has one slot per stone.
    pub proof fn lemma_wf_claims_len(self)
        requires
            self.wf(),
        ensures
            self.spec_claims().len() == 9,
    {
    }

    /// Well-formedness exported: every committed card is recorded in the
    /// present-card ledger.
    pub proof fn lemma_wf_committed_cards_present(self, p: int, s: int, i: int)
        requires
            self.wf(),
            0 <= p < 2,
            0 <= s < 9,
            0 <= i < self.spec_hand(p, s).len(),
        ensures
            self.spec_present().contains(self.spec_hand(p, s)[i]),
    {
    }

    /// Well-formedness exported: each position-hand holds at most three
    /// valid cards.
    pub proof fn lemma_wf_hand_shape(self, p: int, s: int)
        requires
            self.wf(),
            0 <= p < 2,
            0 <= s < 9,
        ensures
            crate::stonecards::cards_wf(self.spec_hand(p, s)),
    {
    }

    /// Well-formedness exported: a full hand facing a short hand holds the
    /// tie-break advantage — it filled the stone first, since the other
    /// side never has. This justifies the oracle's rule that hypothetical
    /// completions must strictly beat the claimant.
    pub proof fn lemma_wf_advantage_of_lone_full_hand(self, p: int, s: int)
        requires
            self.wf(),
            0 <= p < 2,
            0 <= s < 9,
            self.spec_hand(p, s).len() == 3,
            self.spec_hand(1 - p, s).len() < 3,
        ensures
            (self.spec_adv(s) matches Some(q) && q.spec_index() == p),
    {
        assert(self.spec_adv(s) is Some);
        let q = self.spec_adv(s)->0;
        assert(self.spec_hand(q.spec_index(), s).len() == 3);
    }

    /// Changing the claims ledger alone preserves well-formedness.
    proof fn lemma_wf_after_claims_change(pre: CardsOnBoard, post: CardsOnBoard)
        requires
            pre.wf(),
            post.cards == pre.cards,
            post.advantage == pre.advantage,
            post.present_cards == pre.present_cards,
            post.claims.wf(),
        ensures
            post.wf(),
    {
        assert forall|s: int| 0 <= s < 9 implies match #[trigger] post.spec_adv(s) {
            Some(q) => (q.spec_index() == 0 || q.spec_index() == 1) && post.spec_hand(
                q.spec_index(),
                s,
            ).len() == 3,
            None => true,
        } by {
            assert(post.spec_adv(s) == pre.spec_adv(s));
            if post.spec_adv(s) is Some {
                let q = post.spec_adv(s)->0;
                assert(post.spec_hand(q.spec_index(), s) == pre.spec_hand(q.spec_index(), s));
            }
        }
        assert forall|p: int, s: int|
            0 <= p < 2 && 0 <= s < 9 && (#[trigger] post.spec_hand(p, s)).len()
                == 3 implies post.spec_adv(s) is Some by {
            assert(post.spec_hand(p, s) == pre.spec_hand(p, s));
            assert(post.spec_adv(s) == pre.spec_adv(s));
        }
        assert forall|p: int, s: int, i: int|
            0 <= p < 2 && 0 <= s < 9 && 0 <= i < post.spec_hand(p, s).len() implies
            post.spec_present().contains(#[trigger] post.spec_hand(p, s)[i]) by {
            assert(post.spec_hand(p, s) == pre.spec_hand(p, s));
            assert(pre.spec_present().contains(pre.spec_hand(p, s)[i]));
        }
    }

    pub fn new() -> (r: CardsOnBoard)
        ensures
            r.wf(),
            forall|p: int, s: int| 0 <= p < 2 && 0 <= s < 9 ==> r.spec_hand(p, s) =~= Seq::<
                Card,
            >::empty(),
            r.spec_present() =~= Set::<Card>::empty(),
            forall|s: int| 0 <= s < 9 ==> r.spec_adv(s) is None,
            forall|s: int| 0 <= s < 9 ==> r.spec_claims()[s] is None,
    {
        let mut cards: Vec<StoneCards> = Vec::new();
        let mut i: usize = 0;
        while i < 18
            invariant
                i <= 18,
                cards@.len() == i,
                forall|j: int|
                    0 <= j < i ==> (#[trigger] cards@[j]).wf() && cards@[j]@.len() == 0,
            decreases 18 - i,
        {
            cards.push(StoneCards::new());
            i += 1;
        }
        CardsOnBoard {
            advantage: Advantage::new(),
            cards,
            present_cards: PresentCards::new(),
            claims: Claims::new(),
        }
    }

    /// Commit one card of the player at the stone: the card joins the
    /// player's position-hand and the present-card ledger, and the instant
    /// the hand reaches three cards an unassigned advantage at the stone
    /// goes to the player.
    pub fn place_card(&mut self, player: Player, stone: Stone, card: Card)
        requires
            old(self).wf(),
            old(self).spec_hand(player.spec_index(), stone.spec_index()).len() < 3,
        ensures
            final(self).wf(),
            final(self).spec_hand(player.spec_index(), stone.spec_index()) == old(self).spec_hand(
                player.spec_index(),
                stone.spec_index(),
            ).push(card),
            forall|p: int, s: int|
                0 <= p < 2 && 0 <= s < 9 && !(p == player.spec_index() && s == stone.spec_index())
                    ==> final(self).spec_hand(p, s) == old(self).spec_hand(p, s),
            final(self).spec_present() =~= old(self).spec_present().insert(card),
            final(self).spec_claims() == old(self).spec_claims(),
            final(self).spec_adv(stone.spec_index()) == (if old(self).spec_hand(
                player.spec_index(),
                stone.spec_index(),
            ).len() == 2 && old(self).spec_adv(stone.spec_index()) is None {
                Some(player)
            } else {
                old(self).spec_adv(stone.spec_index())
            }),
            forall|s: int|
                0 <= s < 9 && s != stone.spec_index() ==> final(self).spec_adv(s) == old(
                    self,
                ).spec_adv(s),
    {
        proof {
            use_type_invariant(&player);
            use_type_invariant(&stone);
            use_type_invariant(&card);
        }
        let pi = player.get_index();
        let si = stone.get_index();
        let idx = pi * 9 + si;

        self.present_cards.add_card(&card);

        let mut hand = (&self.cards[idx]).duplicate();
        hand.push(card);
        let full = hand.is_full();
        self.cards.set(idx, hand);

        if full {
            if self.advantage.get(si).is_none() {
                self.advantage.set(player, stone);
            }
        }
        proof {
            let pre = *old(self);
            let post = *self;
            assert forall|p: int, s: int|
                0 <= p < 2 && 0 <= s < 9 && !(p == player.spec_index() && s
                    == stone.spec_index()) implies post.spec_hand(p, s) == pre.spec_hand(p, s) by {
                assert(p * 9 + s != pi * 9 + si);
                assert(post.cards@[p * 9 + s] == pre.cards@[p * 9 + s]);
            }
            assert(post.spec_hand(pi as int, si as int) == pre.spec_hand(
                pi as int,
                si as int,
            ).push(card));
            assert forall|i: int| 0 <= i < 18 implies (#[trigger] post.cards@[i]).wf() by {
                if i != pi * 9 + si {
                    assert(post.cards@[i] == pre.cards@[i]);
                }
            }
            assert forall|s: int| 0 <= s < 9 implies match #[trigger] post.spec_adv(s) {
                Some(q) => (q.spec_index() == 0 || q.spec_index() == 1) && post.spec_hand(
                    q.spec_index(),
                    s,
                ).len() == 3,
                None => true,
            } by {
                if s != si {
                    assert(post.spec_adv(s) == pre.spec_adv(s));
                    if post.spec_adv(s) is Some {
                        let q = post.spec_adv(s)->0;
                        assert(post.spec_hand(q.spec_index(), s) == pre.spec_hand(
                            q.spec_index(),
                            s,
                        ));
                    }
                } else {
                    if post.spec_adv(s) is Some {
                        let q = post.spec_adv(s)->0;
                        if pre.spec_adv(s) is Some {
                            assert(post.spec_adv(s) == pre.spec_adv(s));
                            assert(pre.spec_hand(q.spec_index(), s).len() == 3);
                            // The claimant's hand was short of three, so the
                            // advantage holder is the other player.
                            assert(q.spec_index() != pi ==> post.spec_hand(q.spec_index(), s)
                                == pre.spec_hand(q.spec_index(), s));
                        } else {
                            assert(q == player);
                        }
                    }
                }
            }
            assert forall|p: int, s: int|
                0 <= p < 2 && 0 <= s < 9 && (#[trigger] post.spec_hand(p, s)).len()
                    == 3 implies post.spec_adv(s) is Some by {
                if !(p == pi as int && s == si as int) {
                    assert(post.spec_hand(p, s) == pre.spec_hand(p, s));
                    // The full hand already forced an advantage holder, so
                    // this call cannot have assigned a fresh one at `s`.
                    assert(pre.spec_adv(s) is Some);
                    assert(post.spec_adv(s) == pre.spec_adv(s));
                }
            }
            assert forall|p: int, s: int, i: int|
                0 <= p < 2 && 0 <= s < 9 && 0 <= i < post.spec_hand(p, s).len() implies
                post.spec_present().contains(#[trigger] post.spec_hand(p, s)[i]) by {
                if p == pi as int && s == si as int {
                    if i < pre.spec_hand(p, s).len() {
                        assert(post.spec_hand(p, s)[i] == pre.spec_hand(p, s)[i]);
                        assert(pre.spec_present().contains(pre.spec_hand(p, s)[i]));
                    } else {
                        assert(post.spec_hand(p, s)[i] == card);
                    }
                } else {
                    assert(post.spec_hand(p, s) == pre.spec_hand(p, s));
                    assert(pre.spec_present().contains(pre.spec_hand(p, s)[i]));
                }
            }
        }
    }

    /// The claim-legality oracle: may the player claim the stone now?
    pub fn proto_is_legal_claim(&self, player: Player, stone: Stone) -> (r: bool)
        requires
            self.wf(),
        ensures
            r == self.spec_legal_claim(player, stone),
    {
        proof {
            use_type_invariant(&player);
            use_type_invariant(&stone);
        }
        let pi = player.get_index();
        let si = stone.get_index();
        let mine = &self.cards[pi * 9 + si];
        if !mine.is_full() {
            return false;
        }
        let ps = mine.strength();
        let other = player.get_other();
        let oi = other.get_index();
        let theirs = &self.cards[oi * 9 + si];
        let n = theirs.len();
        if n == 3 {
            let os = theirs.strength();
            let mine_advantage = match self.advantage.get(si) {
                Some(q) => player_eq(&q, &player),
                None => false,
            };
            if mine_advantage {
                ps >= os
            } else {
                ps > os
            }
        } else if n == 2 {
            no_single_completion_beats(ps, theirs, &self.present_cards)
        } else if n == 1 {
            no_pair_completion_beats(ps, theirs, &self.present_cards)
        } else {
            no_triple_completion_beats(ps, theirs, &self.present_cards)
        }
    }

    /// Revealing one more of the opponent's cards never flips a legal
    /// claim to illegal: the law of `legal::lemma_reveal_monotonic`
    /// lifted to whole boards. `post` is `pre` after the opponent commits
    /// one unseen card `c` at the stone, exactly what `place_card` of the
    /// opposing player ensures there while the claimant's hand is full.
    pub proof fn lemma_legal_claim_reveal_monotonic(
        pre: CardsOnBoard,
        post: CardsOnBoard,
        player: Player,
        stone: Stone,
        c: Card,
    )
        requires
            pre.wf(),
            player.spec_index() == 0 || player.spec_index() == 1,
            0 <= stone.spec_index() < 9,
            pre.spec_hand(1 - player.spec_index(), stone.spec_index()).len() < 3,
            card_valid(c),
            !pre.spec_present().contains(c),
            post.spec_hand(player.spec_index(), stone.spec_index()) == pre.spec_hand(
                player.spec_index(),
                stone.spec_index(),
            ),
            post.spec_hand(1 - player.spec_index(), stone.spec_index()) == pre.spec_hand(
                1 - player.spec_index(),
                stone.spec_index(),
            ).push(c),
            post.spec_present() == pre.spec_present().insert(c),
            post.spec_adv(stone.spec_index()) == pre.spec_adv(stone.spec_index()),
            pre.spec_legal_claim(player, stone),
        ensures
            post.spec_legal_claim(player, stone),
    {
        let pi = player.spec_index();
        let si = stone.spec_index();
        let mine = pre.spec_hand(pi, si);
        let opp = pre.spec_hand(1 - pi, si);
        let ps = spec_strength(mine);
        // The unseen card cannot already sit in the opponent's hand: all
        // committed cards are present, and c is not.
        assert(!opp.contains(c)) by {
            if opp.contains(c) {
                let w = choose|w: int| 0 <= w < opp.len() && opp[w] == c;
                pre.lemma_wf_committed_cards_present(1 - pi, si, w);
            }
        }
        assert(crate::legal::completion_card_ok(c, opp, pre.spec_present()));
        crate::legal::lemma_reveal_monotonic(ps, opp, c, pre.spec_present());
        if opp.len() == 2 {
            // The reveal fills the opponent's hand; the claimant filled
            // first, so ties still go its way.
            pre.lemma_wf_advantage_of_lone_full_hand(pi, si);
            let q = pre.spec_adv(si)->0;
            crate::components::lemma_player_eq(q, player);
            assert(post.spec_adv(si) == Some(player));
            assert(spec_strength(opp.push(c)) <= ps);
        } else {
            crate::legal::lemma_present_monotonic(ps, opp.push(c), pre.spec_present(), c);
        }
    }

    /// Attempt to claim the stone: succeeds exactly when the stone is
    /// still unclaimed and the legality oracle allows the claim. A failed
    /// attempt changes nothing and is reported, not fatal.
    pub fn claim(&mut self, player: Player, stone: Stone) -> (r: bool)
        requires
            old(self).wf(),
        ensures
            final(self).wf(),
            r == (old(self).spec_claims()[stone.spec_index()] is None && old(
                self,
            ).spec_legal_claim(player, stone)),
            r ==> final(self).spec_claims() =~= old(self).spec_claims().update(
                stone.spec_index(),
                Some(player),
            ),
            !r ==> final(self).spec_claims() == old(self).spec_claims(),
            forall|p: int, s: int|
                0 <= p < 2 && 0 <= s < 9 ==> final(self).spec_hand(p, s) == old(self).spec_hand(
                    p,
                    s,
                ),
            final(self).spec_present() == old(self).spec_present(),
            forall|s: int| 0 <= s < 9 ==> final(self).spec_adv(s) == old(self).spec_adv(s),
    {
        proof {
            use_type_invariant(&stone);
        }
        if self.claims.who_claimed(stone).is_none() && self.proto_is_legal_claim(player, stone) {
            self.claims.claim(player, stone);
            proof {
                Self::lemma_wf_after_claims_change(*old(self), *self);
            }
            true
        } else {
            false
        }
    }

    /// The winner the current claim pattern yields, if any.
    pub fn terminal_state(&self) -> (r: Option<Player>)
        requires
            self.wf(),
        ensures
            r == spec_terminal(self.spec_claims()),
    {
        terminal_of(&self.claims)
    }

    /// Replace the whole claims ledger. Test scaffolding: lets a claim
    /// pattern be installed directly so the terminal-state evaluator can
    /// be exercised on its own.
    pub fn set_claims(&mut self, claims: Claims)
        requires
            old(self).wf(),
            claims.wf(),
        ensures
            final(self).wf(),
            final(self).spec_claims() == claims@,
            forall|p: int, s: int|
                0 <= p < 2 && 0 <= s < 9 ==> final(self).spec_hand(p, s) == old(self).spec_hand(
                    p,
                    s,
                ),
            final(self).spec_present() == old(self).spec_present(),
            forall|s: int| 0 <= s < 9 ==> final(self).spec_adv(s) == old(self).spec_adv(s),
    {
        self.claims = claims;
        proof {
            Self::lemma_wf_after_claims_change(*old(self), *self);
        }
    }

    /// Who has claimed the stone, if anyone.
    pub fn claimed_by(&self, stone: Stone) -> (r: Option<Player>)
        requires
            self.wf(),
        ensures
            r == self.spec_claims()[stone.spec_index()],
    {
        self.claims.who_claimed(stone)
    }

    /// A snapshot of the cards the player has committed at the stone.
    pub fn cards_at(&self, player: Player, stone: Stone) -> (r: Vec<Card>)
        requires
            self.wf(),
        ensures
            r@ == self.spec_hand(player.spec_index(), stone.spec_index()),
    {
        proof {
            use_type_invariant(&player);
            use_type_invariant(&stone);
        }
        let pi = player.get_index();
        let si = stone.get_index();
        (&self.cards[pi * 9 + si]).iter()
    }

    /// The stones nobody has claimed yet, in ascending order.
    pub fn available_stones(&self) -> (r: Vec<Stone>)
        requires
            self.wf(),
        ensures
            forall|a: int, b: int|
                0 <= a < b < r@.len() ==> r@[a].spec_index() < r@[b].spec_index(),
            forall|j: int|
                0 <= j < r@.len() ==> self.spec_claims()[(#[trigger] r@[j]).spec_index()] is None,
            forall|s: int|
                0 <= s < 9 && self.spec_claims()[s] is None ==> exists|j: int|
                    0 <= j < r@.len() && (#[trigger] r@[j]).spec_index() == s,
    {
        let mut out: Vec<Stone> = Vec::new();
        let mut i: usize = 0;
        while i < 9
            invariant
                i <= 9,
                self.wf(),
                forall|a: int, b: int|
                    0 <= a < b < out@.len() ==> out@[a].spec_index() < out@[b].spec_index(),
                forall|j: int|
                    0 <= j < out@.len() ==> (#[trigger] out@[j]).spec_index() < i
                        && self.spec_claims()[out@[j].spec_index()] is None,
                forall|s: int|
                    0 <= s < i && self.spec_claims()[s] is None ==> exists|j: int|
                        0 <= j < out@.len() && (#[trigger] out@[j]).spec_index() == s,
            decreases 9 - i,
        {
            let ghost out0 = out@;
            let stone = Stone::build(i as u8);
            if self.claims.who_claimed(stone).is_none() {
                out.push(stone);
            }
            proof {
                assert forall|s: int|
                    0 <= s < i + 1 && self.spec_claims()[s] is None implies exists|j: int|
                    0 <= j < out@.len() && (#[trigger] out@[j]).spec_index() == s by {
                    if s == i {
                        assert(out@[out@.len() - 1].spec_index() == s);
                    } else {
                        let j0 = choose|j: int|
                            0 <= j < out0.len() && (#[trigger] out0[j]).spec_index() == s;
                        assert(out@[j0].spec_index() == s);
                    }
                }
            }
            i += 1;
        }
        out
    }

    /// The stones the player could still play a card to: unclaimed, and
    /// the player's hand there not yet full; in ascending order.
    pub fn available_stones_for(&self, player: Player) -> (r: Vec<Stone>)
        requires
            self.wf(),
        ensures
            forall|a: int, b: int|
                0 <= a < b < r@.len() ==> r@[a].spec_index() < r@[b].spec_index(),
            forall|j: int|
                0 <= j < r@.len() ==> self.stone_open_for(
                    player.spec_index(),
                    (#[trigger] r@[j]).spec_index(),
                ),
            forall|s: int|
                0 <= s < 9 && self.stone_open_for(player.spec_index(), s) ==> exists|j: int|
                    0 <= j < r@.len() && (#[trigger] r@[j]).spec_index() == s,
    {
        proof {
            use_type_invariant(&player);
        }
        let pi = player.get_index();
        let mut out: Vec<Stone> = Vec::new();
        let mut i: usize = 0;
        while i < 9
            invariant
                i <= 9,
                self.wf(),
                pi == player.spec_index(),
                0 <= pi < 2,
                forall|a: int, b: int|
                    0 <= a < b < out@.len() ==> out@[a].spec_index() < out@[b].spec_index(),
                forall|j: int|
                    0 <= j < out@.len() ==> (#[trigger] out@[j]).spec_index() < i
                        && self.stone_open_for(player.spec_index(), out@[j].spec_index()),
                forall|s: int|
                    0 <= s < i && self.stone_open_for(player.spec_index(), s) ==> exists|j: int|
                        0 <= j < out@.len() && (#[trigger] out@[j]).spec_index() == s,
            decreases 9 - i,
        {
            let ghost out0 = out@;
            let stone = Stone::build(i as u8);
            if self.claims.who_claimed(stone).is_none() && !(&self.cards[pi * 9 + i]).is_full() {
                out.push(stone);
            }
            proof {
                assert forall|s: int|
                    0 <= s < i + 1 && self.stone_open_for(player.spec_index(), s) implies exists|
                    j: int,
                |
                    0 <= j < out@.len() && (#[trigger] out@[j]).spec_index() == s by {
                    if s == i {
                        assert(out@[out@.len() - 1].spec_index() == s);
                    } else {
                        let j0 = choose|j: int|
                            0 <= j < out0.len() && (#[trigger] out0[j]).spec_index() == s;
                        assert(out@[j0].spec_index() == s);
                    }
                }
            }
            i += 1;
        }
        out
    }

    /// Whether the player could still play a card anywhere.
    pub fn any_available_stones_for(&self, player: Player) -> (r: bool)
        requires
            self.wf(),
        ensures
            r == exists|s: int| 0 <= s < 9 && self.stone_open_for(player.spec_index(), s),
    {
        proof {
            use_type_invariant(&player);
        }
        let pi = player.get_index();
        let mut i: usize = 0;
        while i < 9
            invariant
                i <= 9,
                self.wf(),
                pi == player.spec_index(),
                0 <= pi < 2,
                forall|s: int| 0 <= s < i ==> !self.stone_open_for(player.spec_index(), s),
            decreases 9 - i,
        {
            let stone = Stone::build(i as u8);
            if self.claims.who_claimed(stone).is_none() && !(&self.cards[pi * 9 + i]).is_full() {
                proof {
                    assert(self.stone_open_for(player.spec_index(), i as int));
                }
                return true;
            }
            i += 1;
        }
        false
    }
}

} // verus!
