//! Rules and verification core of a two-player card game fought over nine
//! contested stones. Each player commits up to three cards per stone; a
//! stone may be claimed only once the committed hand is provably
//! unbeatable given everything currently known about cards elsewhere on
//! the board. The claim-legality oracle reasons under hidden information
//! by exhaustively considering every completion of the unknown remainder
//! of the universe; a lazy, deduplicating enumeration cache amortizes
//! those enumerations across look-ahead queries.

pub mod advantage;
pub mod board;
pub mod claims;
pub mod components;
pub mod deck;
pub mod hand;
pub mod jobs;
pub mod legal;
pub mod player;
pub mod present;
pub mod random_player;
pub mod stonecards;
pub mod terminal;
pub mod worker;

use vstd::prelude::*;

use crate::board::CardsOnBoard;
use crate::components::{card_valid, Card, Player};
use crate::deck::Deck;
use crate::hand::{Hand, CARDS_IN_HAND};
use crate::player::Player as PlayerTrait;

verus! {

/// A full game: the board, the draw deck, and both players' hands. The
/// strategies themselves stay outside; `play` consults them through the
/// `player::Player` interface.
pub struct Game {
    board: CardsOnBoard,
    deck: Deck,
    hand1: Hand,
    hand2: Hand,
}

impl Game {
    pub closed spec fn wf(self) -> bool {
        &&& self.board.wf()
        &&& self.hand1@.len() <= CARDS_IN_HAND
        &&& self.hand2@.len() <= CARDS_IN_HAND
    }

    pub closed spec fn spec_board(self) -> CardsOnBoard {
        self.board
    }

    /// The cards in the hand of player `p`, in hand order.
    pub closed spec fn spec_hand_cards(self, p: int) -> Seq<Card> {
        if p == 0 {
            self.hand1@
        } else {
            self.hand2@
        }
    }

    /// The cards still in the draw deck, bottom first.
    pub closed spec fn spec_deck_cards(self) -> Seq<Card> {
        self.deck@
    }

    pub open spec fn spec_hand_len(self, p: int) -> int {
        self.spec_hand_cards(p).len() as int
    }

    pub open spec fn spec_deck_len(self) -> int {
        self.spec_deck_cards().len() as int
    }

    /// A fresh game: an empty board and six cards dealt to each player
    /// alternately from a shuffled full deck.
    pub fn new() -> (r: Game)
        ensures
            r.wf(),
            r.spec_hand_len(0) == CARDS_IN_HAND,
            r.spec_hand_len(1) == CARDS_IN_HAND,
            r.spec_deck_len() == 54 - 2 * CARDS_IN_HAND,
            forall|s: int| 0 <= s < 9 ==> r.spec_board().spec_claims()[s] is None,
            forall|p: int, s: int| 0 <= p < 2 && 0 <= s < 9 ==> r.spec_board().spec_hand(p, s)
                =~= Seq::<Card>::empty(),
            // The deal partitions the universe: both hands and the deck
            // together hold each of the 54 cards exactly once.
            ({
                let all = r.spec_hand_cards(0) + r.spec_hand_cards(1) + r.spec_deck_cards();
                &&& all.len() == 54
                &&& (forall|c: Card| card_valid(c) ==> all.contains(c))
                &&& (forall|a: int, b: int| 0 <= a < b < 54 ==> all[a] != all[b])
            }),
    {
        let mut deck = Deck::new();
        let ghost deck0 = deck@;
        let mut hand1 = Hand::new();
        let mut hand2 = Hand::new();

        let mut i: usize = 0;
        while i < CARDS_IN_HAND
            invariant
                i <= CARDS_IN_HAND,
                hand1@.len() == i,
                hand2@.len() == i,
                deck@.len() == 54 - 2 * i,
                deck0.len() == 54,
                forall|c: Card| card_valid(c) ==> deck0.contains(c),
                forall|a: int, b: int| 0 <= a < b < 54 ==> deck0[a] != deck0[b],
                (hand1@ + hand2@ + deck@).to_multiset() == deck0.to_multiset(),
            decreases CARDS_IN_HAND - i,
        {
            let ghost bh1 = hand1@;
            let ghost bh2 = hand2@;
            let ghost bd = deck@;
            let c1 = deck.draw();
            match c1 {
                Some(card) => hand1.add(card),
                None => (),
            }
            let c2 = deck.draw();
            match c2 {
                Some(card) => hand2.add(card),
                None => (),
            }
            proof {
                broadcast use vstd::seq_lib::group_to_multiset_ensures;
                broadcast use vstd::seq_lib::lemma_multiset_commutative;
                broadcast use vstd::multiset::group_multiset_axioms;

                let l1 = bd.last();
                let d1 = bd.drop_last();
                let l2 = d1.last();
                assert(bd =~= d1.push(l1));
                assert(d1 =~= deck@.push(l2));
                assert(hand1@ == bh1.push(l1));
                assert(hand2@ == bh2.push(l2));
                assert((hand1@ + hand2@ + deck@).to_multiset() =~= (bh1 + bh2 + bd).to_multiset());
            }
            i += 1;
        }

        proof {
            broadcast use vstd::seq_lib::group_to_multiset_ensures;

            let all = hand1@ + hand2@ + deck@;
            assert forall|c: Card| card_valid(c) implies all.contains(c) by {
                assert(deck0.to_multiset().count(c) > 0);
                assert(all.to_multiset().count(c) > 0);
            }
            assert(deck0.no_duplicates());
            deck0.lemma_multiset_has_no_duplicates();
            all.lemma_multiset_has_no_duplicates_conv();
            assert(all.no_duplicates());
        }
        Game { board: CardsOnBoard::new(), deck, hand1, hand2 }
    }

    /// The shared board, for callers that render or inspect it.
    pub fn board(&self) -> (r: &CardsOnBoard)
        requires
            self.wf(),
        ensures
            r.wf(),
    {
        &self.board
    }

    /// The turn left everything but, possibly, the claims ledger as it
    /// was: no card moved and nothing was drawn.
    pub open spec fn spec_no_move(pre: Game, post: Game, player: Player) -> bool {
        &&& post.spec_hand_cards(0) == pre.spec_hand_cards(0)
        &&& post.spec_hand_cards(1) == pre.spec_hand_cards(1)
        &&& post.spec_deck_cards() == pre.spec_deck_cards()
        &&& (forall|p: int, s: int|
            0 <= p < 2 && 0 <= s < 9 ==> post.spec_board().spec_hand(p, s) == pre.spec_board(
            ).spec_hand(p, s))
        &&& post.spec_board().spec_present() == pre.spec_board().spec_present()
        &&& (forall|s: int|
            0 <= s < 9 ==> post.spec_board().spec_adv(s) == pre.spec_board().spec_adv(s))
    }

    /// The turn moved the card at hand position `idx` of the player to
    /// stone `st`, which was unclaimed with room, and drew one
    /// replacement card from the deck if any remained.
    pub open spec fn spec_one_move(pre: Game, post: Game, player: Player, st: int, idx: int) -> bool {
        let pi = player.spec_index();
        let hand = pre.spec_hand_cards(pi);
        let c = hand[idx];
        &&& 0 <= st < 9
        &&& 0 <= idx < hand.len()
        &&& post.spec_board().spec_claims()[st] is None
        &&& pre.spec_board().spec_hand(pi, st).len() < 3
        &&& post.spec_board().spec_hand(pi, st) == pre.spec_board().spec_hand(pi, st).push(c)
        &&& (forall|p: int, s: int|
            0 <= p < 2 && 0 <= s < 9 && !(p == pi && s == st) ==> post.spec_board().spec_hand(
                p,
                s,
            ) == pre.spec_board().spec_hand(p, s))
        &&& post.spec_board().spec_present() == pre.spec_board().spec_present().insert(c)
        &&& (forall|s: int|
            0 <= s < 9 && s != st ==> post.spec_board().spec_adv(s) == pre.spec_board().spec_adv(
                s,
            ))
        &&& (if pre.spec_deck_cards().len() > 0 {
            post.spec_deck_cards() == pre.spec_deck_cards().drop_last() && post.spec_hand_cards(
                pi,
            ) == hand.update(idx, hand.last()).drop_last().push(pre.spec_deck_cards().last())
        } else {
            post.spec_deck_cards() == pre.spec_deck_cards() && post.spec_hand_cards(pi)
                == hand.update(idx, hand.last()).drop_last()
        })
    }

    /// One turn of the given player: attempt the strategy's claims, stop
    /// if the board is terminal, then play one card if possible and draw.
    /// The turn-taking loop around this is thin glue and lives with the
    /// program's entry point; each single turn is total and verified.
    pub fn make_move<T: PlayerTrait>(&mut self, player: Player, p_type: &T) -> (r: Option<Player>)
        requires
            old(self).wf(),
        ensures
            final(self).wf(),
            r == crate::terminal::spec_terminal(final(self).spec_board().spec_claims()),
            // Claims change only by this player legally claiming stones
            // that were still unclaimed.
            forall|s: int|
                0 <= s < 9 ==> final(self).spec_board().spec_claims()[s] == old(
                    self,
                ).spec_board().spec_claims()[s] || (old(self).spec_board().spec_claims()[s] is None
                    && final(self).spec_board().spec_claims()[s] == Some(player) && old(
                    self,
                ).spec_board().spec_legal_claim(player, crate::components::spec_stone(s))),
            // The opponent's hand is untouched.
            final(self).spec_hand_cards(1 - player.spec_index()) == old(self).spec_hand_cards(
                1 - player.spec_index(),
            ),
            // A reported winner ends the turn before any card moves.
            r is Some ==> Self::spec_no_move(*old(self), *final(self), player),
            // Otherwise either no move was possible, or exactly one card
            // left the player's hand for an open stone.
            r is None ==> Self::spec_no_move(*old(self), *final(self), player) || (exists|
                st: int,
                idx: int,
            | Self::spec_one_move(*old(self), *final(self), player, st, idx)),
    {
        proof {
            use_type_invariant(&player);
        }
        let hand = if player.get_index() == 0 {
            &self.hand1
        } else {
            &self.hand2
        };

        let attempts = p_type.claim(hand, &self.board, player);
        let mut k: usize = 0;
        while k < attempts.len()
            invariant
                self.board.wf(),
                old(self).board.wf(),
                k <= attempts@.len(),
                self.hand1 == old(self).hand1,
                self.hand2 == old(self).hand2,
                self.deck == old(self).deck,
                self.hand1@.len() <= CARDS_IN_HAND,
                self.hand2@.len() <= CARDS_IN_HAND,
                forall|p: int, s: int|
                    0 <= p < 2 && 0 <= s < 9 ==> self.board.spec_hand(p, s) == old(
                        self,
                    ).board.spec_hand(p, s),
                self.board.spec_present() == old(self).board.spec_present(),
                forall|s: int|
                    0 <= s < 9 ==> self.board.spec_adv(s) == old(self).board.spec_adv(s),
                forall|s: int|
                    0 <= s < 9 ==> self.board.spec_claims()[s] == old(self).board.spec_claims()[s]
                        || (old(self).board.spec_claims()[s] is None && self.board.spec_claims()[s]
                        == Some(player) && old(self).board.spec_legal_claim(
                        player,
                        crate::components::spec_stone(s),
                    )),
            decreases attempts@.len() - k,
        {
            let stone = attempts[k];
            let ghost bpre = self.board;
            let claimed = self.board.claim(player, stone);
            proof {
                use_type_invariant(&player);
                use_type_invariant(&stone);
                crate::components::lemma_spec_stone_index(stone.spec_index());
                bpre.lemma_wf_claims_len();
                self.board.lemma_wf_claims_len();
                old(self).board.lemma_wf_claims_len();
                // Legality never reads the claims ledger, so it is the
                // same question on the turn's starting board.
                assert(bpre.spec_legal_claim(player, stone) == old(self).board.spec_legal_claim(
                    player,
                    crate::components::spec_stone(stone.spec_index()),
                ));
                assert(claimed == (bpre.spec_claims()[stone.spec_index()] is None
                    && bpre.spec_legal_claim(player, stone)));
                assert(claimed ==> self.board.spec_claims() =~= bpre.spec_claims().update(
                    stone.spec_index(),
                    Some(player),
                ));
                assert(!claimed ==> self.board.spec_claims() == bpre.spec_claims());
                assert forall|s: int|
                    0 <= s < 9 implies self.board.spec_claims()[s] == old(
                    self,
                ).board.spec_claims()[s] || (old(self).board.spec_claims()[s] is None
                    && self.board.spec_claims()[s] == Some(player) && old(
                    self,
                ).board.spec_legal_claim(player, crate::components::spec_stone(s))) by {
                    if claimed && s == stone.spec_index() {
                        assert(bpre.spec_claims()[s] is None);
                        assert(bpre.spec_claims()[s] == old(self).board.spec_claims()[s]);
                    } else {
                        assert(self.board.spec_claims()[s] == bpre.spec_claims()[s]);
                    }
                }
            }
            k += 1;
        }

        if let Some(p) = self.board.terminal_state() {
            return Some(p);
        }
        let hand_len = if player.get_index() == 0 {
            self.hand1.len()
        } else {
            self.hand2.len()
        };
        if hand_len > 0 && self.board.any_available_stones_for(player) {
            let hand_ref = if player.get_index() == 0 {
                &self.hand1
            } else {
                &self.hand2
            };
            let (hand_index, chosen_stone) = p_type.choose_action(hand_ref, &self.board, player);
            let card = if player.get_index() == 0 {
                self.hand1.remove(hand_index)
            } else {
                self.hand2.remove(hand_index)
            };
            self.board.place_card(player, chosen_stone, card);

            let drawn = self.deck.draw();
            match drawn {
                Some(top) => {
                    if player.get_index() == 0 {
                        self.hand1.add(top);
                    } else {
                        self.hand2.add(top);
                    }
                },
                None => (),
            }
            proof {
                use_type_invariant(&chosen_stone);
                assert(Self::spec_one_move(
                    *old(self),
                    *self,
                    player,
                    chosen_stone.spec_index(),
                    hand_index as int,
                ));
            }
        } else {
            proof {
                assert(Self::spec_no_move(*old(self), *self, player));
            }
        }
        None
    }

}

} // verus!
