//! The claim-legality oracle's enumeration core: deciding whether any way
//! to complete the opponent's partial hand from the unseen universe would
//! beat a given strength.
//!
//! When the opponent's hand at a stone is short of three cards, its unknown
//! remainder could be any cards that are not yet present anywhere on the
//! board. A claim is safe only if no such completion reaches a strength
//! strictly above the claimant's: the claimant holds the tie-break
//! advantage there, having filled the stone first.

use vstd::prelude::*;

use crate::components::{
    all_cards, card_index, card_valid, is_universe, lemma_universe_covers, lemma_universe_index,
    Card,
};
use crate::present::PresentCards;
use crate::stonecards::{spec_strength, StoneCards};

verus! {

/// A card a hypothetical completion of the opponent's hand may draw: valid,
/// not present anywhere on the board, and not among the opponent's known
/// cards. On a real board the opponent's known cards are present anyway,
/// so the last condition is redundant there; stating it keeps the oracle
/// meaningful on arbitrary inputs and monotone in revealed information.
pub open spec fn completion_card_ok(c: Card, opp: Seq<Card>, present: Set<Card>) -> bool {
    card_valid(c) && !present.contains(c) && !opp.contains(c)
}

/// No completion of the opponent's partial hand `opp` to three cards, drawn
/// from the unseen universe with mutually distinct additions, reaches a
/// strength strictly above `ps`.
pub open spec fn no_completion_beats(ps: int, opp: Seq<Card>, present: Set<Card>) -> bool
    recommends
        opp.len() < 3,
{
    if opp.len() == 2 {
        forall|c: Card|
            completion_card_ok(c, opp, present) ==> spec_strength(opp.push(c)) <= ps
    } else if opp.len() == 1 {
        forall|c1: Card, c2: Card|
            #![trigger completion_card_ok(c1, opp, present), completion_card_ok(c2, opp, present)]
            completion_card_ok(c1, opp, present) && completion_card_ok(c2, opp, present) && c1
                != c2 ==> spec_strength(opp.push(c1).push(c2)) <= ps
    } else {
        forall|c1: Card, c2: Card, c3: Card|
            #![trigger completion_card_ok(c1, opp, present), completion_card_ok(c2, opp, present), completion_card_ok(c3, opp, present)]
            completion_card_ok(c1, opp, present) && completion_card_ok(c2, opp, present)
                && completion_card_ok(c3, opp, present) && c1 != c2 && c1 != c3 && c2 != c3
                ==> spec_strength(opp.push(c1).push(c2).push(c3)) <= ps
    }
}

/// Enumerate the single-card completions of a two-card opponent hand.
pub(crate) fn no_single_completion_beats(ps: u8, opp: &StoneCards, present: &PresentCards) -> (r:
    bool)
    requires
        opp.wf(),
        opp@.len() == 2,
        present.wf(),
    ensures
        r == no_completion_beats(ps as int, opp@, present@),
{
    let universe = all_cards();
    let mut i: usize = 0;
    while i < 54
        invariant
            i <= 54,
            is_universe(universe@),
            opp.wf(),
            opp@.len() == 2,
            present.wf(),
            forall|c: Card|
                #[trigger] completion_card_ok(c, opp@, present@) && card_index(c) < i
                    ==> spec_strength(opp@.push(c)) <= ps,
        decreases 54 - i,
    {
        let c = universe[i];
        proof {
            lemma_universe_index(universe@, i as int);
        }
        if !present.is_present(&c) && !opp.contains_card(&c) {
            let mut tmp = opp.duplicate();
            tmp.push(c);
            if tmp.strength() > ps {
                proof {
                    assert(completion_card_ok(c, opp@, present@));
                    assert(spec_strength(opp@.push(c)) > ps);
                }
                return false;
            }
        }
        proof {
            assert forall|c2: Card|
                #[trigger] completion_card_ok(c2, opp@, present@) && card_index(c2) < i
                    + 1 implies spec_strength(opp@.push(c2)) <= ps by {
                if card_index(c2) == i {
                    lemma_universe_covers(universe@, c2);
                }
            }
        }
        i += 1;
    }
    proof {
        assert forall|c: Card| #[trigger]
            completion_card_ok(c, opp@, present@) implies spec_strength(opp@.push(c)) <= ps by {
            lemma_universe_covers(universe@, c);
        }
    }
    true
}

/// Enumerate the two-card completions of a one-card opponent hand.
pub(crate) fn no_pair_completion_beats(ps: u8, opp: &StoneCards, present: &PresentCards) -> (r:
    bool)
    requires
        opp.wf(),
        opp@.len() == 1,
        present.wf(),
    ensures
        r == no_completion_beats(ps as int, opp@, present@),
{
    let universe = all_cards();
    let mut i: usize = 0;
    while i < 54
        invariant
            i <= 54,
            is_universe(universe@),
            opp.wf(),
            opp@.len() == 1,
            present.wf(),
            forall|c1: Card, c2: Card|
                #![trigger completion_card_ok(c1, opp@, present@), completion_card_ok(c2, opp@, present@)]
                completion_card_ok(c1, opp@, present@) && completion_card_ok(c2, opp@, present@)
                    && c1 != c2 && card_index(c1) < i ==> spec_strength(opp@.push(c1).push(c2))
                    <= ps,
        decreases 54 - i,
    {
        let c1 = universe[i];
        proof {
            lemma_universe_index(universe@, i as int);
        }
        if !present.is_present(&c1) && !opp.contains_card(&c1) {
            let mut j: usize = 0;
            while j < 54
                invariant
                    j <= 54,
                    is_universe(universe@),
                    opp.wf(),
                    opp@.len() == 1,
                    present.wf(),
                    c1 == universe@[i as int],
                    completion_card_ok(c1, opp@, present@),
                    forall|c2: Card|
                        #[trigger] completion_card_ok(c2, opp@, present@) && c2 != c1
                            && card_index(c2) < j ==> spec_strength(opp@.push(c1).push(c2)) <= ps,
                decreases 54 - j,
            {
                let c2 = universe[j];
                proof {
                    lemma_universe_index(universe@, j as int);
                }
                if !c1.same_card(&c2) && !present.is_present(&c2) && !opp.contains_card(&c2) {
                    let mut tmp = opp.duplicate();
                    tmp.push(c1);
                    tmp.push(c2);
                    if tmp.strength() > ps {
                        proof {
                            assert(completion_card_ok(c2, opp@, present@));
                            assert(spec_strength(opp@.push(c1).push(c2)) > ps);
                        }
                        return false;
                    }
                }
                proof {
                    assert forall|d: Card|
                        #[trigger] completion_card_ok(d, opp@, present@) && d != c1 && card_index(
                            d,
                        ) < j + 1 implies spec_strength(opp@.push(c1).push(d)) <= ps by {
                        if card_index(d) == j {
                            lemma_universe_covers(universe@, d);
                        }
                    }
                }
                j += 1;
            }
            proof {
                assert forall|d: Card|
                    #[trigger] completion_card_ok(d, opp@, present@) && d
                        != c1 implies spec_strength(opp@.push(c1).push(d)) <= ps by {
                    lemma_universe_covers(universe@, d);
                }
            }
        }
        proof {
            assert forall|d1: Card, d2: Card|
                #![trigger completion_card_ok(d1, opp@, present@), completion_card_ok(d2, opp@, present@)]
                completion_card_ok(d1, opp@, present@) && completion_card_ok(d2, opp@, present@)
                    && d1 != d2 && card_index(d1) < i + 1 implies spec_strength(
                opp@.push(d1).push(d2),
            ) <= ps by {
                if card_index(d1) == i {
                    lemma_universe_covers(universe@, d1);
                }
            }
        }
        i += 1;
    }
    proof {
        assert forall|d1: Card, d2: Card|
            #![trigger completion_card_ok(d1, opp@, present@), completion_card_ok(d2, opp@, present@)]
            completion_card_ok(d1, opp@, present@) && completion_card_ok(d2, opp@, present@) && d1
                != d2 implies spec_strength(opp@.push(d1).push(d2)) <= ps by {
            lemma_universe_covers(universe@, d1);
        }
    }
    true
}

/// Enumerate the three-card completions of an empty opponent hand.
pub(crate) fn no_triple_completion_beats(ps: u8, opp: &StoneCards, present: &PresentCards) -> (r:
    bool)
    requires
        opp.wf(),
        opp@.len() == 0,
        present.wf(),
    ensures
        r == no_completion_beats(ps as int, opp@, present@),
{
    let universe = all_cards();
    let mut i: usize = 0;
    while i < 54
        invariant
            i <= 54,
            is_universe(universe@),
            opp.wf(),
            opp@.len() == 0,
            present.wf(),
            forall|c1: Card, c2: Card, c3: Card|
                #![trigger completion_card_ok(c1, opp@, present@), completion_card_ok(c2, opp@, present@), completion_card_ok(c3, opp@, present@)]
                completion_card_ok(c1, opp@, present@) && completion_card_ok(c2, opp@, present@)
                    && completion_card_ok(c3, opp@, present@) && c1 != c2 && c1 != c3 && c2 != c3
                    && card_index(c1) < i ==> spec_strength(opp@.push(c1).push(c2).push(c3)) <= ps,
        decreases 54 - i,
    {
        let c1 = universe[i];
        proof {
            lemma_universe_index(universe@, i as int);
        }
        if !present.is_present(&c1) && !opp.contains_card(&c1) {
            let mut j: usize = 0;
            while j < 54
                invariant
                    j <= 54,
                    is_universe(universe@),
                    opp.wf(),
                    opp@.len() == 0,
                    present.wf(),
                    c1 == universe@[i as int],
                    completion_card_ok(c1, opp@, present@),
                    forall|c2: Card, c3: Card|
                        #![trigger completion_card_ok(c2, opp@, present@), completion_card_ok(c3, opp@, present@)]
                        completion_card_ok(c2, opp@, present@) && completion_card_ok(
                            c3,
                            opp@,
                            present@,
                        ) && c2 != c1 && c3 != c1 && c2 != c3 && card_index(c2) < j
                            ==> spec_strength(opp@.push(c1).push(c2).push(c3)) <= ps,
                decreases 54 - j,
            {
                let c2 = universe[j];
                proof {
                    lemma_universe_index(universe@, j as int);
                }
                if !c1.same_card(&c2) && !present.is_present(&c2) && !opp.contains_card(&c2) {
                    let mut k: usize = 0;
                    while k < 54
                        invariant
                            k <= 54,
                            is_universe(universe@),
                            opp.wf(),
                            opp@.len() == 0,
                            present.wf(),
                            completion_card_ok(c1, opp@, present@),
                            completion_card_ok(c2, opp@, present@),
                            c1 != c2,
                            forall|c3: Card|
                                #[trigger] completion_card_ok(c3, opp@, present@) && c3 != c1 && c3
                                    != c2 && card_index(c3) < k ==> spec_strength(
                                    opp@.push(c1).push(c2).push(c3),
                                ) <= ps,
                        decreases 54 - k,
                    {
                        let c3 = universe[k];
                        proof {
                            lemma_universe_index(universe@, k as int);
                        }
                        if !c1.same_card(&c3) && !c2.same_card(&c3) && !present.is_present(&c3)
                            && !opp.contains_card(&c3) {
                            let mut tmp = opp.duplicate();
                            tmp.push(c1);
                            tmp.push(c2);
                            tmp.push(c3);
                            if tmp.strength() > ps {
                                proof {
                                    assert(completion_card_ok(c3, opp@, present@));
                                    assert(spec_strength(opp@.push(c1).push(c2).push(c3)) > ps);
                                }
                                return false;
                            }
                        }
                        proof {
                            assert forall|d: Card|
                                #[trigger] completion_card_ok(d, opp@, present@) && d != c1 && d
                                    != c2 && card_index(d) < k + 1 implies spec_strength(
                                opp@.push(c1).push(c2).push(d),
                            ) <= ps by {
                                if card_index(d) == k {
                                    lemma_universe_covers(universe@, d);
                                }
                            }
                        }
                        k += 1;
                    }
                    proof {
                        assert forall|d: Card|
                            #[trigger] completion_card_ok(d, opp@, present@) && d != c1 && d
                                != c2 implies spec_strength(opp@.push(c1).push(c2).push(d))
                            <= ps by {
                            lemma_universe_covers(universe@, d);
                        }
                    }
                }
                proof {
                    assert forall|d2: Card, d3: Card|
                        #![trigger completion_card_ok(d2, opp@, present@), completion_card_ok(d3, opp@, present@)]
                        completion_card_ok(d2, opp@, present@) && completion_card_ok(
                            d3,
                            opp@,
                            present@,
                        ) && d2 != c1 && d3 != c1 && d2 != d3 && card_index(d2) < j
                            + 1 implies spec_strength(opp@.push(c1).push(d2).push(d3)) <= ps by {
                        if card_index(d2) == j {
                            lemma_universe_covers(universe@, d2);
                        }
                    }
                }
                j += 1;
            }
            proof {
                assert forall|d2: Card, d3: Card|
                    #![trigger completion_card_ok(d2, opp@, present@), completion_card_ok(d3, opp@, present@)]
                    completion_card_ok(d2, opp@, present@) && completion_card_ok(
                        d3,
                        opp@,
                        present@,
                    ) && d2 != c1 && d3 != c1 && d2 != d3 implies spec_strength(
                    opp@.push(c1).push(d2).push(d3),
                ) <= ps by {
                    lemma_universe_covers(universe@, d2);
                }
            }
        }
        proof {
            assert forall|d1: Card, d2: Card, d3: Card|
                #![trigger completion_card_ok(d1, opp@, present@), completion_card_ok(d2, opp@, present@), completion_card_ok(d3, opp@, present@)]
                completion_card_ok(d1, opp@, present@) && completion_card_ok(d2, opp@, present@)
                    && completion_card_ok(d3, opp@, present@) && d1 != d2 && d1 != d3 && d2 != d3
                    && card_index(d1) < i + 1 implies spec_strength(opp@.push(d1).push(d2).push(d3))
                <= ps by {
                if card_index(d1) == i {
                    lemma_universe_covers(universe@, d1);
                }
            }
        }
        i += 1;
    }
    proof {
        assert forall|d1: Card, d2: Card, d3: Card|
            #![trigger completion_card_ok(d1, opp@, present@), completion_card_ok(d2, opp@, present@), completion_card_ok(d3, opp@, present@)]
            completion_card_ok(d1, opp@, present@) && completion_card_ok(d2, opp@, present@)
                && completion_card_ok(d3, opp@, present@) && d1 != d2 && d1 != d3 && d2
                != d3 implies spec_strength(opp@.push(d1).push(d2).push(d3)) <= ps by {
            lemma_universe_covers(universe@, d1);
        }
    }
    true
}

/// Marking one more card as present never revives a beating completion:
/// the unseen universe only shrinks, so every completion considered
/// afterward was already considered before.
pub proof fn lemma_present_monotonic(ps: int, opp: Seq<Card>, present: Set<Card>, c: Card)
    requires
        opp.len() < 3,
    ensures
        no_completion_beats(ps, opp, present) ==> no_completion_beats(ps, opp, present.insert(c)),
{
    if no_completion_beats(ps, opp, present) {
        let bigger = present.insert(c);
        if opp.len() == 2 {
            assert forall|d: Card|
                #[trigger] completion_card_ok(d, opp, bigger) implies spec_strength(opp.push(d))
                <= ps by {
                assert(completion_card_ok(d, opp, present));
            }
        } else if opp.len() == 1 {
            assert forall|d1: Card, d2: Card|
                #![trigger completion_card_ok(d1, opp, bigger), completion_card_ok(d2, opp, bigger)]
                completion_card_ok(d1, opp, bigger) && completion_card_ok(d2, opp, bigger) && d1
                    != d2 implies spec_strength(opp.push(d1).push(d2)) <= ps by {
                assert(completion_card_ok(d1, opp, present) && completion_card_ok(
                    d2,
                    opp,
                    present,
                ));
            }
        } else {
            assert forall|d1: Card, d2: Card, d3: Card|
                #![trigger completion_card_ok(d1, opp, bigger), completion_card_ok(d2, opp, bigger), completion_card_ok(d3, opp, bigger)]
                completion_card_ok(d1, opp, bigger) && completion_card_ok(d2, opp, bigger)
                    && completion_card_ok(d3, opp, bigger) && d1 != d2 && d1 != d3 && d2
                    != d3 implies spec_strength(opp.push(d1).push(d2).push(d3)) <= ps by {
                assert(completion_card_ok(d1, opp, present) && completion_card_ok(d2, opp, present)
                    && completion_card_ok(d3, opp, present));
            }
        }
    }
}

/// Revealing one more of the opponent's cards never makes a legal claim
/// illegal: if no completion of `opp` beats `ps`, and one unseen card `c`
/// is revealed as part of the opponent's hand, then no completion of the
/// extended hand beats `ps` either; once the reveal makes the hand full,
/// its strength does not exceed `ps`.
pub proof fn lemma_reveal_monotonic(ps: int, opp: Seq<Card>, c: Card, present: Set<Card>)
    requires
        opp.len() < 3,
        completion_card_ok(c, opp, present),
    ensures
        no_completion_beats(ps, opp, present) ==> (if opp.len() == 2 {
            spec_strength(opp.push(c)) <= ps
        } else {
            no_completion_beats(ps, opp.push(c), present)
        }),
{
    if !no_completion_beats(ps, opp, present) {
        return ;
    }
    let ext = opp.push(c);
    assert(ext[opp.len() as int] == c);
    assert(ext.contains(c));
    if opp.len() == 2 {
        assert(spec_strength(opp.push(c)) <= ps);
    } else if opp.len() == 1 {
        assert forall|d: Card|
            #[trigger] completion_card_ok(d, ext, present) implies spec_strength(ext.push(d))
            <= ps by {
            assert(d != c);
            assert(!opp.contains(d)) by {
                if opp.contains(d) {
                    let w = choose|w: int| 0 <= w < opp.len() && opp[w] == d;
                    assert(ext[w] == d);
                    assert(ext.contains(d));
                }
            }
            assert(completion_card_ok(d, opp, present));
            assert(spec_strength(opp.push(c).push(d)) <= ps);
        }
    } else {
        assert forall|d1: Card, d2: Card|
            #![trigger completion_card_ok(d1, ext, present), completion_card_ok(d2, ext, present)]
            completion_card_ok(d1, ext, present) && completion_card_ok(d2, ext, present) && d1
                != d2 implies spec_strength(ext.push(d1).push(d2)) <= ps by {
            assert(d1 != c && d2 != c);
            assert(!opp.contains(d1) && !opp.contains(d2)) by {
                if opp.contains(d1) {
                    let w = choose|w: int| 0 <= w < opp.len() && opp[w] == d1;
                    assert(ext[w] == d1);
                    assert(ext.contains(d1));
                }
                if opp.contains(d2) {
                    let w = choose|w: int| 0 <= w < opp.len() && opp[w] == d2;
                    assert(ext[w] == d2);
                    assert(ext.contains(d2));
                }
            }
            assert(completion_card_ok(d1, opp, present) && completion_card_ok(d2, opp, present));
            assert(spec_strength(opp.push(c).push(d1).push(d2)) <= ps);
        }
    }
}

} // verus!
