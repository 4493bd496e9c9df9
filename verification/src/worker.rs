//! The enumeration cache's working layer: generators that list every way
//! to complete a partial position-hand to three cards, ascending by the
//! strength of the completed hand, and the collector that materializes
//! those completions lazily for consumers holding a cursor.
//!
//! Completions are kept in a canonical shape: their cards strictly
//! ascending by universe rank, so each set of added cards appears exactly
//! once. The collector's output, filtered of entries that reference a
//! now-present card, is identical in membership and relative strength
//! order to what brute-force enumeration would produce: the cache is a
//! performance device, never a source of semantic divergence.

use vstd::prelude::*;

use crate::components::{
    all_cards, card_index, card_valid, is_universe, lemma_universe_covers, lemma_universe_index,
    spec_card, Card,
};
use crate::stonecards::{cards_wf, lemma_strength_range, spec_strength, valid_hand3, StoneCards};

verus! {

/// A canonical completion of `job` to three cards: the added cards are
/// valid, outside the job, and strictly ascending by universe rank.
pub open spec fn entry_ok(e: Seq<Card>, job: Seq<Card>) -> bool {
    &&& e.len() + job.len() == 3
    &&& (forall|i: int| 0 <= i < e.len() ==> card_valid(#[trigger] e[i]) && !job.contains(e[i]))
    &&& (forall|i: int, j: int| 0 <= i < j < e.len() ==> card_index(e[i]) < card_index(e[j]))
}

/// Every listed completion is a canonical completion of the job.
pub open spec fn col_valid(es: Seq<Vec<Card>>, job: Seq<Card>) -> bool {
    forall|k: int| 0 <= k < es.len() ==> entry_ok((#[trigger] es[k])@, job)
}

/// The completions are listed ascending by completed-hand strength.
pub open spec fn col_sorted(es: Seq<Vec<Card>>, job: Seq<Card>) -> bool {
    forall|a: int, b: int|
        0 <= a < b < es.len() ==> spec_strength(job + (#[trigger] es[a])@) <= spec_strength(
            job + (#[trigger] es[b])@,
        )
}

/// No completion is listed twice.
pub open spec fn col_distinct(es: Seq<Vec<Card>>) -> bool {
    forall|a: int, b: int| 0 <= a < b < es.len() ==> (#[trigger] es[a])@ != (#[trigger] es[b])@
}

pub open spec fn col_contains(es: Seq<Vec<Card>>, e: Seq<Card>) -> bool {
    exists|k: int| 0 <= k < es.len() && (#[trigger] es[k])@ == e
}

/// Every canonical completion of the job is listed.
pub open spec fn col_complete(es: Seq<Vec<Card>>, job: Seq<Card>) -> bool {
    forall|e: Seq<Card>| #[trigger] entry_ok(e, job) ==> col_contains(es, e)
}

/// All single-card completions of a two-card hand, ascending by the
/// strength of the completed hand: the generator a two-known job uses.
pub fn two(cards: &StoneCards) -> (r: Vec<Card>)
    requires
        cards.wf(),
        cards@.len() == 2,
    ensures
        forall|a: int, b: int|
            0 <= a < b < r@.len() ==> spec_strength(cards@.push(r@[a])) <= spec_strength(
                cards@.push(r@[b]),
            ),
        forall|j: int|
            0 <= j < r@.len() ==> card_valid(#[trigger] r@[j]) && !cards@.contains(r@[j]),
        forall|a: int, b: int| 0 <= a < b < r@.len() ==> r@[a] != r@[b],
        forall|c: Card| card_valid(c) && !cards@.contains(c) ==> r@.contains(c),
{
    let universe = all_cards();
    let mut out: Vec<Card> = Vec::new();
    let mut s: u8 = 4;
    while s <= 72
        invariant
            4 <= s <= 73,
            is_universe(universe@),
            cards.wf(),
            cards@.len() == 2,
            forall|j: int|
                0 <= j < out@.len() ==> card_valid(#[trigger] out@[j]) && !cards@.contains(
                    out@[j],
                ) && spec_strength(cards@.push(out@[j])) < s,
            forall|a: int, b: int|
                0 <= a < b < out@.len() ==> spec_strength(cards@.push(out@[a])) <= spec_strength(
                    cards@.push(out@[b]),
                ),
            forall|a: int, b: int| 0 <= a < b < out@.len() ==> out@[a] != out@[b],
            forall|c: Card|
                card_valid(c) && !cards@.contains(c) && spec_strength(cards@.push(c)) < s
                    ==> out@.contains(c),
        decreases 73 - s,
    {
        let mut i: usize = 0;
        while i < 54
            invariant
                i <= 54,
                4 <= s <= 72,
                is_universe(universe@),
                cards.wf(),
                cards@.len() == 2,
                forall|j: int|
                    0 <= j < out@.len() ==> card_valid(#[trigger] out@[j]) && !cards@.contains(
                        out@[j],
                    ) && spec_strength(cards@.push(out@[j])) <= s,
                forall|j: int|
                    0 <= j < out@.len() && spec_strength(cards@.push(#[trigger] out@[j])) == s
                        ==> card_index(out@[j]) < i,
                forall|a: int, b: int|
                    0 <= a < b < out@.len() ==> spec_strength(cards@.push(out@[a]))
                        <= spec_strength(cards@.push(out@[b])),
                forall|a: int, b: int| 0 <= a < b < out@.len() ==> out@[a] != out@[b],
                forall|c: Card|
                    card_valid(c) && !cards@.contains(c) && spec_strength(cards@.push(c)) < s
                        ==> out@.contains(c),
                forall|c: Card|
                    card_valid(c) && !cards@.contains(c) && spec_strength(cards@.push(c)) == s
                        && card_index(c) < i ==> out@.contains(c),
            decreases 54 - i,
        {
            let ghost out0 = out@;
            let c = universe[i];
            proof {
                lemma_universe_index(universe@, i as int);
            }
            if !cards.contains_card(&c) {
                let mut tmp = cards.duplicate();
                tmp.push(c);
                if tmp.strength() == s {
                    out.push(c);
                    proof {
                        assert(out@[out@.len() - 1] == c);
                    }
                }
            }
            proof {
                assert forall|c2: Card|
                    card_valid(c2) && !cards@.contains(c2) && spec_strength(cards@.push(c2)) < s
                        implies out@.contains(c2) by {
                    let k = choose|k: int| 0 <= k < out0.len() && out0[k] == c2;
                    assert(out@[k] == c2);
                }
                assert forall|c2: Card|
                    card_valid(c2) && !cards@.contains(c2) && spec_strength(cards@.push(c2)) == s
                        && card_index(c2) < i + 1 implies out@.contains(c2) by {
                    if card_index(c2) == i {
                        lemma_universe_covers(universe@, c2);
                        assert(c2 == c);
                        assert(out@[out@.len() - 1] == c2);
                    } else {
                        let k = choose|k: int| 0 <= k < out0.len() && out0[k] == c2;
                        assert(out@[k] == c2);
                    }
                }
            }
            i += 1;
        }
        proof {
            assert forall|c: Card|
                card_valid(c) && !cards@.contains(c) && spec_strength(cards@.push(c)) < s
                    + 1 implies out@.contains(c) by {
                lemma_universe_covers(universe@, c);
            }
        }
        s += 1;
    }
    proof {
        assert forall|c: Card| card_valid(c) && !cards@.contains(c) implies out@.contains(c) by {
            assert(valid_hand3(cards@.push(c)));
            lemma_strength_range(cards@.push(c));
        }
    }
    out
}

/// Every canonical two-card completion of a one-card hand, in rank order
/// of their card pairs (not yet by strength).
fn gen_pairs(job: &StoneCards) -> (r: Vec<Vec<Card>>)
    requires
        job.wf(),
        job@.len() == 1,
    ensures
        col_valid(r@, job@),
        col_distinct(r@),
        col_complete(r@, job@),
{
    let universe = all_cards();
    let mut out: Vec<Vec<Card>> = Vec::new();
    let mut i: usize = 0;
    while i < 54
        invariant
            i <= 54,
            is_universe(universe@),
            job.wf(),
            job@.len() == 1,
            col_valid(out@, job@),
            col_distinct(out@),
            forall|k: int| 0 <= k < out@.len() ==> card_index((#[trigger] out@[k])@[0]) < i,
            forall|e: Seq<Card>|
                #[trigger] entry_ok(e, job@) && card_index(e[0]) < i ==> col_contains(out@, e),
        decreases 54 - i,
    {
        let c1 = universe[i];
        proof {
            lemma_universe_index(universe@, i as int);
        }
        if !job.contains_card(&c1) {
            let mut j: usize = i + 1;
            while j < 54
                invariant
                    i < 54,
                    i + 1 <= j <= 54,
                    is_universe(universe@),
                    job.wf(),
                    job@.len() == 1,
                    c1 == universe@[i as int],
                    card_valid(c1),
                    card_index(c1) == i,
                    !job@.contains(c1),
                    col_valid(out@, job@),
                    col_distinct(out@),
                    forall|k: int|
                        0 <= k < out@.len() ==> card_index((#[trigger] out@[k])@[0]) < i || (
                        out@[k]@[0] == c1 && card_index(out@[k]@[1]) < j),
                    forall|e: Seq<Card>|
                        #[trigger] entry_ok(e, job@) && card_index(e[0]) < i ==> col_contains(
                            out@,
                            e,
                        ),
                    forall|e: Seq<Card>|
                        #[trigger] entry_ok(e, job@) && e[0] == c1 && card_index(e[1]) < j
                            ==> col_contains(out@, e),
                decreases 54 - j,
            {
                let ghost out0 = out@;
                let c2 = universe[j];
                proof {
                    lemma_universe_index(universe@, j as int);
                }
                if !job.contains_card(&c2) {
                    let mut e: Vec<Card> = Vec::new();
                    e.push(c1);
                    e.push(c2);
                    proof {
                        assert(e@ =~= seq![c1, c2]);
                        assert(entry_ok(e@, job@));
                    }
                    out.push(e);
                    proof {
                        assert(out@[out@.len() - 1]@ =~= seq![c1, c2]);
                    }
                }
                proof {
                    assert forall|e2: Seq<Card>|
                        #[trigger] entry_ok(e2, job@) && card_index(e2[0]) < i implies
                    col_contains(out@, e2) by {
                        let k = choose|k: int| 0 <= k < out0.len() && (#[trigger] out0[k])@ == e2;
                        assert(out@[k]@ == e2);
                    }
                    assert forall|e2: Seq<Card>|
                        #[trigger] entry_ok(e2, job@) && e2[0] == c1 && card_index(e2[1]) < j
                            + 1 implies col_contains(out@, e2) by {
                        if card_index(e2[1]) == j {
                            lemma_universe_covers(universe@, e2[1]);
                            assert(e2[1] == c2);
                            assert(e2 =~= seq![c1, c2]);
                            assert(out@[out@.len() - 1]@ == e2);
                        } else {
                            let k = choose|k: int|
                                0 <= k < out0.len() && (#[trigger] out0[k])@ == e2;
                            assert(out@[k]@ == e2);
                        }
                    }
                }
                j += 1;
            }
            proof {
                assert forall|e2: Seq<Card>|
                    #[trigger] entry_ok(e2, job@) && card_index(e2[0]) < i + 1 implies
                col_contains(out@, e2) by {
                    if card_index(e2[0]) == i {
                        lemma_universe_covers(universe@, e2[0]);
                        assert(e2[0] == c1);
                        lemma_universe_covers(universe@, e2[1]);
                        assert(card_index(e2[1]) < 54);
                    }
                }
            }
        } else {
            proof {
                assert forall|e2: Seq<Card>|
                    #[trigger] entry_ok(e2, job@) && card_index(e2[0]) < i + 1 implies
                col_contains(out@, e2) by {
                    if card_index(e2[0]) == i {
                        lemma_universe_covers(universe@, e2[0]);
                        assert(e2[0] == c1);
                        assert(!job@.contains(e2[0]));
                    }
                }
            }
        }
        i += 1;
    }
    out
}

/// Every canonical three-card completion of an empty hand, in rank order
/// of their card triples (not yet by strength).
fn gen_triples(job: &StoneCards) -> (r: Vec<Vec<Card>>)
    requires
        job.wf(),
        job@.len() == 0,
    ensures
        col_valid(r@, job@),
        col_distinct(r@),
        col_complete(r@, job@),
{
    let universe = all_cards();
    let mut out: Vec<Vec<Card>> = Vec::new();
    let mut i: usize = 0;
    while i < 54
        invariant
            i <= 54,
            is_universe(universe@),
            job@.len() == 0,
            col_valid(out@, job@),
            col_distinct(out@),
            forall|k: int| 0 <= k < out@.len() ==> card_index((#[trigger] out@[k])@[0]) < i,
            forall|e: Seq<Card>|
                #[trigger] entry_ok(e, job@) && card_index(e[0]) < i ==> col_contains(out@, e),
        decreases 54 - i,
    {
        let c1 = universe[i];
        proof {
            lemma_universe_index(universe@, i as int);
        }
        let mut j: usize = i + 1;
        while j < 54
            invariant
                i < 54,
                i + 1 <= j <= 54,
                is_universe(universe@),
                job@.len() == 0,
                c1 == universe@[i as int],
                card_valid(c1),
                card_index(c1) == i,
                col_valid(out@, job@),
                col_distinct(out@),
                forall|k: int|
                    0 <= k < out@.len() ==> card_index((#[trigger] out@[k])@[0]) < i || (
                    out@[k]@[0] == c1 && card_index(out@[k]@[1]) < j),
                forall|e: Seq<Card>|
                    #[trigger] entry_ok(e, job@) && card_index(e[0]) < i ==> col_contains(out@, e),
                forall|e: Seq<Card>|
                    #[trigger] entry_ok(e, job@) && e[0] == c1 && card_index(e[1]) < j
                        ==> col_contains(out@, e),
            decreases 54 - j,
        {
            let c2 = universe[j];
            proof {
                lemma_universe_index(universe@, j as int);
            }
            let mut m: usize = j + 1;
            while m < 54
                invariant
                    i < 54,
                    i < j < 54,
                    j + 1 <= m <= 54,
                    is_universe(universe@),
                    job@.len() == 0,
                    c1 == universe@[i as int],
                    card_valid(c1),
                    card_index(c1) == i,
                    c2 == universe@[j as int],
                    card_valid(c2),
                    card_index(c2) == j,
                    col_valid(out@, job@),
                    col_distinct(out@),
                    forall|k: int|
                        0 <= k < out@.len() ==> card_index((#[trigger] out@[k])@[0]) < i || (
                        out@[k]@[0] == c1 && (card_index(out@[k]@[1]) < j || (out@[k]@[1] == c2
                            && card_index(out@[k]@[2]) < m))),
                    forall|e: Seq<Card>|
                        #[trigger] entry_ok(e, job@) && card_index(e[0]) < i ==> col_contains(
                            out@,
                            e,
                        ),
                    forall|e: Seq<Card>|
                        #[trigger] entry_ok(e, job@) && e[0] == c1 && card_index(e[1]) < j
                            ==> col_contains(out@, e),
                    forall|e: Seq<Card>|
                        #[trigger] entry_ok(e, job@) && e[0] == c1 && e[1] == c2 && card_index(
                            e[2],
                        ) < m ==> col_contains(out@, e),
                decreases 54 - m,
            {
                let ghost out0 = out@;
                let c3 = universe[m];
                proof {
                    lemma_universe_index(universe@, m as int);
                }
                let mut e: Vec<Card> = Vec::new();
                e.push(c1);
                e.push(c2);
                e.push(c3);
                proof {
                    assert(e@ =~= seq![c1, c2, c3]);
                    assert(entry_ok(e@, job@));
                }
                out.push(e);
                proof {
                    assert(out@[out@.len() - 1]@ =~= seq![c1, c2, c3]);
                    assert forall|e2: Seq<Card>|
                        #[trigger] entry_ok(e2, job@) && card_index(e2[0]) < i implies
                    col_contains(out@, e2) by {
                        let k = choose|k: int| 0 <= k < out0.len() && (#[trigger] out0[k])@ == e2;
                        assert(out@[k]@ == e2);
                    }
                    assert forall|e2: Seq<Card>|
                        #[trigger] entry_ok(e2, job@) && e2[0] == c1 && card_index(e2[1])
                            < j implies col_contains(out@, e2) by {
                        let k = choose|k: int| 0 <= k < out0.len() && (#[trigger] out0[k])@ == e2;
                        assert(out@[k]@ == e2);
                    }
                    assert forall|e2: Seq<Card>|
                        #[trigger] entry_ok(e2, job@) && e2[0] == c1 && e2[1] == c2 && card_index(
                            e2[2],
                        ) < m + 1 implies col_contains(out@, e2) by {
                        if card_index(e2[2]) == m {
                            lemma_universe_covers(universe@, e2[2]);
                            assert(e2[2] == c3);
                            assert(e2 =~= seq![c1, c2, c3]);
                            assert(out@[out@.len() - 1]@ == e2);
                        } else {
                            let k = choose|k: int|
                                0 <= k < out0.len() && (#[trigger] out0[k])@ == e2;
                            assert(out@[k]@ == e2);
                        }
                    }
                }
                m += 1;
            }
            proof {
                assert forall|e2: Seq<Card>|
                    #[trigger] entry_ok(e2, job@) && e2[0] == c1 && card_index(e2[1]) < j
                        + 1 implies col_contains(out@, e2) by {
                    if card_index(e2[1]) == j {
                        lemma_universe_covers(universe@, e2[1]);
                        assert(e2[1] == c2);
                        lemma_universe_covers(universe@, e2[2]);
                        assert(card_index(e2[2]) < 54);
                    }
                }
            }
            j += 1;
        }
        proof {
            assert forall|e2: Seq<Card>|
                #[trigger] entry_ok(e2, job@) && card_index(e2[0]) < i + 1 implies col_contains(
                out@,
                e2,
            ) by {
                if card_index(e2[0]) == i {
                    lemma_universe_covers(universe@, e2[0]);
                    assert(e2[0] == c1);
                    lemma_universe_covers(universe@, e2[1]);
                    assert(card_index(e2[1]) < 54);
                }
            }
        }
        i += 1;
    }
    out
}

fn clone_entry(v: &Vec<Card>) -> (r: Vec<Card>)
    ensures
        r@ == v@,
{
    let mut out: Vec<Card> = Vec::new();
    let mut i: usize = 0;
    while i < v.len()
        invariant
            i <= v@.len(),
            out@ =~= v@.subrange(0, i as int),
        decreases v@.len() - i,
    {
        out.push(v[i]);
        i += 1;
    }
    proof {
        assert(out@ =~= v@);
    }
    out
}

/// Stable distribution of the completions into ascending strength order:
/// one pass per possible strength keeps equal-strength completions in
/// the relative order they were generated in.
fn sort_by_strength(job: &StoneCards, items: Vec<Vec<Card>>) -> (r: Vec<Vec<Card>>)
    requires
        job.wf(),
        job@.len() < 3,
        col_valid(items@, job@),
        col_distinct(items@),
    ensures
        col_valid(r@, job@),
        col_sorted(r@, job@),
        col_distinct(r@),
        forall|e: Seq<Card>| col_contains(items@, e) ==> col_contains(r@, e),
{
    let n = items.len();
    let mut strengths: Vec<u8> = Vec::new();
    let mut idx: usize = 0;
    while idx < n
        invariant
            idx <= n,
            n == items@.len(),
            job.wf(),
            job@.len() < 3,
            col_valid(items@, job@),
            strengths@.len() == idx,
            forall|k: int|
                0 <= k < idx ==> strengths@[k] == spec_strength(job@ + (#[trigger] items@[k])@),
        decreases n - idx,
    {
        let entry = &items[idx];
        let mut tmp = job.duplicate();
        proof {
            assert(tmp@ =~= job@ + entry@.subrange(0, 0));
        }
        let mut mth: usize = 0;
        while mth < entry.len()
            invariant
                mth <= entry@.len(),
                job@.len() + entry@.len() == 3,
                entry_ok(entry@, job@),
                tmp.wf(),
                tmp@ == job@ + entry@.subrange(0, mth as int),
            decreases entry@.len() - mth,
        {
            tmp.push(entry[mth]);
            proof {
                assert(tmp@ =~= job@ + entry@.subrange(0, mth + 1));
            }
            mth += 1;
        }
        proof {
            assert(tmp@ == job@ + entry@) by {
                assert(entry@.subrange(0, entry@.len() as int) =~= entry@);
            }
        }
        let st = tmp.strength();
        strengths.push(st);
        idx += 1;
    }
    let mut out: Vec<Vec<Card>> = Vec::new();
    let mut s: u8 = 4;
    while s <= 72
        invariant
            4 <= s <= 73,
            n == items@.len(),
            strengths@.len() == n,
            job.wf(),
            job@.len() < 3,
            col_valid(items@, job@),
            col_distinct(items@),
            forall|k: int|
                0 <= k < n ==> strengths@[k] == spec_strength(job@ + (#[trigger] items@[k])@),
            col_valid(out@, job@),
            col_sorted(out@, job@),
            col_distinct(out@),
            forall|k: int|
                0 <= k < out@.len() ==> spec_strength(job@ + (#[trigger] out@[k])@) < s,
            forall|k: int| 0 <= k < out@.len() ==> col_contains(items@, (#[trigger] out@[k])@),
            forall|k: int|
                0 <= k < n && strengths@[k] < s ==> col_contains(out@, (#[trigger] items@[k])@),
        decreases 73 - s,
    {
        let mut idx: usize = 0;
        while idx < n
            invariant
                idx <= n,
                4 <= s <= 72,
                n == items@.len(),
                strengths@.len() == n,
                job.wf(),
                job@.len() < 3,
                col_valid(items@, job@),
                col_distinct(items@),
                forall|k: int|
                    0 <= k < n ==> strengths@[k] == spec_strength(job@ + (#[trigger] items@[k])@),
                col_valid(out@, job@),
                col_sorted(out@, job@),
                col_distinct(out@),
                forall|k: int|
                    0 <= k < out@.len() ==> spec_strength(job@ + (#[trigger] out@[k])@) <= s,
                forall|k: int|
                    0 <= k < out@.len() && spec_strength(job@ + (#[trigger] out@[k])@) == s
                        ==> exists|k2: int|
                        0 <= k2 < idx && (#[trigger] items@[k2])@ == out@[k]@,
                forall|k: int| 0 <= k < out@.len() ==> col_contains(items@, (#[trigger] out@[k])@),
                forall|k: int|
                    0 <= k < n && strengths@[k] < s ==> col_contains(out@, (#[trigger] items@[k])@),
                forall|k: int|
                    0 <= k < idx && strengths@[k] == s ==> col_contains(
                        out@,
                        (#[trigger] items@[k])@,
                    ),
            decreases n - idx,
        {
            let ghost out0 = out@;
            if strengths[idx] == s {
                let e = clone_entry(&items[idx]);
                out.push(e);
                proof {
                    assert(out@[out@.len() - 1]@ == items@[idx as int]@);
                    assert forall|a: int, b: int| 0 <= a < b < out@.len() implies (
                    #[trigger] out@[a])@ != (#[trigger] out@[b])@ by {
                        if b == out@.len() - 1 && spec_strength(job@ + out0[a]@) == s {
                            let k2 = choose|k2: int|
                                0 <= k2 < idx && (#[trigger] items@[k2])@ == out0[a]@;
                        }
                    }
                }
            }
            proof {
                assert forall|k: int|
                    0 <= k < out@.len() && spec_strength(job@ + (#[trigger] out@[k])@)
                        == s implies exists|k2: int|
                    0 <= k2 < idx + 1 && (#[trigger] items@[k2])@ == out@[k]@ by {
                    if k < out0.len() {
                        let k2 = choose|k2: int|
                            0 <= k2 < idx && (#[trigger] items@[k2])@ == out0[k]@;
                        assert(items@[k2]@ == out@[k]@);
                    } else {
                        assert(items@[idx as int]@ == out@[k]@);
                    }
                }
                assert forall|k: int|
                    0 <= k < n && strengths@[k] < s implies col_contains(
                    out@,
                    (#[trigger] items@[k])@,
                ) by {
                    let k2 = choose|k2: int|
                        0 <= k2 < out0.len() && (#[trigger] out0[k2])@ == items@[k]@;
                    assert(out@[k2]@ == items@[k]@);
                }
                assert forall|k: int|
                    0 <= k < idx + 1 && strengths@[k] == s implies col_contains(
                    out@,
                    (#[trigger] items@[k])@,
                ) by {
                    if k == idx {
                        assert(out@[out@.len() - 1]@ == items@[k]@);
                    } else {
                        let k2 = choose|k2: int|
                            0 <= k2 < out0.len() && (#[trigger] out0[k2])@ == items@[k]@;
                        assert(out@[k2]@ == items@[k]@);
                    }
                }
            }
            idx += 1;
        }
        s += 1;
    }
    proof {
        assert forall|e: Seq<Card>| col_contains(items@, e) implies col_contains(out@, e) by {
            let k = choose|k: int| 0 <= k < items@.len() && (#[trigger] items@[k])@ == e;
            assert(valid_hand3(job@ + items@[k]@)) by {
                assert(entry_ok(items@[k]@, job@));
            }
            lemma_strength_range(job@ + items@[k]@);
            assert(strengths@[k] < 73);
        }
    }
    out
}

/// Per distinct job, the monotonically growing, strength-ascending list of
/// completions. Entries are generated in full at creation and materialized
/// one at a time by `work`; consumers read only the materialized prefix.
pub struct WorkCollector {
    job: StoneCards,
    all: Vec<Vec<Card>>,
    produced: usize,
}

impl WorkCollector {
    /// The cards already known for the job's side at its position.
    pub closed spec fn spec_job(self) -> Seq<Card> {
        self.job@
    }

    /// Every completion of the job, ascending by completed-hand strength.
    pub closed spec fn spec_entries(self) -> Seq<Vec<Card>> {
        self.all@
    }

    /// How many completions have been materialized so far.
    pub closed spec fn spec_produced(self) -> int {
        self.produced as int
    }

    /// The collector's contract: its entries are exactly the canonical
    /// completions of its job, each once, ascending by strength, and the
    /// materialized count never passes the end. A full three-card job has
    /// no completions to offer.
    pub open spec fn wf(self) -> bool {
        &&& cards_wf(self.spec_job())
        &&& 0 <= self.spec_produced() <= self.spec_entries().len()
        &&& self.spec_entries().len() <= usize::MAX
        &&& col_valid(self.spec_entries(), self.spec_job())
        &&& col_sorted(self.spec_entries(), self.spec_job())
        &&& col_distinct(self.spec_entries())
        &&& (self.spec_job().len() < 3 ==> col_complete(self.spec_entries(), self.spec_job()))
        &&& (self.spec_job().len() == 3 ==> self.spec_entries().len() == 0)
    }

    pub fn new(job: &StoneCards) -> (r: WorkCollector)
        requires
            job.wf(),
        ensures
            r.wf(),
            r.spec_job() == job@,
            r.spec_produced() == 0,
    {
        let k = job.len();
        let all: Vec<Vec<Card>> = if k == 3 {
            Vec::new()
        } else if k == 2 {
            let singles = two(job);
            let mut entries: Vec<Vec<Card>> = Vec::new();
            let mut t: usize = 0;
            while t < singles.len()
                invariant
                    t <= singles@.len(),
                    entries@.len() == t,
                    forall|m: int| 0 <= m < t ==> (#[trigger] entries@[m])@ == seq![singles@[m]],
                decreases singles@.len() - t,
            {
                let mut e: Vec<Card> = Vec::new();
                e.push(singles[t]);
                proof {
                    assert(e@ =~= seq![singles@[t as int]]);
                }
                entries.push(e);
                t += 1;
            }
            proof {
                assert forall|m: int| 0 <= m < entries@.len() implies entry_ok(
                    (#[trigger] entries@[m])@,
                    job@,
                ) by {
                    assert(entries@[m]@ == seq![singles@[m]]);
                }
                assert forall|a: int, b: int| 0 <= a < b < entries@.len() implies spec_strength(
                    job@ + (#[trigger] entries@[a])@,
                ) <= spec_strength(job@ + (#[trigger] entries@[b])@) by {
                    assert(job@ + entries@[a]@ =~= job@.push(singles@[a]));
                    assert(job@ + entries@[b]@ =~= job@.push(singles@[b]));
                }
                assert forall|a: int, b: int| 0 <= a < b < entries@.len() implies (
                #[trigger] entries@[a])@ != (#[trigger] entries@[b])@ by {
                    assert(entries@[a]@ == seq![singles@[a]] && entries@[b]@ == seq![singles@[b]]);
                    assert(singles@[a] != singles@[b]);
                    assert(seq![singles@[a]][0] != seq![singles@[b]][0]);
                }
                assert forall|e: Seq<Card>| #[trigger] entry_ok(e, job@) implies col_contains(
                    entries@,
                    e,
                ) by {
                    assert(e.len() == 1);
                    assert(card_valid(e[0]) && !job@.contains(e[0]));
                    assert(singles@.contains(e[0]));
                    let m = choose|m: int| 0 <= m < singles@.len() && singles@[m] == e[0];
                    assert(entries@[m]@ == seq![singles@[m]]);
                    assert(entries@[m]@ =~= e);
                }
            }
            entries
        } else if k == 1 {
            let pairs = gen_pairs(job);
            let ghost pview = pairs@;
            let sorted = sort_by_strength(job, pairs);
            proof {
                assert forall|e: Seq<Card>| #[trigger] entry_ok(e, job@) implies col_contains(
                    sorted@,
                    e,
                ) by {
                    assert(col_contains(pview, e));
                }
            }
            sorted
        } else {
            let triples = gen_triples(job);
            let ghost tview = triples@;
            let sorted = sort_by_strength(job, triples);
            proof {
                assert forall|e: Seq<Card>| #[trigger] entry_ok(e, job@) implies col_contains(
                    sorted@,
                    e,
                ) by {
                    assert(col_contains(tview, e));
                }
            }
            sorted
        };
        let total = all.len();
        proof {
            assert(all@.len() == total <= usize::MAX);
        }
        let r = WorkCollector { job: job.duplicate(), all, produced: 0 };
        r
    }

    /// Materialize one more completion, if any remain. Running past the
    /// end is not an error: exhaustion means no further completions exist.
    pub fn work(&mut self)
        requires
            old(self).wf(),
        ensures
            final(self).wf(),
            final(self).spec_job() == old(self).spec_job(),
            final(self).spec_entries() == old(self).spec_entries(),
            final(self).spec_produced() == (if old(self).spec_produced() < old(
                self,
            ).spec_entries().len() {
                old(self).spec_produced() + 1
            } else {
                old(self).spec_produced()
            }),
    {
        if self.produced < self.all.len() {
            self.produced = self.produced + 1;
        }
    }

    /// Whether this collector's key is the given job: jobs are card
    /// multisets, so two insertion orders of the same cards share one
    /// collector.
    pub fn job_matches(&self, job: &StoneCards) -> (r: bool)
        requires
            self.wf(),
            job@.len() <= 3,
        ensures
            r == (self.spec_job().to_multiset() == job@.to_multiset()),
    {
        self.job.same_multiset(job)
    }

    /// How many completions are materialized.
    pub fn len(&self) -> (r: usize)
        ensures
            r == self.spec_produced(),
    {
        self.produced
    }

    /// A materialized completion.
    pub fn get(&self, i: usize) -> (r: &Vec<Card>)
        requires
            self.wf(),
            i < self.spec_produced(),
        ensures
            r@ == self.spec_entries()[i as int]@,
            *r == self.spec_entries()[i as int],
    {
        &self.all[i]
    }
}

/// A byte pair encoding one card: an ASCII digit '1' to '9' for the
/// number, then an ASCII digit '1' to '6' for the color.
pub open spec fn valid_card_byte_pair(a: u8, b: u8) -> bool {
    0x31 <= a <= 0x39 && 0x31 <= b <= 0x36
}

/// The cards a backing-table record encodes, if it is well formed: one to
/// three two-digit cards separated by single spaces, nothing else.
pub open spec fn spec_parse_record(s: Seq<u8>) -> Option<Seq<Card>>
    decreases s.len(),
{
    if s.len() > 8 {
        // A completion holds at most three cards, so a record is at most
        // eight bytes; anything longer is corrupt.
        None
    } else if s.len() == 2 {
        if valid_card_byte_pair(s[0], s[1]) {
            Some(seq![spec_card(s[0] - 0x30, s[1] - 0x30)])
        } else {
            None
        }
    } else if s.len() >= 5 {
        if valid_card_byte_pair(s[0], s[1]) && s[2] == 0x20 {
            match spec_parse_record(s.skip(3)) {
                Some(rest) => Some(seq![spec_card(s[0] - 0x30, s[1] - 0x30)] + rest),
                None => None,
            }
        } else {
            None
        }
    } else {
        None
    }
}

/// Decode one record of a precomputed completion table. A malformed
/// record yields `None`: a corrupt backing table is a deployment defect
/// the caller must treat as fatal.
pub fn parse_line(line: &[u8]) -> (r: Option<Vec<Card>>)
    ensures
        match r {
            Some(cards) => spec_parse_record(line@) == Some(cards@),
            None => spec_parse_record(line@) is None,
        },
{
    let n = line.len();
    if n > 8 {
        return None;
    }
    let mut out: Vec<Card> = Vec::new();
    let mut pos: usize = 0;
    proof {
        assert(line@.skip(0) =~= line@);
        if spec_parse_record(line@) is Some {
            let rest = spec_parse_record(line@)->0;
            assert(out@ + rest =~= rest);
        }
    }
    loop
        invariant
            pos <= n,
            n <= 8,
            n == line@.len(),
            spec_parse_record(line@) == (match spec_parse_record(line@.skip(pos as int)) {
                Some(rest) => Some(out@ + rest),
                None => None::<Seq<Card>>,
            }),
        decreases n - pos,
    {
        proof {
            assert(line@.skip(pos as int).len() == n - pos);
        }
        if n - pos == 2 {
            let a = line[pos];
            let b = line[pos + 1];
            proof {
                assert(line@.skip(pos as int)[0] == a && line@.skip(pos as int)[1] == b);
            }
            if 0x31 <= a && a <= 0x39 && 0x31 <= b && b <= 0x36 {
                let ghost out_before = out@;
                let card = crate::components::Card::build(a - 0x30, b - 0x30);
                out.push(card);
                proof {
                    assert(spec_parse_record(line@.skip(pos as int)) == Some(seq![card]));
                    assert(out_before + seq![card] =~= out@);
                }
                return Some(out);
            } else {
                return None;
            }
        } else if n - pos >= 5 {
            let a = line[pos];
            let b = line[pos + 1];
            let sep = line[pos + 2];
            proof {
                assert(line@.skip(pos as int)[0] == a && line@.skip(pos as int)[1] == b
                    && line@.skip(pos as int)[2] == sep);
            }
            if 0x31 <= a && a <= 0x39 && 0x31 <= b && b <= 0x36 && sep == 0x20 {
                let ghost pos0 = pos as int;
                let ghost out_before = out@;
                let card = crate::components::Card::build(a - 0x30, b - 0x30);
                out.push(card);
                pos = pos + 3;
                proof {
                    let sk = line@.skip(pos0);
                    assert(sk.skip(3) =~= line@.skip(pos0 + 3));
                    assert(spec_parse_record(sk) == (match spec_parse_record(sk.skip(3)) {
                        Some(rest) => Some(seq![card] + rest),
                        None => None::<Seq<Card>>,
                    }));
                    if spec_parse_record(sk.skip(3)) is Some {
                        let rest = spec_parse_record(sk.skip(3))->0;
                        assert(out_before + (seq![card] + rest) =~= out@ + rest);
                    }
                }
            } else {
                return None;
            }
        } else {
            return None;
        }
    }
}

} // verus!
