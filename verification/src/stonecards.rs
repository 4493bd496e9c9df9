//! The cards one player has committed to one stone, and the combination
//! evaluator: a pure scoring function over exactly three cards.
//!
//! Category precedence, highest first: color-run, three-of-a-kind, one
//! color, run, plain sum. The exact scores are part of the game's contract,
//! since equal scores are meaningful ties:
//! three-of-a-kind `56 + n`, color-run `65 + lowest`, run `26 + lowest`,
//! one color `33 + sum`, otherwise the plain sum.

use vstd::prelude::*;

use crate::components::{card_valid, Card};

verus! {

/// A position-hand: an insertion-ordered sequence of at most three cards.
#[derive(Debug, Clone)]
pub struct StoneCards {
    cards: Vec<Card>,
}

impl View for StoneCards {
    type V = Seq<Card>;

    closed spec fn view(&self) -> Seq<Card> {
        self.cards@
    }
}

/// At most three cards, all valid: the shape of any position-hand.
pub open spec fn cards_wf(s: Seq<Card>) -> bool {
    s.len() <= 3 && (forall|i: int| 0 <= i < s.len() ==> card_valid(#[trigger] s[i]))
}

/// Exactly three cards, all valid.
pub open spec fn valid_hand3(s: Seq<Card>) -> bool {
    s.len() == 3 && (forall|i: int| 0 <= i < 3 ==> card_valid(#[trigger] s[i]))
}

/// No card occurs twice.
pub open spec fn pairwise_distinct(s: Seq<Card>) -> bool {
    forall|i: int, j: int| 0 <= i < j < s.len() ==> s[i] != s[j]
}

pub open spec fn spec_num_sum(s: Seq<Card>) -> int {
    s[0].spec_num() + s[1].spec_num() + s[2].spec_num()
}

pub open spec fn spec_num_min(s: Seq<Card>) -> int {
    let a = s[0].spec_num();
    let b = s[1].spec_num();
    let c = s[2].spec_num();
    if a <= b && a <= c {
        a
    } else if b <= c {
        b
    } else {
        c
    }
}

pub open spec fn spec_num_max(s: Seq<Card>) -> int {
    let a = s[0].spec_num();
    let b = s[1].spec_num();
    let c = s[2].spec_num();
    if a >= b && a >= c {
        a
    } else if b >= c {
        b
    } else {
        c
    }
}

pub open spec fn spec_num_mid(s: Seq<Card>) -> int {
    spec_num_sum(s) - spec_num_min(s) - spec_num_max(s)
}

pub open spec fn is_three_of_a_kind(s: Seq<Card>) -> bool {
    s[0].spec_num() == s[1].spec_num() && s[1].spec_num() == s[2].spec_num()
}

pub open spec fn is_one_color(s: Seq<Card>) -> bool {
    s[0].spec_color() == s[1].spec_color() && s[1].spec_color() == s[2].spec_color()
}

pub open spec fn is_run(s: Seq<Card>) -> bool {
    spec_num_min(s) + 1 == spec_num_mid(s) && spec_num_mid(s) + 1 == spec_num_max(s)
}

/// The strength of a full position-hand. Defined for any three cards; the
/// scores of the five categories occupy disjoint, ordered bands once the
/// cards are distinct (see `lemma_category_ranges`).
pub open spec fn spec_strength(s: Seq<Card>) -> int {
    if is_three_of_a_kind(s) {
        56 + spec_num_min(s)
    } else if is_run(s) && is_one_color(s) {
        65 + spec_num_min(s)
    } else if is_run(s) {
        26 + spec_num_min(s)
    } else if is_one_color(s) {
        33 + spec_num_sum(s)
    } else {
        spec_num_sum(s)
    }
}

impl StoneCards {
    /// Well-formed: at most three cards, all valid.
    pub open spec fn wf(self) -> bool {
        cards_wf(self@)
    }

    pub fn new() -> (r: StoneCards)
        ensures
            r@ =~= Seq::<Card>::empty(),
            r.wf(),
    {
        StoneCards { cards: Vec::new() }
    }

    pub fn is_full(&self) -> (r: bool)
        ensures
            r == (self@.len() == 3),
    {
        self.cards.len() == 3
    }

    pub fn len(&self) -> (r: usize)
        ensures
            r == self@.len(),
    {
        self.cards.len()
    }

    pub fn push(&mut self, card: Card)
        requires
            old(self).wf(),
            old(self)@.len() < 3,
        ensures
            final(self)@ == old(self)@.push(card),
            final(self).wf(),
    {
        proof {
            use_type_invariant(&card);
        }
        self.cards.push(card);
        proof {
            assert forall|i: int| 0 <= i < self@.len() implies card_valid(#[trigger] self@[i]) by {
                if i < old(self)@.len() {
                    assert(self@[i] == old(self)@[i]);
                } else {
                    assert(self@[i] == card);
                }
            }
        }
    }

    pub fn get(&self, i: usize) -> (r: &Card)
        requires
            i < self@.len(),
        ensures
            *r == self@[i as int],
    {
        &self.cards[i]
    }

    /// A snapshot of the committed cards, in insertion order.
    pub fn iter(&self) -> (r: Vec<Card>)
        ensures
            r@ == self@,
    {
        let mut out: Vec<Card> = Vec::new();
        let mut i: usize = 0;
        while i < self.cards.len()
            invariant
                i <= self.cards.len(),
                out@ =~= self@.subrange(0, i as int),
            decreases self.cards.len() - i,
        {
            out.push(self.cards[i]);
            i += 1;
        }
        proof {
            assert(out@ =~= self@);
        }
        out
    }

    pub fn contains_card(&self, card: &Card) -> (r: bool)
        ensures
            r == self@.contains(*card),
    {
        let mut i: usize = 0;
        while i < self.cards.len()
            invariant
                i <= self.cards.len(),
                forall|j: int| 0 <= j < i ==> self@[j] != *card,
            decreases self.cards.len() - i,
        {
            if self.cards[i].same_card(card) {
                return true;
            }
            i += 1;
        }
        false
    }

    /// Whether two position-hands hold the same multiset of cards,
    /// whatever their insertion orders: the equality that deduplicates
    /// cache jobs, which are card multisets.
    pub fn same_multiset(&self, other: &StoneCards) -> (r: bool)
        requires
            self@.len() <= 3,
            other@.len() <= 3,
        ensures
            r == (self@.to_multiset() == other@.to_multiset()),
    {
        proof {
            broadcast use vstd::seq_lib::group_to_multiset_ensures;
        }
        let n = self.cards.len();
        if n != other.cards.len() {
            proof {
                assert(self@.to_multiset().len() != other@.to_multiset().len());
            }
            return false;
        }
        if n == 0 {
            proof {
                assert(self@ =~= other@);
            }
            true
        } else if n == 1 {
            let r = self.cards[0].same_card(&other.cards[0]);
            proof {
                if r {
                    assert(self@ =~= other@);
                } else if self@.to_multiset() == other@.to_multiset() {
                    assert(self@.to_multiset().count(other@[0]) > 0) by {
                        assert(other@.contains(other@[0]));
                    }
                    assert(self@.contains(other@[0]));
                    assert(self@[0] == other@[0]);
                }
            }
            r
        } else if n == 2 {
            let a0 = &self.cards[0];
            let a1 = &self.cards[1];
            let b0 = &other.cards[0];
            let b1 = &other.cards[1];
            let r = (a0.same_card(b0) && a1.same_card(b1)) || (a0.same_card(b1) && a1.same_card(
                b0,
            ));
            proof {
                if r {
                    if self@[0] == other@[0] && self@[1] == other@[1] {
                        assert(self@ =~= other@);
                    } else {
                        assert(self@ =~= Seq::<Card>::empty().push(self@[0]).push(self@[1]));
                        assert(other@ =~= Seq::<Card>::empty().push(self@[1]).push(self@[0]));
                        assert(self@.to_multiset() =~= other@.to_multiset());
                    }
                } else if self@.to_multiset() == other@.to_multiset() {
                    lemma_seq2_arrangement(self@, other@);
                }
            }
            r
        } else {
            let a0 = &self.cards[0];
            let a1 = &self.cards[1];
            let a2 = &self.cards[2];
            let b0 = &other.cards[0];
            let b1 = &other.cards[1];
            let b2 = &other.cards[2];
            let r = (a0.same_card(b0) && a1.same_card(b1) && a2.same_card(b2)) || (a0.same_card(b0)
                && a1.same_card(b2) && a2.same_card(b1)) || (a0.same_card(b1) && a1.same_card(b0)
                && a2.same_card(b2)) || (a0.same_card(b2) && a1.same_card(b0) && a2.same_card(b1))
                || (a0.same_card(b1) && a1.same_card(b2) && a2.same_card(b0)) || (a0.same_card(b2)
                && a1.same_card(b1) && a2.same_card(b0));
            proof {
                if r {
                    assert(self@ =~= Seq::<Card>::empty().push(self@[0]).push(self@[1]).push(
                        self@[2],
                    ));
                    assert(other@ =~= Seq::<Card>::empty().push(other@[0]).push(other@[1]).push(
                        other@[2],
                    ));
                    assert(self@.to_multiset() =~= other@.to_multiset());
                } else if self@.to_multiset() == other@.to_multiset() {
                    lemma_seq3_arrangement(self@, other@);
                }
            }
            r
        }
    }

    /// A copy with the same cards.
    pub fn duplicate(&self) -> (r: StoneCards)
        ensures
            r@ == self@,
    {
        let mut cards: Vec<Card> = Vec::new();
        let mut i: usize = 0;
        while i < self.cards.len()
            invariant
                i <= self.cards.len(),
                cards@ =~= self@.subrange(0, i as int),
            decreases self.cards.len() - i,
        {
            cards.push(self.cards[i]);
            i += 1;
        }
        proof {
            assert(cards@ =~= self@);
        }
        StoneCards { cards }
    }

    /// The combination evaluator: the strength of this full position-hand.
    pub fn strength(&self) -> (r: u8)
        requires
            self.wf(),
            self@.len() == 3,
        ensures
            r == spec_strength(self@),
            4 <= r <= 72,
    {
        let n0 = self.cards[0].num();
        let n1 = self.cards[1].num();
        let n2 = self.cards[2].num();

        if n0 == n1 && n1 == n2 {
            return 56 + n0;
        }
        let lo = if n0 <= n1 && n0 <= n2 {
            n0
        } else if n1 <= n2 {
            n1
        } else {
            n2
        };
        let hi = if n0 >= n1 && n0 >= n2 {
            n0
        } else if n1 >= n2 {
            n1
        } else {
            n2
        };
        let mid = (n0 + n1 + n2) - lo - hi;

        let run = lo + 1 == mid && mid + 1 == hi;
        let color = self.cards[0].color() == self.cards[1].color() && self.cards[1].color()
            == self.cards[2].color();

        if run && color {
            65 + lo
        } else if run {
            26 + lo
        } else if color {
            33 + (n0 + n1 + n2)
        } else {
            n0 + n1 + n2
        }
    }
}

/// Two two-card hands with equal card multisets hold the same cards, in
/// one order or the other.
pub proof fn lemma_seq2_arrangement(s1: Seq<Card>, s2: Seq<Card>)
    requires
        s1.len() == 2,
        s2.len() == 2,
        s1.to_multiset() == s2.to_multiset(),
    ensures
        s2 == seq![s1[0], s1[1]] || s2 == seq![s1[1], s1[0]],
{
    broadcast use vstd::seq_lib::group_to_multiset_ensures;

    assert(s1.to_multiset().count(s2[0]) > 0) by {
        assert(s2.contains(s2[0]));
    }
    assert(s1.contains(s2[0]));
    let j0 = choose|i: int| 0 <= i < 2 && s1[i] == s2[0];
    let t1 = s1.remove(j0);
    let t2 = s2.remove(0);
    assert(t1.to_multiset() =~= t2.to_multiset());
    assert(t1.to_multiset().count(s2[1]) > 0) by {
        assert(t2[0] == s2[1]);
        assert(t2.contains(s2[1]));
    }
    assert(t1.contains(s2[1]));
    assert(t1[0] == s2[1]);
    if j0 == 0 {
        assert(s2 =~= seq![s1[0], s1[1]]);
    } else {
        assert(s2 =~= seq![s1[1], s1[0]]);
    }
}

/// Two full hands with equal card multisets are arrangements of one
/// another: the second holds the first's three cards in some order.
pub proof fn lemma_seq3_arrangement(s1: Seq<Card>, s2: Seq<Card>)
    requires
        s1.len() == 3,
        s2.len() == 3,
        s1.to_multiset() == s2.to_multiset(),
    ensures
        s2 == seq![s1[0], s1[1], s1[2]] || s2 == seq![s1[0], s1[2], s1[1]] || s2 == seq![
            s1[1],
            s1[0],
            s1[2],
        ] || s2 == seq![s1[1], s1[2], s1[0]] || s2 == seq![s1[2], s1[0], s1[1]] || s2 == seq![
            s1[2],
            s1[1],
            s1[0],
        ],
{
    broadcast use vstd::seq_lib::group_to_multiset_ensures;

    // Peel the three cards of s2 off s1 one by one, producing an explicit
    // arrangement j0, j1, j2 of the indices 0, 1, 2 with s1[jk] == s2[k].
    assert(s1.to_multiset().count(s2[0]) > 0) by {
        assert(s2.contains(s2[0]));
    }
    assert(s1.contains(s2[0]));
    let j0 = choose|i: int| 0 <= i < 3 && s1[i] == s2[0];
    let t1 = s1.remove(j0);
    let t2 = s2.remove(0);
    assert(t1.to_multiset() =~= t2.to_multiset());

    assert(t1.to_multiset().count(s2[1]) > 0) by {
        assert(t2[0] == s2[1]);
        assert(t2.contains(s2[1]));
    }
    assert(t1.contains(s2[1]));
    let k1 = choose|i: int| 0 <= i < 2 && t1[i] == s2[1];
    let j1 = if k1 < j0 {
        k1
    } else {
        k1 + 1
    };
    assert(s1[j1] == s2[1]);
    let u1 = t1.remove(k1);
    let u2 = t2.remove(0);
    assert(u1.to_multiset() =~= u2.to_multiset());

    assert(u1.to_multiset().count(s2[2]) > 0) by {
        assert(u2[0] == s2[2]);
        assert(u2.contains(s2[2]));
    }
    assert(u1.contains(s2[2]));
    let k2 = choose|i: int| 0 <= i < 1 && u1[i] == s2[2];
    let l2 = if k2 < k1 {
        k2
    } else {
        k2 + 1
    };
    let j2 = if l2 < j0 {
        l2
    } else {
        l2 + 1
    };
    assert(s1[j2] == s2[2]);
    assert(j0 != j1 && j0 != j2 && j1 != j2);
    assert(0 <= j0 < 3 && 0 <= j1 < 3 && 0 <= j2 < 3);
    assert(s2 =~= seq![s1[j0], s1[j1], s1[j2]]);
}

/// Strength is a pure function of the card multiset: two full hands holding
/// the same cards in any orders have the same strength.
#[verifier::rlimit(80)]
pub proof fn lemma_strength_permutation(s1: Seq<Card>, s2: Seq<Card>)
    requires
        s1.len() == 3,
        s2.len() == 3,
        s1.to_multiset() == s2.to_multiset(),
    ensures
        spec_strength(s1) == spec_strength(s2),
{
    lemma_seq3_arrangement(s1, s2);
    assert(spec_num_sum(s1) == spec_num_sum(s2));
    assert(spec_num_min(s1) == spec_num_min(s2));
    assert(spec_num_max(s1) == spec_num_max(s2));
    assert(is_three_of_a_kind(s1) == is_three_of_a_kind(s2));
    assert(is_one_color(s1) == is_one_color(s2));
}

/// Any full hand of valid cards scores between 4 and 72.
pub proof fn lemma_strength_range(s: Seq<Card>)
    requires
        valid_hand3(s),
    ensures
        4 <= spec_strength(s) <= 72,
{
}

/// The five scoring categories, ranked by precedence.
pub open spec fn spec_category(s: Seq<Card>) -> int {
    if is_three_of_a_kind(s) {
        3
    } else if is_run(s) && is_one_color(s) {
        4
    } else if is_run(s) {
        1
    } else if is_one_color(s) {
        2
    } else {
        0
    }
}

/// For full hands of distinct cards, the five categories score in disjoint
/// bands: plain sum 4..26, run 27..33, one color 40..56, three-of-a-kind
/// 57..65, color-run 66..72.
pub proof fn lemma_category_ranges(s: Seq<Card>)
    requires
        valid_hand3(s),
        pairwise_distinct(s),
    ensures
        spec_category(s) == 4 ==> 66 <= spec_strength(s) <= 72,
        spec_category(s) == 3 ==> 57 <= spec_strength(s) <= 65,
        spec_category(s) == 2 ==> 40 <= spec_strength(s) <= 56,
        spec_category(s) == 1 ==> 27 <= spec_strength(s) <= 33,
        spec_category(s) == 0 ==> 4 <= spec_strength(s) <= 26,
{
    broadcast use crate::components::lemma_card_eq;

    if spec_category(s) == 2 {
        // Same color and distinct cards force three distinct numbers; since
        // they do not form a run, their sum is at least 1 + 2 + 4.
        assert(s[0].spec_num() != s[1].spec_num() && s[1].spec_num() != s[2].spec_num()
            && s[0].spec_num() != s[2].spec_num());
        assert(spec_num_min(s) < spec_num_mid(s) < spec_num_max(s));
        assert(spec_num_sum(s) >= 7);
    }
    if spec_category(s) == 0 {
        assert(spec_num_sum(s) >= 4);
        assert(spec_num_sum(s) <= 26);
    }
}

/// Category monotonicity: between full hands of distinct cards, a hand of a
/// higher category always outscores a hand of a lower category.
pub proof fn lemma_category_order(s1: Seq<Card>, s2: Seq<Card>)
    requires
        valid_hand3(s1),
        pairwise_distinct(s1),
        valid_hand3(s2),
        pairwise_distinct(s2),
        spec_category(s1) > spec_category(s2),
    ensures
        spec_strength(s1) > spec_strength(s2),
{
    lemma_category_ranges(s1);
    lemma_category_ranges(s2);
}

} // verus!
