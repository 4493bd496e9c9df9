//! The basic value types of the game: cards, players and stones.
//!
//! A card is a (number, color) pair with number in [1, 9] and color in
//! [1, 6], so 54 distinct cards exist. Two players (indices 0 and 1) fight
//! over nine stones (indices 0 to 8).

use vstd::prelude::*;

use itertools::Itertools;

verus! {

/// A card is a value pair: number in [1, 9], color in [1, 6].
#[derive(Clone, Copy, PartialEq, Eq, Structural, Hash, Debug)]
pub struct Card {
    num: u8,
    color: u8,
}

/// The card value with the given number and color, for use in
/// specifications.
pub closed spec fn spec_card(num: int, color: int) -> Card {
    Card { num: num as u8, color: color as u8 }
}

pub proof fn lemma_spec_card(num: int, color: int)
    requires
        0 <= num <= 255,
        0 <= color <= 255,
    ensures
        spec_card(num, color).spec_num() == num,
        spec_card(num, color).spec_color() == color,
{
}

/// Validity of a card value: number in [1, 9], color in [1, 6].
pub open spec fn card_valid(c: Card) -> bool {
    1 <= c.spec_num() <= 9 && 1 <= c.spec_color() <= 6
}

/// The rank of a card in the fixed number-major enumeration of the 54-card
/// universe; injective over valid cards, with range [0, 54).
pub open spec fn card_index(c: Card) -> int {
    (c.spec_num() - 1) * 6 + (c.spec_color() - 1)
}

/// A sequence that enumerates the whole card universe in number-major order,
/// so that the card with index `i` sits at position `i`.
pub open spec fn is_universe(u: Seq<Card>) -> bool {
    &&& u.len() == 54
    &&& forall|i: int|
        0 <= i < 54 ==> (#[trigger] u[i]).spec_num() == 1 + i / 6 && u[i].spec_color() == 1 + i
            % 6
}

impl Card {
    #[verifier::type_invariant]
    pub open spec fn inv(self) -> bool {
        card_valid(self)
    }

    pub closed spec fn spec_num(self) -> int {
        self.num as int
    }

    pub closed spec fn spec_color(self) -> int {
        self.color as int
    }

    pub fn build(num: u8, color: u8) -> (r: Card)
        requires
            1 <= num <= 9,
            1 <= color <= 6,
        ensures
            r.spec_num() == num,
            r.spec_color() == color,
            r == spec_card(num as int, color as int),
    {
        Card { num, color }
    }

    pub fn num(&self) -> (r: u8)
        ensures
            r == self.spec_num(),
    {
        self.num
    }

    pub fn num_index(&self) -> (r: usize)
        ensures
            r == self.spec_num() - 1,
    {
        proof {
            use_type_invariant(self);
        }
        (self.num - 1) as usize
    }

    pub fn color(&self) -> (r: u8)
        ensures
            r == self.spec_color(),
    {
        self.color
    }

    pub fn color_index(&self) -> (r: usize)
        ensures
            r == self.spec_color() - 1,
    {
        proof {
            use_type_invariant(self);
        }
        (self.color - 1) as usize
    }

    /// Equality comparison whose outcome is pinned to the card fields.
    pub fn same_card(&self, other: &Card) -> (r: bool)
        ensures
            r == (*self == *other),
    {
        self.num == other.num && self.color == other.color
    }
}

/// Two cards are equal exactly when their numbers and colors agree.
pub broadcast proof fn lemma_card_eq(a: Card, b: Card)
    ensures
        #![trigger a.spec_num(), b.spec_num()]
        (a == b) <==> (a.spec_num() == b.spec_num() && a.spec_color() == b.spec_color()),
{
}

/// Over valid cards, `card_index` is a bijection onto [0, 54): a universe
/// sequence holds every valid card `c` at position `card_index(c)`.
pub proof fn lemma_universe_covers(u: Seq<Card>, c: Card)
    requires
        is_universe(u),
        card_valid(c),
    ensures
        0 <= card_index(c) < 54,
        u[card_index(c)] == c,
{
    let i = card_index(c);
    assert(u[i].spec_num() == 1 + i / 6 && u[i].spec_color() == 1 + i % 6);
    assert(i / 6 == c.spec_num() - 1 && i % 6 == c.spec_color() - 1) by (nonlinear_arith)
        requires
            i == (c.spec_num() - 1) * 6 + (c.spec_color() - 1),
            1 <= c.spec_num() <= 9,
            1 <= c.spec_color() <= 6,
    ;
}

/// Positions of a universe sequence carry their own index.
pub proof fn lemma_universe_index(u: Seq<Card>, i: int)
    requires
        is_universe(u),
        0 <= i < 54,
    ensures
        card_valid(u[i]),
        card_index(u[i]) == i,
{
    assert(card_index(u[i]) == (i / 6) * 6 + i % 6);
    assert((i / 6) * 6 + i % 6 == i) by (nonlinear_arith)
        requires
            0 <= i < 54,
    ;
}

/// Over valid cards, distinct cards have distinct ranks.
pub proof fn lemma_card_index_injective(a: Card, b: Card)
    requires
        card_valid(a),
        card_valid(b),
        card_index(a) == card_index(b),
    ensures
        a == b,
{
    assert(6 * (a.spec_num() - b.spec_num()) == b.spec_color() - a.spec_color());
    lemma_card_eq(a, b);
}

/// Relies on itertools' `cartesian_product` over the two ranges: it yields
/// one pair for every number and color, numbers outermost, both ascending,
/// exactly the number-major enumeration that `is_universe` describes.
#[verifier::external_body]
pub fn all_cards() -> (r: Vec<Card>)
    ensures
        is_universe(r@),
{
    (1u8..=9u8).cartesian_product(1u8..=6u8).map(|(num, color)| Card::build(num, color)).collect()
}

/// One of the two players, stored as index 0 or 1.
#[derive(Clone, Copy, PartialEq, Eq, Structural, Debug)]
pub struct Player {
    p: u8,
}

impl Player {
    #[verifier::type_invariant]
    pub open spec fn inv(self) -> bool {
        self.spec_index() == 0 || self.spec_index() == 1
    }

    pub closed spec fn spec_index(self) -> int {
        self.p as int
    }

    pub fn build(p: u8) -> (r: Player)
        requires
            p < 2,
        ensures
            r.spec_index() == p,
    {
        Player { p }
    }

    /// One-based label of the player, for callers that count from one.
    pub fn get_player(&self) -> (r: u8)
        ensures
            r == self.spec_index() + 1,
    {
        proof {
            use_type_invariant(self);
        }
        self.p + 1
    }

    pub fn get_index(&self) -> (r: usize)
        ensures
            r == self.spec_index(),
    {
        self.p as usize
    }

    pub fn get_other(&self) -> (r: Player)
        ensures
            r.spec_index() == 1 - self.spec_index(),
    {
        proof {
            use_type_invariant(self);
        }
        Player { p: 1 - self.p }
    }
}

/// Two players are equal exactly when their indices agree.
pub proof fn lemma_player_eq(a: Player, b: Player)
    ensures
        (a == b) <==> (a.spec_index() == b.spec_index()),
{
}

/// The player value with the given index, for use in specifications.
pub closed spec fn spec_player(i: int) -> Player {
    Player { p: i as u8 }
}

pub proof fn lemma_spec_player_index(i: int)
    requires
        0 <= i < 2,
    ensures
        spec_player(i).spec_index() == i,
{
}

/// Equality comparison whose outcome is pinned to the player index.
pub fn player_eq(a: &Player, b: &Player) -> (r: bool)
    ensures
        r == (*a == *b),
{
    a.p == b.p
}

/// The stone value with the given index, for use in specifications.
pub closed spec fn spec_stone(i: int) -> Stone {
    Stone { s: i as u8 }
}

pub proof fn lemma_spec_stone_index(i: int)
    requires
        0 <= i <= 255,
    ensures
        spec_stone(i).spec_index() == i,
{
}

/// One of the nine contested stones, stored as index 0 to 8.
#[derive(Clone, Copy, PartialEq, Eq, Structural, Debug)]
pub struct Stone {
    s: u8,
}

impl Stone {
    #[verifier::type_invariant]
    pub open spec fn inv(self) -> bool {
        0 <= self.spec_index() < 9
    }

    pub closed spec fn spec_index(self) -> int {
        self.s as int
    }

    pub fn build(s: u8) -> (r: Stone)
        requires
            s < 9,
        ensures
            r.spec_index() == s,
    {
        Stone { s }
    }

    /// Fallible constructor for callers whose index is not known in range.
    pub fn try_build(s: u8) -> (r: Option<Stone>)
        ensures
            s < 9 ==> (r matches Some(stone) && stone.spec_index() == s),
            s >= 9 ==> r is None,
    {
        if s < 9 {
            Some(Stone { s })
        } else {
            None
        }
    }

    /// One-based label of the stone, for callers that count from one.
    pub fn get_stone(&self) -> (r: u8)
        ensures
            r == self.spec_index() + 1,
    {
        proof {
            use_type_invariant(self);
        }
        self.s + 1
    }

    pub fn get_index(&self) -> (r: usize)
        ensures
            r == self.spec_index(),
    {
        self.s as usize
    }
}

} // verus!
