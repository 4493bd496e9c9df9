//! The terminal-state evaluator: deriving the overall winner from the
//! claim pattern alone, independent of cards and hands, so a finished game
//! can be replayed from a logged claim pattern.
//!
//! Two winning conditions, adjacency checked first: a player owning three
//! consecutive stones wins; otherwise a player owning at least five of the
//! nine stones wins; otherwise the game is still open.

use vstd::prelude::*;

use crate::claims::Claims;
use crate::components::{lemma_spec_player_index, player_eq, spec_player, Player};

verus! {

/// Three consecutive stones starting at `i` share one owner.
pub open spec fn run_at(c: Seq<Option<Player>>, i: int) -> bool {
    c[i] is Some && c[i] == c[i + 1] && c[i] == c[i + 2]
}

/// The owner of the leftmost owned run of three, scanning from `i` on.
pub open spec fn find_run(c: Seq<Option<Player>>, i: int) -> Option<Player>
    decreases 7 - i,
{
    if 0 <= i <= 6 {
        if run_at(c, i) {
            c[i]
        } else {
            find_run(c, i + 1)
        }
    } else {
        None
    }
}

/// How many of the first `upto` stones the player with index `p` owns.
pub open spec fn count_claimed(c: Seq<Option<Player>>, p: int, upto: int) -> int
    decreases upto,
{
    if upto <= 0 {
        0
    } else {
        count_claimed(c, p, upto - 1) + (match c[upto - 1] {
            Some(q) => if q.spec_index() == p {
                1int
            } else {
                0int
            },
            None => 0int,
        })
    }
}

/// The winner a claim pattern yields: the owner of the leftmost run of
/// three adjacent stones if one exists, else whoever owns five stones,
/// else nobody yet.
pub open spec fn spec_terminal(c: Seq<Option<Player>>) -> Option<Player> {
    if find_run(c, 0) is Some {
        find_run(c, 0)
    } else if count_claimed(c, 0, 9) >= 5 {
        Some(spec_player(0))
    } else if count_claimed(c, 1, 9) >= 5 {
        Some(spec_player(1))
    } else {
        None
    }
}

/// The scan finds the leftmost run: if a run starts at `i` and none starts
/// earlier than `i` but at or after `k`, the scan from `k` reports `c[i]`.
proof fn lemma_find_run_first(c: Seq<Option<Player>>, k: int, i: int)
    requires
        0 <= k <= i <= 6,
        run_at(c, i),
        forall|j: int| k <= j < i ==> !run_at(c, j),
    ensures
        find_run(c, k) == c[i],
    decreases i - k,
{
    if k < i {
        lemma_find_run_first(c, k + 1, i);
    }
}

/// Without any owned run of three, the scan reports nothing.
proof fn lemma_find_run_none(c: Seq<Option<Player>>, k: int)
    requires
        forall|j: int| k <= j <= 6 ==> !run_at(c, j),
    ensures
        find_run(c, k) is None,
    decreases 7 - k,
{
    if 0 <= k <= 6 {
        lemma_find_run_none(c, k + 1);
    }
}

/// The two players' claim counts cannot exceed the stones scanned.
proof fn lemma_counts_bounded(c: Seq<Option<Player>>, upto: int)
    requires
        upto >= 0,
    ensures
        count_claimed(c, 0, upto) + count_claimed(c, 1, upto) <= upto,
        count_claimed(c, 0, upto) >= 0,
        count_claimed(c, 1, upto) >= 0,
    decreases upto,
{
    if upto > 0 {
        lemma_counts_bounded(c, upto - 1);
    }
}

/// Adjacency rule: a player owning the leftmost run of three consecutive
/// stones wins, whatever the rest of the board holds.
pub proof fn lemma_adjacency_wins(c: Seq<Option<Player>>, i: int)
    requires
        c.len() == 9,
        0 <= i <= 6,
        run_at(c, i),
        forall|j: int| 0 <= j < i ==> !run_at(c, j),
    ensures
        spec_terminal(c) == c[i],
{
    lemma_find_run_first(c, 0, i);
}

/// Majority rule: with no run of three anywhere, a player owning at least
/// five stones wins.
pub proof fn lemma_majority_wins(c: Seq<Option<Player>>, p: int)
    requires
        c.len() == 9,
        0 <= p < 2,
        count_claimed(c, p, 9) >= 5,
        forall|j: int| 0 <= j <= 6 ==> !run_at(c, j),
    ensures
        spec_terminal(c) == Some(spec_player(p)),
{
    lemma_find_run_none(c, 0);
    lemma_counts_bounded(c, 9);
}

/// With no run of three and neither player owning five stones, the game is
/// still open.
pub proof fn lemma_no_winner(c: Seq<Option<Player>>)
    requires
        c.len() == 9,
        count_claimed(c, 0, 9) <= 4,
        count_claimed(c, 1, 9) <= 4,
        forall|j: int| 0 <= j <= 6 ==> !run_at(c, j),
    ensures
        spec_terminal(c) is None,
{
    lemma_find_run_none(c, 0);
}

/// Equality of two optional owners, pinned to the ownership they record.
fn opt_player_eq(a: &Option<Player>, b: &Option<Player>) -> (r: bool)
    ensures
        r == (*a == *b),
{
    match (a, b) {
        (Some(x), Some(y)) => player_eq(x, y),
        (None, None) => true,
        _ => false,
    }
}

/// Scan the claim pattern for a winner.
pub fn terminal_of(claims: &Claims) -> (r: Option<Player>)
    requires
        claims.wf(),
    ensures
        r == spec_terminal(claims@),
{
    let slots = claims.iter();
    let ghost c = claims@;
    let mut count0: u8 = 0;
    let mut count1: u8 = 0;
    let mut streak: u8 = 0;
    let mut prev: Option<Player> = None;
    let mut i: usize = 0;
    while i < 9
        invariant
            i <= 9,
            c == claims@,
            slots@ == c,
            c.len() == 9,
            count0 == count_claimed(c, 0, i as int),
            count1 == count_claimed(c, 1, i as int),
            count0 + count1 <= i,
            forall|j: int| 0 <= j <= i - 3 ==> !run_at(c, j),
            i == 0 ==> streak == 0,
            i >= 1 ==> {
                &&& 1 <= streak <= i
                &&& prev == c[i - 1]
                &&& (forall|m: int| i - streak <= m < i ==> c[m] == prev)
                &&& (streak < i ==> c[i - streak - 1] != prev)
            },
        decreases 9 - i,
    {
        let v = slots[i];
        let ghost streak0 = streak;
        let same = opt_player_eq(&v, &prev);
        if i > 0 && same {
            streak += 1;
        } else {
            streak = 1;
        }
        match &v {
            Some(q) => {
                proof {
                    use_type_invariant(q);
                }
                if q.get_index() == 0 {
                    count0 += 1;
                } else {
                    count1 += 1;
                }
            },
            None => {},
        }
        if streak >= 3 && v.is_some() {
            proof {
                assert(run_at(c, i - 2));
                lemma_adjacency_wins(c, i - 2);
            }
            return v;
        }
        proof {
            assert forall|j: int| 0 <= j <= i + 1 - 3 implies !run_at(c, j) by {
                if j == i - 2 && run_at(c, j) {
                    // A run ending here would have made the streak reach
                    // three on an owned stone, which returned above.
                    assert(c[j] == prev && c[j + 1] == prev && c[i as int] == prev);
                    assert(streak0 >= 2);
                    assert(streak >= 3 && v is Some);
                }
            }
        }
        prev = v;
        i += 1;
    }
    if count0 >= 5 {
        let w = Player::build(0);
        proof {
            lemma_find_run_none(c, 0);
            lemma_spec_player_index(0);
            crate::components::lemma_player_eq(w, spec_player(0));
        }
        Some(w)
    } else if count1 >= 5 {
        let w = Player::build(1);
        proof {
            lemma_find_run_none(c, 0);
            lemma_spec_player_index(1);
            crate::components::lemma_player_eq(w, spec_player(1));
        }
        Some(w)
    } else {
        proof {
            lemma_find_run_none(c, 0);
        }
        None
    }
}

} // verus!
