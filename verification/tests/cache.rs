use std::collections::HashSet;

use itertools::Itertools;

use schotten::components::{Card, Player, Stone};
use schotten::jobs::{BestOption, JobIdentifier, JobManager};
use schotten::present::PresentCards;
use schotten::stonecards::StoneCards;
use schotten::worker::{parse_line, two, WorkCollector};

fn job_of(cards: &[(u8, u8)]) -> StoneCards {
    let mut job = StoneCards::new();
    for (num, color) in cards {
        job.push(Card::build(*num, *color));
    }
    job
}

fn strength_with(job: &StoneCards, extra: &[Card]) -> u8 {
    let mut hand = job.duplicate();
    for card in extra {
        hand.push(*card);
    }
    hand.strength()
}

#[test]
fn two_lists_every_other_card_ascending() {
    let job = job_of(&[(1, 1), (2, 1)]);
    let singles = two(&job);

    assert_eq!(singles.len(), 52);
    assert!(!singles.contains(&Card::build(1, 1)));
    assert!(!singles.contains(&Card::build(2, 1)));
    for w in singles.windows(2) {
        assert!(strength_with(&job, &[w[0]]) <= strength_with(&job, &[w[1]]));
    }
    // The strongest completion of 1-2 of one color is the 3 of that color.
    assert_eq!(*singles.last().unwrap(), Card::build(3, 1));
}

#[test]
fn collector_materializes_lazily_and_in_order() {
    let job = job_of(&[(4, 2), (5, 2)]);
    let mut collector = WorkCollector::new(&job);

    assert_eq!(collector.len(), 0);
    collector.work();
    collector.work();
    collector.work();
    assert_eq!(collector.len(), 3);
    let first = strength_with(&job, &collector.get(0).clone());
    let third = strength_with(&job, &collector.get(2).clone());
    assert!(first <= third);
}

#[test]
fn collector_of_full_job_is_exhausted_from_the_start() {
    let job = job_of(&[(4, 2), (5, 2), (9, 3)]);
    let mut collector = WorkCollector::new(&job);

    // Exhaustion is a normal terminal condition, not an error.
    collector.work();
    collector.work();
    assert_eq!(collector.len(), 0);
}

/// Drain everything the cache will hand out for the job under the given
/// present-card snapshot.
fn drain_cache(manager: &mut JobManager, job: &StoneCards, present: &PresentCards) -> Vec<Vec<Card>> {
    let mut id = JobIdentifier::new(job);
    let mut out: Vec<Vec<Card>> = Vec::new();
    while manager.update_job(&mut id, present) {
        out.push(manager.get(&id).clone());
        id.advance();
    }
    out
}

fn key_of(entry: &[Card]) -> Vec<(u8, u8)> {
    entry.iter().map(|c| (c.num(), c.color())).collect()
}

#[test]
fn cache_matches_brute_force_for_single_card_completions() {
    let job = job_of(&[(1, 1), (2, 1)]);
    let mut present = PresentCards::new();
    present.add_card(&Card::build(1, 1));
    present.add_card(&Card::build(2, 1));
    for color in 1..=6 {
        present.add_card(&Card::build(9, color));
    }
    present.add_card(&Card::build(3, 1));

    let mut manager = JobManager::new();
    let mut seed = Vec::new();
    seed.push(job.duplicate());
    manager.add_jobs(&seed);

    let cached = drain_cache(&mut manager, &job, &present);

    // Brute force: every card that is neither in the job nor present.
    let brute: HashSet<Vec<(u8, u8)>> = (1..=9u8)
        .cartesian_product(1..=6u8)
        .map(|(num, color)| Card::build(num, color))
        .filter(|c| !present.is_present(c))
        .filter(|c| *c != Card::build(1, 1) && *c != Card::build(2, 1))
        .map(|c| vec![(c.num(), c.color())])
        .collect();

    let cached_keys: HashSet<Vec<(u8, u8)>> = cached.iter().map(|e| key_of(e)).collect();
    assert_eq!(cached_keys.len(), cached.len(), "no completion may repeat");
    assert_eq!(cached_keys, brute);

    for w in cached.windows(2) {
        assert!(strength_with(&job, &w[0]) <= strength_with(&job, &w[1]));
    }
}

#[test]
fn cache_matches_brute_force_for_two_card_completions() {
    let job = job_of(&[(5, 3)]);
    let mut present = PresentCards::new();
    present.add_card(&Card::build(5, 3));
    for num in 1..=9 {
        present.add_card(&Card::build(num, 6));
        present.add_card(&Card::build(num, 5));
    }
    present.add_card(&Card::build(7, 1));

    let mut manager = JobManager::new();
    let mut seed = Vec::new();
    seed.push(job.duplicate());
    manager.add_jobs(&seed);

    let cached = drain_cache(&mut manager, &job, &present);

    let free: Vec<Card> = (1..=9u8)
        .cartesian_product(1..=6u8)
        .map(|(num, color)| Card::build(num, color))
        .filter(|c| !present.is_present(c))
        .collect();
    let mut brute: HashSet<Vec<(u8, u8)>> = HashSet::new();
    for a in 0..free.len() {
        for b in (a + 1)..free.len() {
            brute.insert(vec![
                (free[a].num(), free[a].color()),
                (free[b].num(), free[b].color()),
            ]);
        }
    }

    let cached_keys: HashSet<Vec<(u8, u8)>> = cached.iter().map(|e| key_of(e)).collect();
    assert_eq!(cached_keys.len(), cached.len(), "no completion may repeat");
    assert_eq!(cached_keys, brute);

    for w in cached.windows(2) {
        assert!(strength_with(&job, &w[0]) <= strength_with(&job, &w[1]));
    }
}

#[test]
fn cache_deduplicates_equal_jobs() {
    let mut manager = JobManager::new();
    let mut seed = Vec::new();
    seed.push(job_of(&[(1, 1), (2, 1)]));
    seed.push(job_of(&[(1, 1), (2, 1)]));
    seed.push(job_of(&[(2, 1), (1, 1)]));
    manager.add_jobs(&seed);
    // A job is a card multiset: the repeated key and the permuted key all
    // share one collector, and registering the key again adds nothing.
    assert_eq!(manager.worker_count(), 1);
    let again = Vec::from([job_of(&[(2, 1), (1, 1)])]);
    manager.add_jobs(&again);
    assert_eq!(manager.worker_count(), 1);

    // Both insertion orders reach the same shared enumeration.
    let present = PresentCards::new();
    let first = drain_cache(&mut manager, &seed[0], &present);
    assert_eq!(first.len(), 52);
    let permuted = drain_cache(&mut manager, &seed[2], &present);
    assert_eq!(permuted.len(), 52);
    for (a, b) in first.iter().zip(permuted.iter()) {
        assert_eq!(key_of(a), key_of(b));
    }
}

#[test]
fn best_option_streams_clean_completions() {
    // Seeds the cache with the empty job: all three-card completions of
    // the whole universe, 54 choose 3 of them.
    let mut cache = BestOption::new();

    // Leave only five cards unseen, so 5-choose-3 completions survive.
    let kept = [(1u8, 1u8), (2, 1), (3, 1), (9, 5), (9, 6)];
    let mut present = PresentCards::new();
    for num in 1..=9u8 {
        for color in 1..=6u8 {
            if !kept.contains(&(num, color)) {
                present.add_card(&Card::build(num, color));
            }
        }
    }

    let empty = StoneCards::new();
    let mut streamed: Vec<Vec<Card>> = Vec::new();
    while let Some(e) = cache.next_completion(Player::build(0), Stone::build(0), &present) {
        streamed.push(e);
    }
    assert_eq!(streamed.len(), 10);
    for w in streamed.windows(2) {
        assert!(strength_with(&empty, &w[0]) <= strength_with(&empty, &w[1]));
    }
    let mut brute: HashSet<Vec<(u8, u8)>> = HashSet::new();
    for a in 0..kept.len() {
        for b in (a + 1)..kept.len() {
            for c in (b + 1)..kept.len() {
                brute.insert(vec![kept[a], kept[b], kept[c]]);
            }
        }
    }
    let streamed_keys: HashSet<Vec<(u8, u8)>> = streamed.iter().map(|e| key_of(e)).collect();
    assert_eq!(streamed_keys, brute);

    // Another cursor into the same shared job starts from the beginning.
    let again = cache.next_completion(Player::build(1), Stone::build(0), &present);
    assert_eq!(key_of(&again.unwrap()), key_of(&streamed[0]));
}

#[test]
fn parse_line_good_records() {
    assert_eq!(parse_line(b"11"), Some(vec![Card::build(1, 1)]));
    assert_eq!(parse_line(b"95 23"), Some(vec![Card::build(9, 5), Card::build(2, 3)]));
    assert_eq!(
        parse_line(b"12 34 56"),
        Some(vec![Card::build(1, 2), Card::build(3, 4), Card::build(5, 6)])
    );
}

#[test]
fn parse_line_corrupt_records() {
    assert_eq!(parse_line(b""), None);
    assert_eq!(parse_line(b"1"), None);
    assert_eq!(parse_line(b"17"), None, "color out of range");
    assert_eq!(parse_line(b"01"), None, "number out of range");
    assert_eq!(parse_line(b"123"), None);
    assert_eq!(parse_line(b"12 "), None);
    assert_eq!(parse_line(b"12,34"), None, "wrong separator");
    assert_eq!(parse_line(b"12 34 5"), None, "truncated card");
    assert_eq!(parse_line(b"12 34 56 61"), None, "more than three cards");
}
