//! The enumeration cache's deduplication layer: a Job is the exact
//! sequence of cards known for one side at one position, and each distinct
//! job owns one `WorkCollector`, shared by every consumer with that key.
//! A consumer holds a cursor — a job key and an offset — and advances it
//! past completions that reference a now-present card, materializing more
//! entries only when the cursor exhausts what exists.

use vstd::prelude::*;

use crate::components::{card_index, lemma_card_index_injective, Card, Player, Stone};
use crate::legal::completion_card_ok;
use crate::present::PresentCards;
use crate::stonecards::StoneCards;
use crate::worker::{col_complete, col_contains, col_valid, entry_ok, WorkCollector};

verus! {

/// A completion none of whose cards is present on the board: the cache
/// may hand it out; others are skipped.
pub open spec fn entry_clean(e: Seq<Card>, present: Set<Card>) -> bool {
    forall|i: int| 0 <= i < e.len() ==> !present.contains(#[trigger] e[i])
}

/// Cache fidelity for a two-known job: the single cards the collector
/// lists as clean entries are exactly the unseen cards the legality
/// oracle's brute-force enumeration would consider.
pub proof fn lemma_cache_fidelity_single(
    es: Seq<Vec<Card>>,
    job: Seq<Card>,
    present: Set<Card>,
    c: Card,
)
    requires
        job.len() == 2,
        col_valid(es, job),
        col_complete(es, job),
    ensures
        completion_card_ok(c, job, present) <==> exists|k: int|
            0 <= k < es.len() && (#[trigger] es[k])@ == seq![c] && entry_clean(es[k]@, present),
{
    if completion_card_ok(c, job, present) {
        assert(entry_ok(seq![c], job)) by {
            assert(seq![c][0] == c);
        }
        assert(col_contains(es, seq![c]));
        let k = choose|k: int| 0 <= k < es.len() && (#[trigger] es[k])@ == seq![c];
        assert(entry_clean(es[k]@, present)) by {
            assert(es[k]@[0] == c);
        }
    }
    if exists|k: int|
        0 <= k < es.len() && (#[trigger] es[k])@ == seq![c] && entry_clean(es[k]@, present) {
        let k = choose|k: int|
            0 <= k < es.len() && (#[trigger] es[k])@ == seq![c] && entry_clean(es[k]@, present);
        assert(entry_ok(es[k]@, job));
        assert(es[k]@[0] == c);
    }
}

/// Cache fidelity for a one-known job: the card pairs the collector lists
/// as clean entries are exactly the distinct unseen pairs the legality
/// oracle's brute-force enumeration would consider.
pub proof fn lemma_cache_fidelity_pair(
    es: Seq<Vec<Card>>,
    job: Seq<Card>,
    present: Set<Card>,
    c1: Card,
    c2: Card,
)
    requires
        job.len() == 1,
        col_valid(es, job),
        col_complete(es, job),
        c1 != c2,
    ensures
        (completion_card_ok(c1, job, present) && completion_card_ok(c2, job, present)) <==> exists|
            k: int,
        |
            0 <= k < es.len() && ((#[trigger] es[k])@ == seq![c1, c2] || es[k]@ == seq![c2, c1])
                && entry_clean(es[k]@, present),
{
    if completion_card_ok(c1, job, present) && completion_card_ok(c2, job, present) {
        assert(card_index(c1) != card_index(c2)) by {
            if card_index(c1) == card_index(c2) {
                lemma_card_index_injective(c1, c2);
            }
        }
        let e = if card_index(c1) < card_index(c2) {
            seq![c1, c2]
        } else {
            seq![c2, c1]
        };
        assert(entry_ok(e, job)) by {
            assert(e[0] == c1 || e[0] == c2);
            assert(e[1] == c1 || e[1] == c2);
        }
        assert(col_contains(es, e));
        let k = choose|k: int| 0 <= k < es.len() && (#[trigger] es[k])@ == e;
        assert(entry_clean(es[k]@, present)) by {
            assert(es[k]@[0] == e[0] && es[k]@[1] == e[1]);
        }
    }
    if exists|k: int|
        0 <= k < es.len() && ((#[trigger] es[k])@ == seq![c1, c2] || es[k]@ == seq![c2, c1])
            && entry_clean(es[k]@, present) {
        let k = choose|k: int|
            0 <= k < es.len() && ((#[trigger] es[k])@ == seq![c1, c2] || es[k]@ == seq![c2, c1])
                && entry_clean(es[k]@, present);
        assert(entry_ok(es[k]@, job));
        assert(es[k]@[0] == c1 || es[k]@[0] == c2);
        assert(es[k]@[1] == c1 || es[k]@[1] == c2);
    }
}

/// Cache fidelity for a zero-known job: the card triples the collector
/// lists as clean entries are exactly the distinct unseen triples the
/// legality oracle's brute-force enumeration would consider.
#[verifier::rlimit(60)]
pub proof fn lemma_cache_fidelity_triple(
    es: Seq<Vec<Card>>,
    job: Seq<Card>,
    present: Set<Card>,
    c1: Card,
    c2: Card,
    c3: Card,
)
    requires
        job.len() == 0,
        col_valid(es, job),
        col_complete(es, job),
        c1 != c2,
        c1 != c3,
        c2 != c3,
    ensures
        (completion_card_ok(c1, job, present) && completion_card_ok(c2, job, present)
            && completion_card_ok(c3, job, present)) <==> exists|k: int|
            0 <= k < es.len() && (#[trigger] es[k])@.to_multiset() == seq![c1, c2, c3].to_multiset()
                && entry_clean(es[k]@, present),
{
    broadcast use vstd::seq_lib::group_to_multiset_ensures;

    let target = seq![c1, c2, c3];
    assert(target =~= Seq::<Card>::empty().push(c1).push(c2).push(c3));
    if completion_card_ok(c1, job, present) && completion_card_ok(c2, job, present)
        && completion_card_ok(c3, job, present) {
        let i1 = card_index(c1);
        let i2 = card_index(c2);
        let i3 = card_index(c3);
        assert(i1 != i2 && i1 != i3 && i2 != i3) by {
            if i1 == i2 {
                lemma_card_index_injective(c1, c2);
            }
            if i1 == i3 {
                lemma_card_index_injective(c1, c3);
            }
            if i2 == i3 {
                lemma_card_index_injective(c2, c3);
            }
        }
        let e = if i1 < i2 && i2 < i3 {
            seq![c1, c2, c3]
        } else if i1 < i3 && i3 < i2 {
            seq![c1, c3, c2]
        } else if i2 < i1 && i1 < i3 {
            seq![c2, c1, c3]
        } else if i2 < i3 && i3 < i1 {
            seq![c2, c3, c1]
        } else if i3 < i1 && i1 < i2 {
            seq![c3, c1, c2]
        } else {
            seq![c3, c2, c1]
        };
        assert(entry_ok(e, job)) by {
            assert(e[0] == c1 || e[0] == c2 || e[0] == c3);
            assert(e[1] == c1 || e[1] == c2 || e[1] == c3);
            assert(e[2] == c1 || e[2] == c2 || e[2] == c3);
        }
        assert(col_contains(es, e));
        let k = choose|k: int| 0 <= k < es.len() && (#[trigger] es[k])@ == e;
        assert(entry_clean(es[k]@, present)) by {
            assert(es[k]@[0] == e[0] && es[k]@[1] == e[1] && es[k]@[2] == e[2]);
        }
        assert(es[k]@.to_multiset() == target.to_multiset()) by {
            assert(e =~= Seq::<Card>::empty().push(e[0]).push(e[1]).push(e[2]));
            assert(e.to_multiset() =~= target.to_multiset());
        }
    }
    if exists|k: int|
        0 <= k < es.len() && (#[trigger] es[k])@.to_multiset() == target.to_multiset()
            && entry_clean(es[k]@, present) {
        let k = choose|k: int|
            0 <= k < es.len() && (#[trigger] es[k])@.to_multiset() == target.to_multiset()
                && entry_clean(es[k]@, present);
        let e = es[k]@;
        assert(entry_ok(e, job));
        assert(target.contains(c1) && target.contains(c2) && target.contains(c3));
        assert(e.contains(c1) && e.contains(c2) && e.contains(c3)) by {
            assert(e.to_multiset().count(c1) > 0 && e.to_multiset().count(c2) > 0
                && e.to_multiset().count(c3) > 0);
        }
        let w1 = choose|w: int| 0 <= w < e.len() && e[w] == c1;
        let w2 = choose|w: int| 0 <= w < e.len() && e[w] == c2;
        let w3 = choose|w: int| 0 <= w < e.len() && e[w] == c3;
        assert(completion_card_ok(c1, job, present) && completion_card_ok(c2, job, present)
            && completion_card_ok(c3, job, present));
    }
}

/// A consumer's cursor into one job's completion list.
pub struct JobIdentifier {
    job: StoneCards,
    index: usize,
}

impl JobIdentifier {
    pub closed spec fn spec_job(self) -> Seq<Card> {
        self.job@
    }

    pub closed spec fn spec_index(self) -> int {
        self.index as int
    }

    pub fn new(job: &StoneCards) -> (r: JobIdentifier)
        ensures
            r.spec_job() == job@,
            r.spec_index() == 0,
    {
        JobIdentifier { job: job.duplicate(), index: 0 }
    }

    pub fn index(&self) -> (r: usize)
        ensures
            r == self.spec_index(),
    {
        self.index
    }

    /// Step past the completion the cursor rests on.
    pub fn advance(&mut self)
        requires
            old(self).spec_index() < usize::MAX,
        ensures
            final(self).spec_job() == old(self).spec_job(),
            final(self).spec_index() == old(self).spec_index() + 1,
    {
        self.index = self.index + 1;
    }
}

/// One collector per distinct job key.
pub struct JobManager {
    workers: Vec<WorkCollector>,
}

impl JobManager {
    pub closed spec fn spec_workers(self) -> Seq<WorkCollector> {
        self.workers@
    }

    /// Well-formed: every collector meets its contract, and no two
    /// collectors share a job key. A job is the exact multiset of known
    /// cards, so keys are compared as multisets, not insertion orders.
    pub open spec fn wf(self) -> bool {
        &&& (forall|i: int|
            0 <= i < self.spec_workers().len() ==> (#[trigger] self.spec_workers()[i]).wf())
        &&& (forall|a: int, b: int|
            0 <= a < b < self.spec_workers().len() ==> (
            #[trigger] self.spec_workers()[a]).spec_job().to_multiset() != (
            #[trigger] self.spec_workers()[b]).spec_job().to_multiset())
    }

    pub open spec fn has_job(self, job: Seq<Card>) -> bool {
        exists|i: int|
            0 <= i < self.spec_workers().len() && (
            #[trigger] self.spec_workers()[i]).spec_job().to_multiset() == job.to_multiset()
    }

    /// The position of the collector that owns the job key.
    pub open spec fn slot_of(self, job: Seq<Card>) -> int {
        choose|i: int|
            0 <= i < self.spec_workers().len() && (
            #[trigger] self.spec_workers()[i]).spec_job().to_multiset() == job.to_multiset()
    }

    /// The collector that owns the job key.
    pub open spec fn worker_for(self, job: Seq<Card>) -> WorkCollector {
        self.spec_workers()[self.slot_of(job)]
    }

    pub fn new() -> (r: JobManager)
        ensures
            r.wf(),
            r.spec_workers().len() == 0,
    {
        JobManager { workers: Vec::new() }
    }

    /// How many distinct jobs have a collector.
    pub fn worker_count(&self) -> (r: usize)
        ensures
            r == self.spec_workers().len(),
    {
        self.workers.len()
    }

    fn find_slot(&self, job: &StoneCards) -> (r: Option<usize>)
        requires
            self.wf(),
            job@.len() <= 3,
        ensures
            match r {
                Some(i) => i < self.spec_workers().len() && self.spec_workers()[
                    i as int
                ].spec_job().to_multiset() == job@.to_multiset() && self.has_job(job@)
                    && self.slot_of(job@) == i,
                None => !self.has_job(job@),
            },
    {
        let mut i: usize = 0;
        while i < self.workers.len()
            invariant
                self.wf(),
                job@.len() <= 3,
                i <= self.spec_workers().len(),
                forall|k: int|
                    0 <= k < i ==> (#[trigger] self.spec_workers()[k]).spec_job().to_multiset()
                        != job@.to_multiset(),
            decreases self.spec_workers().len() - i,
        {
            if self.workers[i].job_matches(job) {
                proof {
                    assert(self.spec_workers()[i as int].spec_job().to_multiset()
                        == job@.to_multiset());
                    assert(self.has_job(job@));
                }
                return Some(i);
            }
            i += 1;
        }
        None
    }

    /// Ensure a collector exists for each listed job, deduplicating by
    /// exact key: a job already known keeps its collector and its
    /// materialized entries.
    pub fn add_jobs(&mut self, jobs: &Vec<StoneCards>)
        requires
            old(self).wf(),
            forall|k: int| 0 <= k < jobs@.len() ==> (#[trigger] jobs@[k]).wf(),
        ensures
            final(self).wf(),
            forall|k: int| 0 <= k < jobs@.len() ==> final(self).has_job((#[trigger] jobs@[k])@),
            old(self).spec_workers().len() <= final(self).spec_workers().len() <= old(
                self,
            ).spec_workers().len() + jobs@.len(),
            forall|i: int|
                0 <= i < old(self).spec_workers().len() ==> final(self).spec_workers()[i] == old(
                    self,
                ).spec_workers()[i],
            forall|i: int|
                old(self).spec_workers().len() <= i < final(self).spec_workers().len() ==> (
                #[trigger] final(self).spec_workers()[i]).spec_produced() == 0,
            (forall|k: int| 0 <= k < jobs@.len() ==> old(self).has_job((#[trigger] jobs@[k])@))
                ==> final(self).spec_workers() == old(self).spec_workers(),
    {
        let mut k: usize = 0;
        while k < jobs.len()
            invariant
                self.wf(),
                k <= jobs@.len(),
                forall|m: int| 0 <= m < jobs@.len() ==> (#[trigger] jobs@[m]).wf(),
                forall|m: int| 0 <= m < k ==> self.has_job((#[trigger] jobs@[m])@),
                old(self).spec_workers().len() <= self.spec_workers().len() <= old(
                    self,
                ).spec_workers().len() + k,
                forall|i: int|
                    0 <= i < old(self).spec_workers().len() ==> self.spec_workers()[i] == old(
                        self,
                    ).spec_workers()[i],
                forall|i: int|
                    old(self).spec_workers().len() <= i < self.spec_workers().len() ==> (
                    #[trigger] self.spec_workers()[i]).spec_produced() == 0,
                (forall|m: int| 0 <= m < jobs@.len() ==> old(self).has_job((#[trigger] jobs@[m])@))
                    ==> self.spec_workers() == old(self).spec_workers(),
            decreases jobs@.len() - k,
        {
            let ghost before = self.spec_workers();
            let job = &jobs[k];
            if self.find_slot(job).is_none() {
                let collector = WorkCollector::new(job);
                self.workers.push(collector);
            }
            proof {
                assert forall|m: int| 0 <= m < k + 1 implies self.has_job(
                    (#[trigger] jobs@[m])@,
                ) by {
                    if m < k {
                        let i = choose|i: int|
                            0 <= i < before.len() && (
                            #[trigger] before[i]).spec_job().to_multiset()
                                == jobs@[m]@.to_multiset();
                        assert(self.spec_workers()[i].spec_job().to_multiset()
                            == jobs@[m]@.to_multiset());
                    } else {
                        assert(self.spec_workers()[self.spec_workers().len()
                            - 1].spec_job().to_multiset() == jobs@[m]@.to_multiset()
                            || self.has_job(jobs@[m]@));
                    }
                }
            }
            k += 1;
        }
    }

    /// Advance the cursor to the next completion that references no
    /// present card, materializing entries as needed. Returns whether one
    /// was found; if not, the list is exhausted: every remaining
    /// completion references a present card, a normal terminal condition.
    pub fn update_job(&mut self, job_id: &mut JobIdentifier, present: &PresentCards) -> (found:
        bool)
        requires
            old(self).wf(),
            present.wf(),
            old(job_id).spec_job().len() <= 3,
            old(self).has_job(old(job_id).spec_job()),
            old(job_id).spec_index() <= old(self).worker_for(
                old(job_id).spec_job(),
            ).spec_entries().len(),
        ensures
            final(self).wf(),
            final(self).has_job(old(job_id).spec_job()),
            final(job_id).spec_job() == old(job_id).spec_job(),
            final(self).spec_workers().len() == old(self).spec_workers().len(),
            forall|i: int|
                0 <= i < old(self).spec_workers().len() && i != old(self).slot_of(
                    old(job_id).spec_job(),
                ) ==> final(self).spec_workers()[i] == old(self).spec_workers()[i],
            final(self).worker_for(old(job_id).spec_job()).spec_job() == old(self).worker_for(
                old(job_id).spec_job(),
            ).spec_job(),
            final(self).worker_for(old(job_id).spec_job()).spec_entries() == old(self).worker_for(
                old(job_id).spec_job(),
            ).spec_entries(),
            found ==> {
                let es = old(self).worker_for(old(job_id).spec_job()).spec_entries();
                &&& old(job_id).spec_index() <= final(job_id).spec_index() < es.len()
                &&& final(job_id).spec_index() < final(self).worker_for(
                    old(job_id).spec_job(),
                ).spec_produced()
                &&& entry_clean(es[final(job_id).spec_index()]@, present@)
                &&& (forall|m: int|
                    old(job_id).spec_index() <= m < final(job_id).spec_index()
                        ==> !entry_clean((#[trigger] es[m])@, present@))
            },
            !found ==> {
                let es = old(self).worker_for(old(job_id).spec_job()).spec_entries();
                &&& final(job_id).spec_index() == es.len()
                &&& (forall|m: int|
                    old(job_id).spec_index() <= m < es.len() ==> !entry_clean(
                        (#[trigger] es[m])@,
                        present@,
                    ))
            },
    {
        let slot = match self.find_slot(&job_id.job) {
            Some(i) => i,
            // The manager holds this job, so the lookup cannot miss.
            None => vstd::pervasive::unreached(),
        };
        let ghost es = self.spec_workers()[slot as int].spec_entries();
        let ghost start = job_id.spec_index();
        loop
            invariant
                self.wf(),
                present.wf(),
                slot < self.spec_workers().len(),
                self.spec_workers()[slot as int].spec_job().to_multiset()
                    == job_id.spec_job().to_multiset(),
                self.slot_of(job_id.spec_job()) == slot,
                old(self).slot_of(job_id.spec_job()) == slot,
                self.spec_workers()[slot as int].spec_job() == old(self).spec_workers()[
                    slot as int
                ].spec_job(),
                self.spec_workers()[slot as int].spec_entries() == es,
                job_id.spec_job() == old(job_id).spec_job(),
                start == old(job_id).spec_index(),
                self.spec_workers().len() == old(self).spec_workers().len(),
                forall|i: int|
                    0 <= i < old(self).spec_workers().len() && i != slot ==> self.spec_workers()[i]
                        == old(self).spec_workers()[i],
                old(self).spec_workers()[slot as int].spec_entries() == es,
                old(self).spec_workers()[slot as int].spec_job().to_multiset()
                    == job_id.spec_job().to_multiset(),
                start <= job_id.spec_index() <= es.len(),
                forall|m: int|
                    start <= m < job_id.spec_index() ==> !entry_clean(
                        (#[trigger] es[m])@,
                        present@,
                    ),
            decreases 2 * es.len() + 1 - self.spec_workers()[slot as int].spec_produced()
                - job_id.spec_index(),
        {
            let produced = self.workers[slot].len();
            if job_id.index >= produced {
                let before = produced;
                let w = &mut self.workers[slot];
                w.work();
                if self.workers[slot].len() == before {
                    // Exhausted: nothing more can be materialized.
                    proof {
                        assert(job_id.spec_index() == es.len());
                    }
                    return false;
                }
            } else {
                let entry = self.workers[slot].get(job_id.index);
                let mut m: usize = 0;
                let mut blocked = false;
                let n = entry.len();
                while m < n
                    invariant
                        m <= n,
                        n == entry@.len(),
                        present.wf(),
                        blocked ==> !entry_clean(entry@, present@),
                        !blocked ==> forall|t: int|
                            0 <= t < m ==> !present@.contains(#[trigger] entry@[t]),
                    decreases n - m,
                {
                    if present.is_present(&entry[m]) {
                        blocked = true;
                    }
                    m += 1;
                }
                if blocked {
                    job_id.index = job_id.index + 1;
                } else {
                    proof {
                        assert(entry_clean(es[job_id.spec_index()]@, present@));
                    }
                    return true;
                }
            }
        }
    }

    /// The completion the cursor rests on.
    pub fn get(&self, job_id: &JobIdentifier) -> (r: &Vec<Card>)
        requires
            self.wf(),
            job_id.spec_job().len() <= 3,
            self.has_job(job_id.spec_job()),
            job_id.spec_index() < self.worker_for(job_id.spec_job()).spec_produced(),
        ensures
            r@ == self.worker_for(job_id.spec_job()).spec_entries()[job_id.spec_index()]@,
    {
        let slot = match self.find_slot(&job_id.job) {
            Some(i) => i,
            // The manager holds this job, so the lookup cannot miss.
            None => vstd::pervasive::unreached(),
        };
        self.workers[slot].get(job_id.index)
    }
}

/// The cache service a board consults during look-ahead: a deduplicating
/// job manager seeded with the empty job, and one cursor per player and
/// stone, each starting at that empty job.
pub struct BestOption {
    manager: JobManager,
    job_ids: Vec<JobIdentifier>,
}

impl BestOption {
    pub closed spec fn spec_manager(self) -> JobManager {
        self.manager
    }

    pub closed spec fn spec_job_ids(self) -> Seq<JobIdentifier> {
        self.job_ids@
    }

    pub open spec fn wf(self) -> bool {
        &&& self.spec_manager().wf()
        &&& self.spec_manager().has_job(Seq::<Card>::empty())
        &&& self.spec_job_ids().len() == 18
        &&& (forall|k: int|
            0 <= k < 18 ==> (#[trigger] self.spec_job_ids()[k]).spec_job() == Seq::<
                Card,
            >::empty() && 0 <= self.spec_job_ids()[k].spec_index() <= self.spec_manager().worker_for(
                Seq::<Card>::empty(),
            ).spec_entries().len())
    }

    /// The cursor used for the given player and stone.
    pub open spec fn spec_cursor(self, p: int, s: int) -> int {
        self.spec_job_ids()[p * 9 + s].spec_index()
    }

    pub fn new() -> (r: BestOption)
        ensures
            r.wf(),
            r.spec_manager().spec_workers().len() == 1,
            r.spec_manager().worker_for(Seq::<Card>::empty()).spec_produced() == 0,
            forall|k: int| 0 <= k < 18 ==> (#[trigger] r.spec_job_ids()[k]).spec_index() == 0,
    {
        let mut manager = JobManager::new();
        let empty = StoneCards::new();
        let mut seed: Vec<StoneCards> = Vec::new();
        seed.push(empty);
        proof {
            assert(seed@[0]@ =~= Seq::<Card>::empty());
        }
        manager.add_jobs(&seed);
        let mut job_ids: Vec<JobIdentifier> = Vec::new();
        let mut k: usize = 0;
        while k < 18
            invariant
                k <= 18,
                job_ids@.len() == k,
                forall|m: int|
                    0 <= m < k ==> (#[trigger] job_ids@[m]).spec_job() == Seq::<Card>::empty()
                        && job_ids@[m].spec_index() == 0,
            decreases 18 - k,
        {
            let blank = StoneCards::new();
            let id = JobIdentifier::new(&blank);
            proof {
                assert(id.spec_job() =~= Seq::<Card>::empty());
            }
            job_ids.push(id);
            k += 1;
        }
        proof {
            assert(manager.has_job(seed@[0]@));
            assert(manager.has_job(Seq::<Card>::empty()));
        }
        BestOption { manager, job_ids }
    }

    /// The next completion for the opponent-unknown job at this player's
    /// and stone's cursor that references no present card, ascending by
    /// strength; the cursor steps past it. `None` means the enumeration
    /// is exhausted under the current present-card snapshot, a normal
    /// terminal condition.
    pub fn next_completion(&mut self, player: Player, stone: Stone, present: &PresentCards) -> (r:
        Option<Vec<Card>>)
        requires
            old(self).wf(),
            present.wf(),
        ensures
            final(self).wf(),
            final(self).spec_manager().worker_for(Seq::<Card>::empty()).spec_entries() == old(
                self,
            ).spec_manager().worker_for(Seq::<Card>::empty()).spec_entries(),
            ({
                let es = old(self).spec_manager().worker_for(Seq::<Card>::empty()).spec_entries();
                let start = old(self).spec_cursor(player.spec_index(), stone.spec_index());
                match r {
                    Some(e) => {
                        let k = final(self).spec_cursor(player.spec_index(), stone.spec_index())
                            - 1;
                        &&& start <= k < es.len()
                        &&& e@ == es[k]@
                        &&& entry_clean(e@, present@)
                        &&& (forall|m: int|
                            start <= m < k ==> !entry_clean((#[trigger] es[m])@, present@))
                    },
                    None => {
                        &&& final(self).spec_cursor(player.spec_index(), stone.spec_index())
                            == es.len()
                        &&& (forall|m: int|
                            start <= m < es.len() ==> !entry_clean((#[trigger] es[m])@, present@))
                    },
                }
            }),
    {
        proof {
            use_type_invariant(&player);
            use_type_invariant(&stone);
        }
        let idx = player.get_index() * 9 + stone.get_index();
        let ghost empty_job = Seq::<Card>::empty();
        let ghost slot = self.manager.slot_of(empty_job);
        let jid = &mut self.job_ids[idx];
        let found = self.manager.update_job(jid, present);
        let r = if found {
            let entry = clone_completion(self.manager.get(jid));
            jid.advance();
            Some(entry)
        } else {
            None
        };
        proof {
            assert forall|k: int|
                0 <= k < 18 implies (#[trigger] self.spec_job_ids()[k]).spec_job() == empty_job
                && 0 <= self.spec_job_ids()[k].spec_index() <= self.spec_manager().worker_for(
                empty_job,
            ).spec_entries().len() by {
                if k != idx {
                    assert(self.spec_job_ids()[k] == old(self).spec_job_ids()[k]);
                }
            }
        }
        r
    }
}

fn clone_completion(v: &Vec<Card>) -> (r: Vec<Card>)
    ensures
        r@ == v@,
{
    let mut out: Vec<Card> = Vec::new();
    let mut i: usize = 0;
    while i < v.len()
        invariant
            i <= v@.len(),
            out@ =~= v@.subrange(0, i as int),
        decreases v@.len() - i,
    {
        out.push(v[i]);
        i += 1;
    }
    proof {
        assert(out@ =~= v@);
    }
    out
}

} // verus!