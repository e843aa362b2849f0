//! The interleaving driver: it holds a set of searches and advances each by
//! one step per round, so that the fetch that one search has hinted is under
//! way while the others make their comparisons.

use vstd::prelude::*;
use crate::hint::PrefetchHint;
use crate::laws::{lemma_after, lemma_after_next, lemma_search_finds_last_match};
use crate::model::{is_last_match, sorted, SearchState, StepResult};
use crate::search::SuspendableSearch;

verus! {

/// The states of the searches of a batch, each at the index that is its
/// identity.
pub open spec fn states_of<'a>(tasks: Seq<SuspendableSearch<'a>>) -> Seq<SearchState> {
    Seq::new(tasks.len(), |i: int| tasks[i]@)
}

/// The number of rounds after which every search of a batch is finished: the
/// largest number of resumes that one of them has left.
pub open spec fn rounds_needed(tasks: Seq<SearchState>) -> nat
    decreases tasks.len(),
{
    if tasks.len() == 0 {
        0
    } else {
        let rest: nat = rounds_needed(tasks.drop_last());
        let last: nat = tasks.last().resumes_left();
        if last > rest {
            last
        } else {
            rest
        }
    }
}

/// No search of a batch has more resumes left than the batch needs rounds.
pub proof fn lemma_rounds_needed(tasks: Seq<SearchState>, id: int)
    requires
        0 <= id < tasks.len(),
    ensures
        tasks[id].resumes_left() <= rounds_needed(tasks),
    decreases tasks.len(),
{
    if id < tasks.len() - 1 {
        lemma_rounds_needed(tasks.drop_last(), id);
    }
}

/// A batch is finished after a number of rounds exactly when that number is
/// at least the number of rounds that the batch needs.
pub proof fn lemma_finished_after_rounds_needed(tasks: Seq<SearchState>, rounds: nat)
    ensures
        (forall|id: int| 0 <= id < tasks.len() ==> (#[trigger] tasks[id]).resumes_left() <= rounds)
            <==> rounds_needed(tasks) <= rounds,
    decreases tasks.len(),
{
    if tasks.len() > 0 {
        let rest = tasks.drop_last();
        lemma_finished_after_rounds_needed(rest, rounds);
        if rounds_needed(tasks) <= rounds {
            assert forall|id: int| 0 <= id < tasks.len() implies
                (#[trigger] tasks[id]).resumes_left() <= rounds by {
                lemma_rounds_needed(tasks, id);
            }
        }
        if forall|id: int|
            0 <= id < tasks.len() ==> (#[trigger] tasks[id]).resumes_left() <= rounds {
            assert forall|id: int| 0 <= id < rest.len() implies
                (#[trigger] rest[id]).resumes_left() <= rounds by {
                assert(rest[id] == tasks[id]);
            }
            assert(tasks.last() == tasks[tasks.len() - 1]);
        }
    }
}

/// The identities of the active searches in slot order, once the slots from
/// `from` on have been resumed in round `rounds + 1`.
///
/// `order` holds the identities in slot order when the scan stands at slot
/// `from`. A search that completes on this resume leaves the set, and the
/// last search of the set moves into its slot, where the scan goes on; a
/// search that yields stays where it is.
pub open spec fn round_order(
    tasks: Seq<SearchState>,
    rounds: nat,
    order: Seq<int>,
    from: int,
) -> Seq<int>
    decreases order.len() - from,
{
    if from < 0 || from >= order.len() {
        order
    } else if tasks[order[from]].resumes_left() <= rounds + 1 {
        round_order(tasks, rounds, order.update(from, order.last()).drop_last(), from)
    } else {
        round_order(tasks, rounds, order, from + 1)
    }
}

/// A set of searches that are advanced in rounds.
///
/// A search is known by its identity, the index that it had in the batch
/// that the driver was made from. The slot in which the driver keeps a search
/// changes as finished searches leave the set; its identity does not.
pub struct InterleavingDriver<'a> {
    /// The searches that are not finished, by slot.
    active: Vec<SuspendableSearch<'a>>,
    /// The identity of the search in each slot.
    ids: Vec<usize>,
    /// The outcome of each search that has completed, by identity.
    outcomes: Vec<Option<Result<usize, usize>>>,
    /// The states of the searches when the driver was made, by identity.
    tasks: Ghost<Seq<SearchState>>,
    /// The number of rounds made.
    rounds: Ghost<nat>,
    /// The slot of each search, by identity; `-1` once it has left the set.
    slots: Ghost<Seq<int>>,
}

impl<'a> InterleavingDriver<'a> {
    /// The states that the searches had when the driver was made, by
    /// identity.
    pub closed spec fn tasks(&self) -> Seq<SearchState> {
        self.tasks@
    }

    /// The number of rounds made so far.
    pub closed spec fn rounds(&self) -> nat {
        self.rounds@
    }

    /// The search `id` is still in the active set: it had more resumes left
    /// than rounds have been made.
    pub open spec fn active(&self, id: int) -> bool {
        0 <= id < self.tasks().len() && self.tasks()[id].resumes_left() > self.rounds()
    }

    /// No search is left in the active set.
    pub open spec fn finished(&self) -> bool {
        forall|id: int| !self.active(id)
    }

    /// The identities of the searches in the active set.
    pub open spec fn active_set(&self) -> Set<int> {
        Set::new(|id: int| self.active(id))
    }

    /// The identities of the searches in the active set, in the order of
    /// their slots, which is the order in which a round resumes them.
    pub closed spec fn order(&self) -> Seq<int> {
        Seq::new(self.ids@.len(), |j: int| self.ids@[j] as int)
    }

    /// Where the search `id` stands: one resume further for every round in
    /// which it was active.
    pub open spec fn state(&self, id: int) -> SearchState {
        let task = self.tasks()[id];
        if self.active(id) {
            task.after(self.rounds())
        } else {
            task.after(task.resumes_left())
        }
    }

    /// Slot `j` holds a search whose identity points back at `j`, which has
    /// been resumed once in every round, the current one included where `j`
    /// is below `stepped`, and is not finished.
    spec fn slot_inv(&self, j: int, stepped: int) -> bool {
        let id: int = self.ids@[j] as int;
        let r: nat = if j < stepped {
            self.rounds@ + 1
        } else {
            self.rounds@
        };
        &&& 0 <= id < self.tasks@.len()
        &&& self.slots@[id] == j
        &&& self.tasks@[id].resumes_left() > r
        &&& self.active@[j]@ == self.tasks@[id].after(r)
    }

    /// The search `id` is in the slot that is noted for it and has no
    /// outcome yet, or it has left the set within `bound` rounds and its
    /// outcome is recorded.
    spec fn id_inv(&self, id: int, bound: nat) -> bool {
        let j: int = self.slots@[id];
        if j >= 0 {
            &&& j < self.ids@.len()
            &&& self.ids@[j] == id
            &&& self.outcomes@[id] is None
        } else {
            &&& self.outcomes@[id] == Some(self.tasks@[id].outcome())
            &&& self.tasks@[id].resumes_left() <= bound
        }
    }

    /// The invariant in the middle of a round, when the first `stepped`
    /// slots have been resumed.
    spec fn inv(&self, stepped: int, bound: nat) -> bool {
        let n: nat = self.tasks@.len();
        &&& self.ids@.len() == self.active@.len()
        &&& self.outcomes@.len() == n
        &&& self.slots@.len() == n
        &&& forall|id: int|
            0 <= id < n ==> (#[trigger] self.tasks@[id]).wf() && !self.tasks@[id].is_done()
        &&& forall|j: int| 0 <= j < self.ids@.len() ==> #[trigger] self.slot_inv(j, stepped)
        &&& forall|id: int| 0 <= id < n ==> #[trigger] self.id_inv(id, bound)
    }

    /// Between rounds every active search has been resumed once per round,
    /// and every other search has its outcome recorded.
    pub closed spec fn wf(&self) -> bool {
        self.inv(0, self.rounds@)
    }

    /// The slots hold the active searches, each once.
    pub proof fn lemma_order(&self)
        requires
            self.wf(),
        ensures
            self.order().no_duplicates(),
            forall|id: int| self.active(id) <==> self.order().contains(id),
            self.active_set().finite(),
            self.active_set().len() == self.order().len(),
    {
        let order = self.order();
        assert forall|j: int, k: int|
            0 <= j < order.len() && 0 <= k < order.len() && j != k implies order[j] != order[k] by {
            assert(self.slot_inv(j, 0));
            assert(self.slot_inv(k, 0));
        }
        assert forall|id: int| self.active(id) <==> order.contains(id) by {
            if order.contains(id) {
                let j: int = choose|j: int| 0 <= j < order.len() && order[j] == id;
                assert(self.slot_inv(j, 0));
            }
            if self.active(id) {
                assert(self.id_inv(id, self.rounds@));
                assert(order[self.slots@[id]] == id);
            }
        }
        assert(order.to_set() =~= self.active_set());
        order.unique_seq_to_set();
    }

    /// Makes a driver for a batch of unfinished searches. The identity of a
    /// search is its index in `tasks`, and so is its first slot.
    pub fn new(tasks: Vec<SuspendableSearch<'a>>) -> (driver: Self)
        requires
            forall|i: int| 0 <= i < tasks@.len() ==> !(#[trigger] tasks@[i])@.is_done(),
        ensures
            driver.wf(),
            driver.tasks() == states_of(tasks@),
            driver.rounds() == 0,
            driver.order() == Seq::new(tasks@.len(), |i: int| i),
    {
        let n: usize = tasks.len();
        let mut ids: Vec<usize> = Vec::new();
        let mut outcomes: Vec<Option<Result<usize, usize>>> = Vec::new();
        let mut i: usize = 0;
        while i < n
            invariant
                n == tasks@.len(),
                i <= n,
                ids@.len() == i,
                outcomes@.len() == i,
                forall|j: int| 0 <= j < i ==> ids@[j] == j,
                forall|j: int| 0 <= j < i ==> outcomes@[j] is None,
                forall|j: int| 0 <= j < i ==> (#[trigger] tasks@[j])@.wf(),
            decreases n - i,
        {
            let task = &tasks[i];
            proof {
                use_type_invariant(task);
                task.lemma_inv();
            }
            ids.push(i);
            outcomes.push(None);
            i += 1;
        }
        let ghost states = states_of(tasks@);
        let driver = InterleavingDriver {
            active: tasks,
            ids,
            outcomes,
            tasks: Ghost(states),
            rounds: Ghost(0),
            slots: Ghost(Seq::new(n as nat, |id: int| id)),
        };
        proof {
            assert forall|j: int| 0 <= j < driver.ids@.len() implies
                #[trigger] driver.slot_inv(j, 0) by {
                lemma_after(states[j], 0);
            }
            assert forall|id: int| 0 <= id < states.len() implies
                #[trigger] driver.id_inv(id, 0) by {}
            assert(driver.order() =~= Seq::new(tasks@.len(), |i: int| i));
        }
        driver
    }

    /// Whether every search has completed.
    pub fn is_finished(&self) -> (done: bool)
        requires
            self.wf(),
        ensures
            done == self.finished(),
    {
        let done = self.active.is_empty();
        proof {
            if done {
                assert forall|id: int| !self.active(id) by {
                    if 0 <= id < self.tasks@.len() {
                        assert(self.id_inv(id, self.rounds@));
                    }
                }
            } else {
                assert(self.slot_inv(0, 0));
                assert(self.active(self.ids@[0] as int));
            }
        }
        done
    }

    /// The number of searches in the active set.
    pub fn active_len(&self) -> (len: usize)
        requires
            self.wf(),
        ensures
            len == self.order().len(),
            len == self.active_set().len(),
    {
        proof {
            self.lemma_order();
        }
        self.active.len()
    }

    /// The identity of the search in slot `slot`, if the active set has that
    /// many slots.
    pub fn id_at(&self, slot: usize) -> (id: Option<usize>)
        requires
            self.wf(),
        ensures
            id == (if slot < self.order().len() {
                Some(self.order()[slot as int] as usize)
            } else {
                None
            }),
    {
        if slot < self.ids.len() {
            Some(self.ids[slot])
        } else {
            None
        }
    }

    /// The outcome of the search `id`, once it has completed.
    pub fn outcome(&self, id: usize) -> (r: Option<Result<usize, usize>>)
        requires
            self.wf(),
        ensures
            r == (if id < self.tasks().len() && !self.active(id as int) {
                Some(self.tasks()[id as int].outcome())
            } else {
                None
            }),
    {
        if id < self.outcomes.len() {
            proof {
                assert(self.id_inv(id as int, self.rounds@));
                if self.slots@[id as int] >= 0 {
                    assert(self.slot_inv(self.slots@[id as int], 0));
                }
            }
            self.outcomes[id]
        } else {
            None
        }
    }

    /// Makes one round: resumes every active search exactly once, in the
    /// order of the slots, records the outcome of each search that completes
    /// and takes it out of the set. The last search of the set moves into
    /// the slot that is left and is resumed there, in the same round.
    pub fn round<H: PrefetchHint>(&mut self, hint: &H)
        requires
            old(self).wf(),
        ensures
            final(self).wf(),
            final(self).tasks() == old(self).tasks(),
            final(self).rounds() == old(self).rounds() + 1,
            forall|id: int|
                0 <= id < old(self).tasks().len() ==>
                    #[trigger] final(self).state(id) == (if old(self).active(id) {
                        old(self).state(id).next()
                    } else {
                        old(self).state(id)
                    }),
            final(self).order()
                == round_order(old(self).tasks(), old(self).rounds(), old(self).order(), 0),
    {
        let ghost r: nat = self.rounds@;
        proof {
            assert forall|id: int| 0 <= id < self.tasks@.len() && self.active(id) implies
                (#[trigger] self.tasks@[id]).after(r).next() == self.tasks@[id].after(r + 1) by {
                lemma_after_next(self.tasks@[id], r);
            }
            assert forall|id: int| 0 <= id < self.tasks@.len() implies
                #[trigger] self.id_inv(id, r + 1) by {
                assert(self.id_inv(id, r));
            }
        }
        let mut i: usize = 0;
        while i < self.active.len()
            invariant
                self.tasks@ == old(self).tasks@,
                self.rounds@ == old(self).rounds@,
                r == self.rounds@,
                i <= self.active@.len(),
                self.inv(i as int, r + 1),
                round_order(self.tasks@, r, self.order(), i as int) == round_order(
                    self.tasks@,
                    r,
                    old(self).order(),
                    0,
                ),
            decreases self.active@.len() - i,
        {
            let ghost before = *self;
            let ghost id: int = self.ids@[i as int] as int;
            let ghost task = self.tasks@[id];
            proof {
                assert(self.slot_inv(i as int, i as int));
                lemma_after(task, r);
                lemma_after_next(task, r);
            }
            match self.active[i].resume(hint) {
                StepResult::Yielded => {
                    proof {
                        assert forall|j: int| 0 <= j < self.ids@.len() implies
                            #[trigger] self.slot_inv(j, i + 1) by {
                            assert(before.slot_inv(j, i as int));
                        }
                        assert forall|other: int| 0 <= other < self.tasks@.len() implies
                            #[trigger] self.id_inv(other, r + 1) by {
                            assert(before.id_inv(other, r + 1));
                        }
                    }
                    i += 1;
                },
                StepResult::Completed(outcome) => {
                    let done_id: usize = self.ids[i];
                    let ghost last: int = self.ids@.len() - 1;
                    let ghost moved: int = self.ids@[last] as int;
                    proof {
                        assert(before.slot_inv(last, i as int));
                    }
                    self.outcomes.set(done_id, Some(outcome));
                    self.active.swap_remove(i);
                    self.ids.swap_remove(i);
                    proof {
                        let slots = if i == last {
                            before.slots@.update(id, -1)
                        } else {
                            before.slots@.update(moved, i as int).update(id, -1)
                        };
                        self.slots@ = slots;
                        assert(self.order() =~= before.order().update(
                            i as int,
                            before.order().last(),
                        ).drop_last());
                        assert forall|j: int| 0 <= j < self.ids@.len() implies
                            #[trigger] self.slot_inv(j, i as int) by {
                            if j == i {
                                assert(before.slot_inv(last, i as int));
                            } else {
                                assert(before.slot_inv(j, i as int));
                            }
                        }
                        assert forall|other: int| 0 <= other < self.tasks@.len() implies
                            #[trigger] self.id_inv(other, r + 1) by {
                            assert(before.id_inv(other, r + 1));
                            if before.slots@[other] >= 0 {
                                assert(before.slot_inv(before.slots@[other], i as int));
                            }
                        }
                    }
                },
            }
        }
        proof {
            let ghost before = *self;
            self.rounds@ = r + 1;
            assert(self.order() == before.order());
            assert forall|j: int| 0 <= j < self.ids@.len() implies
                #[trigger] self.slot_inv(j, 0) by {
                assert(before.slot_inv(j, i as int));
            }
            assert forall|id: int| 0 <= id < self.tasks@.len() implies
                #[trigger] self.id_inv(id, r + 1) by {
                assert(before.id_inv(id, r + 1));
            }
        }
    }

    /// The outcomes of all searches, by identity, once every search has
    /// completed.
    pub fn into_outcomes(self) -> (outcomes: Vec<Result<usize, usize>>)
        requires
            self.wf(),
            self.finished(),
        ensures
            outcomes@.len() == self.tasks().len(),
            forall|id: int|
                0 <= id < outcomes@.len() ==>
                    outcomes@[id] == (#[trigger] self.tasks()[id]).outcome(),
    {
        let n: usize = self.outcomes.len();
        let mut outcomes: Vec<Result<usize, usize>> = Vec::new();
        let mut id: usize = 0;
        while id < n
            invariant
                self.wf(),
                self.finished(),
                n == self.tasks@.len(),
                n == self.outcomes@.len(),
                id <= n,
                outcomes@.len() == id,
                forall|k: int|
                    0 <= k < id ==> outcomes@[k] == (#[trigger] self.tasks@[k]).outcome(),
            decreases n - id,
        {
            proof {
                assert(self.id_inv(id as int, self.rounds@));
                assert(!self.active(id as int));
                if self.slots@[id as int] >= 0 {
                    assert(self.slot_inv(self.slots@[id as int], 0));
                }
            }
            let recorded: Option<Result<usize, usize>> = self.outcomes[id];
            outcomes.push(recorded.unwrap());
            id += 1;
        }
        outcomes
    }
}

/// Runs a batch of unfinished searches to completion, interleaved: round
/// after round, every search that is not finished is resumed once.
///
/// Returns the outcomes by identity: the outcome at index `i` is the one
/// that the search `tasks[i]` completes with when it is run alone.
pub fn run_all<'a, H: PrefetchHint>(
    tasks: Vec<SuspendableSearch<'a>>,
    hint: &H,
) -> (outcomes: Vec<Result<usize, usize>>)
    requires
        forall|i: int| 0 <= i < tasks@.len() ==> !(#[trigger] tasks@[i])@.is_done(),
    ensures
        outcomes@.len() == tasks@.len(),
        forall|i: int|
            0 <= i < tasks@.len() ==> outcomes@[i] == (#[trigger] tasks@[i])@.outcome(),
{
    let mut driver = InterleavingDriver::new(tasks);
    while !driver.is_finished()
        invariant
            driver.wf(),
            driver.tasks() == states_of(tasks@),
        decreases rounds_needed(driver.tasks()) - driver.rounds(),
    {
        proof {
            let id: int = choose|id: int| driver.active(id);
            lemma_rounds_needed(driver.tasks(), id);
        }
        driver.round(hint);
    }
    let ghost states = driver.tasks();
    let outcomes = driver.into_outcomes();
    proof {
        assert forall|i: int| 0 <= i < tasks@.len() implies
            outcomes@[i] == (#[trigger] tasks@[i])@.outcome() by {
            assert(states[i] == tasks@[i]@);
        }
    }
    outcomes
}

/// Runs a batch of unfinished searches to completion one after the other:
/// the driver without interleaving, which gives the same outcomes and hides
/// no latency.
pub fn run_each<'a, H: PrefetchHint>(
    tasks: Vec<SuspendableSearch<'a>>,
    hint: &H,
) -> (outcomes: Vec<Result<usize, usize>>)
    requires
        forall|i: int| 0 <= i < tasks@.len() ==> !(#[trigger] tasks@[i])@.is_done(),
    ensures
        outcomes@.len() == tasks@.len(),
        forall|i: int|
            0 <= i < tasks@.len() ==> outcomes@[i] == (#[trigger] tasks@[i])@.outcome(),
{
    let ghost start = tasks@;
    let mut tasks = tasks;
    let mut outcomes: Vec<Result<usize, usize>> = Vec::new();
    let mut i: usize = 0;
    while i < tasks.len()
        invariant
            tasks@.len() == start.len(),
            i <= tasks@.len(),
            outcomes@.len() == i,
            forall|j: int| 0 <= j < start.len() ==> !(#[trigger] start[j])@.is_done(),
            forall|j: int| i <= j < start.len() ==> tasks@[j] == start[j],
            forall|j: int| 0 <= j < i ==> outcomes@[j] == (#[trigger] start[j])@.outcome(),
        decreases tasks@.len() - i,
    {
        assert(!start[i as int]@.is_done());
        let outcome = tasks[i].run(hint);
        outcomes.push(outcome);
        i += 1;
    }
    outcomes
}

/// Interleaving does not change what a search finds: where `batch` holds
/// what the interleaved searches for `values` in `seq` give, as `search_all`
/// returns it, and `single` is what a search for `values[i]` alone completes
/// with, as `search` returns it, the two agree at `i`.
pub proof fn lemma_batch_matches_single(
    seq: Seq<i32>,
    values: Seq<i32>,
    batch: Seq<Result<usize, usize>>,
    i: int,
    single: Result<usize, usize>,
)
    requires
        batch.len() == values.len(),
        forall|j: int|
            0 <= j < values.len() ==>
                batch[j] == SearchState::initial(seq, #[trigger] values[j]).outcome(),
        0 <= i < values.len(),
        single == SearchState::initial(seq, values[i]).outcome(),
    ensures
        batch[i] == single,
{
}

/// Searches `seq` for each of `values`, with one search per value, all of
/// them interleaved.
///
/// The outcome at index `i` is the one that a search for `values[i]` alone
/// completes with. In an ascending `seq` it is `Ok` of the index of
/// `values[i]`, the last one where it occurs several times, or `Err` of the
/// index where it would have to be inserted.
pub fn search_all<H: PrefetchHint>(
    seq: &[i32],
    values: &[i32],
    hint: &H,
) -> (outcomes: Vec<Result<usize, usize>>)
    ensures
        outcomes@.len() == values@.len(),
        forall|i: int|
            0 <= i < values@.len() ==>
                outcomes@[i] == SearchState::initial(seq@, #[trigger] values@[i]).outcome(),
        sorted(seq@) ==> forall|i: int|
            0 <= i < values@.len() ==> is_last_match(seq@, #[trigger] values@[i], outcomes@[i]),
{
    let mut tasks: Vec<SuspendableSearch> = Vec::new();
    let mut i: usize = 0;
    while i < values.len()
        invariant
            i <= values@.len(),
            tasks@.len() == i,
            forall|j: int|
                0 <= j < i ==> (#[trigger] tasks@[j])@ == SearchState::initial(seq@, values@[j])
                    && tasks@[j]@.wf(),
        decreases values@.len() - i,
    {
        tasks.push(SuspendableSearch::new(seq, values[i]));
        i += 1;
    }
    let outcomes = run_all(tasks, hint);
    proof {
        assert forall|i: int| 0 <= i < values@.len() implies
            outcomes@[i] == SearchState::initial(seq@, #[trigger] values@[i]).outcome() by {
            assert(tasks@[i]@ == SearchState::initial(seq@, values@[i]));
        }
        if sorted(seq@) {
            assert forall|i: int| 0 <= i < values@.len() implies
                is_last_match(seq@, #[trigger] values@[i], outcomes@[i]) by {
                assert(tasks@[i]@.wf());
                lemma_search_finds_last_match(seq@, values@[i]);
            }
        }
    }
    outcomes
}

} // verus!
