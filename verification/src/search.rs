//! The suspendable search: a binary search that stops after each prefetch
//! hint and is resumed to make the comparison that the hint prepared.

use vstd::prelude::*;
use crate::hint::PrefetchHint;
use crate::laws::{
    lemma_after, lemma_after_next, lemma_initial, lemma_search_finds_last_match, lemma_step,
};
use crate::model::{is_first_match, is_last_match, sorted, Phase, SearchState, StepResult};

verus! {

/// One binary search in flight over a borrowed slice.
///
/// The slice has to be in ascending order for the outcome to mean anything;
/// this is not checked. On any slice the search stays inside the slice and
/// finishes after the same number of resumes.
pub struct SuspendableSearch<'a> {
    seq: &'a [i32],
    value: i32,
    phase: Phase,
    base: usize,
    size: usize,
    mid: usize,
}

impl<'a> View for SuspendableSearch<'a> {
    type V = SearchState;

    closed spec fn view(&self) -> SearchState {
        SearchState {
            seq: self.seq@,
            value: self.value,
            phase: self.phase,
            base: self.base as int,
            size: self.size as int,
        }
    }
}

impl<'a> SuspendableSearch<'a> {
    /// What holds of every search at all times: its state is well-formed,
    /// and the index that it keeps for its next read is the one that its
    /// state asks for.
    #[verifier::type_invariant]
    pub closed spec fn inv(self) -> bool {
        &&& self@.wf()
        &&& self.mid == self@.probe()
    }

    /// The state of a search is well-formed.
    pub proof fn lemma_inv(self)
        requires
            self.inv(),
        ensures
            self@.wf(),
    {
    }

    /// Starts a search for `value` in `seq`. Nothing of `seq` is read or
    /// hinted before the first resume.
    pub fn new(seq: &'a [i32], value: i32) -> (task: Self)
        ensures
            task@ == SearchState::initial(seq@, value),
            task@.wf(),
    {
        SuspendableSearch { seq, value, phase: Phase::Start, base: 0, size: seq.len(), mid: 0 }
    }

    /// Whether the search has reported its outcome. A finished search must
    /// not be resumed.
    pub fn is_done(&self) -> (done: bool)
        ensures
            done == self@.is_done(),
    {
        match self.phase {
            Phase::Done => true,
            _ => false,
        }
    }

    /// The phase that the next resume starts from.
    pub fn phase(&self) -> (phase: Phase)
        ensures
            phase == self@.phase,
    {
        self.phase
    }

    /// The value that is looked for.
    pub fn value(&self) -> (value: i32)
        ensures
            value == self@.value,
    {
        self.value
    }

    /// The slice that is searched.
    pub fn sequence(&self) -> (seq: &'a [i32])
        ensures
            seq@ == self@.seq,
    {
        self.seq
    }

    /// The window `[base, base + size)` that the search has narrowed the
    /// slice to, as `(base, size)`. It never reaches past the slice.
    pub fn window(&self) -> (window: (usize, usize))
        ensures
            window.0 == self@.base,
            window.1 == self@.size,
            window.0 + window.1 <= self@.seq.len(),
    {
        proof {
            use_type_invariant(self);
        }
        (self.base, self.size)
    }

    /// The index of the element that the last resume hinted and the next one
    /// reads: the midpoint of the window while exploring, its single element
    /// in the final phase. Before the first resume and after the last there
    /// is none.
    pub fn probe_index(&self) -> (index: Option<usize>)
        ensures
            index == (match self@.phase {
                Phase::Explore | Phase::Final => Some(self@.probe() as usize),
                _ => None,
            }),
            index matches Some(i) ==> i < self@.seq.len(),
    {
        proof {
            use_type_invariant(self);
        }
        match self.phase {
            Phase::Explore | Phase::Final => Some(self.mid),
            _ => None,
        }
    }

    /// Sets the window to `[base, base + size)`, hints the element that the
    /// next resume reads, and waits in the phase that fits the window.
    fn enter<H: PrefetchHint>(&mut self, base: usize, size: usize, hint: &H)
        requires
            1 <= size,
            base + size <= old(self)@.seq.len(),
        ensures
            final(self)@ == old(self)@.enter(base as int, size as int),
    {
        proof {
            use_type_invariant(&*self);
        }
        let seq = self.seq;
        let value: i32 = self.value;
        let phase = if size > 1 {
            Phase::Explore
        } else {
            Phase::Final
        };
        let mid: usize = if size > 1 {
            base + size / 2
        } else {
            base
        };
        hint.prefetch(&seq[mid]);
        *self = SuspendableSearch { seq, value, phase, base, size, mid };
    }

    /// Advances the search by one phase.
    ///
    /// Returns `Yielded` after hinting the element that the next resume
    /// compares, or `Completed` with the outcome, after which the search is
    /// finished.
    pub fn resume<H: PrefetchHint>(&mut self, hint: &H) -> (r: StepResult)
        requires
            !old(self)@.is_done(),
        ensures
            r == old(self)@.result(),
            final(self)@ == old(self)@.next(),
            final(self)@.wf(),
    {
        proof {
            use_type_invariant(&*self);
            lemma_step(self@);
        }
        let seq = self.seq;
        let value: i32 = self.value;
        match self.phase {
            Phase::Start => {
                let len: usize = seq.len();
                if len == 0 {
                    self.phase = Phase::Done;
                    StepResult::Completed(Err(0))
                } else {
                    self.enter(0, len, hint);
                    StepResult::Yielded
                }
            },
            Phase::Explore => {
                let half: usize = self.size / 2;
                let base: usize = if seq[self.mid] > value {
                    self.base
                } else {
                    self.mid
                };
                self.enter(base, self.size - half, hint);
                StepResult::Yielded
            },
            Phase::Final => {
                let base: usize = self.base;
                let element: i32 = seq[base];
                self.phase = Phase::Done;
                if element == value {
                    StepResult::Completed(Ok(base))
                } else if element < value {
                    StepResult::Completed(Err(base + 1))
                } else {
                    StepResult::Completed(Err(base))
                }
            },
            Phase::Done => vstd::pervasive::unreached(),
        }
    }

    /// Advances the search by one phase unless it is finished: the resume
    /// for callers that cannot rule out a finished search. A finished search
    /// is left as it is and reports nothing.
    pub fn try_resume<H: PrefetchHint>(&mut self, hint: &H) -> (r: Option<StepResult>)
        ensures
            old(self)@.is_done() ==> r is None && final(self)@ == old(self)@,
            !old(self)@.is_done() ==> r == Some(old(self)@.result())
                && final(self)@ == old(self)@.next(),
    {
        if self.is_done() {
            None
        } else {
            Some(self.resume(hint))
        }
    }

    /// Resumes the search until it completes, and returns its outcome.
    pub fn run<H: PrefetchHint>(&mut self, hint: &H) -> (outcome: Result<usize, usize>)
        requires
            !old(self)@.is_done(),
        ensures
            outcome == old(self)@.outcome(),
            final(self)@ == old(self)@.after(old(self)@.resumes_left()),
            final(self)@.is_done(),
    {
        proof {
            use_type_invariant(&*self);
        }
        let ghost start = self@;
        let ghost mut k: nat = 0;
        loop
            invariant
                start == old(self)@,
                start.wf(),
                !start.is_done(),
                k < start.resumes_left(),
                self@ == start.after(k),
            decreases start.resumes_left() - k,
        {
            proof {
                lemma_after(start, k);
                lemma_after_next(start, k);
                lemma_after(start, k + 1);
            }
            match self.resume(hint) {
                StepResult::Yielded => {
                    proof {
                        k = k + 1;
                    }
                },
                StepResult::Completed(outcome) => {
                    return outcome;
                },
            }
        }
    }
}

/// Searches `seq` for `value` with one suspendable search that is resumed
/// until it completes.
///
/// In an ascending `seq` the outcome is `Ok` of the index of `value`, the
/// last one where it occurs several times, or `Err` of the index where it
/// would have to be inserted.
pub fn search<H: PrefetchHint>(seq: &[i32], value: i32, hint: &H) -> (outcome: Result<usize, usize>)
    ensures
        outcome == SearchState::initial(seq@, value).outcome(),
        sorted(seq@) ==> is_last_match(seq@, value, outcome),
{
    let mut task = SuspendableSearch::new(seq, value);
    proof {
        lemma_initial(seq@, value);
        if sorted(seq@) {
            lemma_search_finds_last_match(seq@, value);
        }
    }
    task.run(hint)
}

/// The conventional binary search that the suspendable one is measured
/// against: one loop, no hints, no suspension.
///
/// In an ascending `seq` the result is `Ok` of the index of `value`, the
/// first one where it occurs several times, or `Err` of the index where it
/// would have to be inserted. On any `seq`, an `Ok` index holds `value` and
/// an `Err` index is at most the length.
pub fn reference_search(seq: &[i32], value: i32) -> (r: Result<usize, usize>)
    ensures
        r matches Ok(i) ==> i < seq@.len() && seq@[i as int] == value,
        r matches Err(i) ==> i <= seq@.len(),
        sorted(seq@) ==> is_first_match(seq@, value, r),
{
    let mut low: usize = 0;
    let mut high: usize = seq.len();
    while low < high
        invariant
            low <= high <= seq@.len(),
            sorted(seq@) ==> forall|j: int| 0 <= j < low ==> seq@[j] < value,
            sorted(seq@) ==> forall|j: int| high <= j < seq@.len() ==> seq@[j] >= value,
        decreases high - low,
    {
        let mid: usize = low + (high - low) / 2;
        if seq[mid] < value {
            low = mid + 1;
        } else {
            high = mid;
        }
    }
    if low < seq.len() && seq[low] == value {
        Ok(low)
    } else {
        Err(low)
    }
}

} // verus!
