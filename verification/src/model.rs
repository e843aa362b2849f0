//! The mathematical model of one suspendable search: its states, the step
//! that a single resume performs, and what a run of steps computes.
//!
//! Apart from the two enums that the running code shares with it, everything
//! here is ghost code. The executable search refines this model step by
//! step, so what is proved of the model holds of the running code.

use vstd::prelude::*;
use vstd::arithmetic::logarithm::log;

verus! {

/// Where a search stands between two resumes.
#[derive(Clone, Copy, Debug, PartialEq, Eq, Structural)]
pub enum Phase {
    /// Nothing has been read or hinted yet.
    Start,
    /// The window has more than one element; its midpoint has been hinted
    /// and is compared on the next resume.
    Explore,
    /// The window has one element; it has been hinted and is compared on the
    /// next resume, which completes the search.
    Final,
    /// The search has reported its outcome and must not be resumed again.
    Done,
}

/// What one resume reports.
#[derive(Clone, Copy, Debug, PartialEq, Eq)]
pub enum StepResult {
    /// More steps remain; a prefetch hint has just been issued for the
    /// element that the next resume reads.
    Yielded,
    /// The search is over: `Ok(index)` of a matching element, or
    /// `Err(index)` where the value would have to be inserted.
    Completed(Result<usize, usize>),
}

/// `s` is in ascending order; equal neighbours are allowed.
pub open spec fn sorted(s: Seq<i32>) -> bool {
    forall|i: int, j: int| 0 <= i <= j < s.len() ==> s[i] <= s[j]
}

/// `s` is in ascending order and holds no element twice.
pub open spec fn strictly_sorted(s: Seq<i32>) -> bool {
    forall|i: int, j: int| 0 <= i < j < s.len() ==> s[i] < s[j]
}

/// `r` is a result that a sorted-slice lookup of `value` in `s` may give:
/// `Ok` of an index that holds `value`, or `Err` of the index that parts the
/// elements below `value` from those above it.
pub open spec fn is_search_result(s: Seq<i32>, value: i32, r: Result<usize, usize>) -> bool {
    match r {
        Ok(i) => i < s.len() && s[i as int] == value,
        Err(i) => {
            &&& i <= s.len()
            &&& forall|j: int| 0 <= j < i ==> s[j] < value
            &&& forall|j: int| i <= j < s.len() ==> s[j] > value
        },
    }
}

/// `r` is a lookup result, and where it is `Ok` it names the last of the
/// elements equal to `value`.
pub open spec fn is_last_match(s: Seq<i32>, value: i32, r: Result<usize, usize>) -> bool {
    &&& is_search_result(s, value, r)
    &&& r matches Ok(i) ==> forall|j: int| i < j < s.len() ==> s[j] > value
}

/// `r` is a lookup result, and where it is `Ok` it names the first of the
/// elements equal to `value`.
pub open spec fn is_first_match(s: Seq<i32>, value: i32, r: Result<usize, usize>) -> bool {
    &&& is_search_result(s, value, r)
    &&& r matches Ok(i) ==> forall|j: int| 0 <= j < i ==> s[j] < value
}

/// The least `k` with `n <= 2^k`, for `n >= 1`: the number of times a window
/// of `n` elements is cut to its larger half before one element is left.
pub open spec fn ceil_log2(n: int) -> nat {
    if n <= 1 {
        0
    } else {
        (log(2, n - 1) + 1) as nat
    }
}

impl Phase {
    /// Phases in the order in which a search passes through them, counted
    /// down to `Done`.
    pub open spec fn rank(self) -> nat {
        match self {
            Phase::Start => 3,
            Phase::Explore => 2,
            Phase::Final => 1,
            Phase::Done => 0,
        }
    }
}

/// The state of one search between two resumes.
pub struct SearchState {
    /// The sequence that is searched.
    pub seq: Seq<i32>,
    /// The value that is looked for.
    pub value: i32,
    /// The phase that the next resume starts from.
    pub phase: Phase,
    /// First index of the window.
    pub base: int,
    /// Number of elements in the window.
    pub size: int,
}

impl SearchState {
    /// The state of a search that has not been resumed yet.
    pub open spec fn initial(seq: Seq<i32>, value: i32) -> SearchState {
        SearchState { seq, value, phase: Phase::Start, base: 0, size: seq.len() as int }
    }

    /// The window lies inside the sequence and has the size that the phase
    /// asks for.
    pub open spec fn wf(self) -> bool {
        &&& self.seq.len() <= usize::MAX
        &&& 0 <= self.base
        &&& 0 <= self.size
        &&& self.base + self.size <= self.seq.len()
        &&& match self.phase {
            Phase::Start => self.base == 0 && self.size == self.seq.len(),
            Phase::Explore => self.size > 1,
            Phase::Final => self.size == 1,
            Phase::Done => self.size == if self.seq.len() == 0 {
                0int
            } else {
                1int
            },
        }
    }

    /// The search has reported its outcome.
    pub open spec fn is_done(self) -> bool {
        self.phase == Phase::Done
    }

    /// The index of the element that the next resume reads, which is the one
    /// that the last resume hinted: the midpoint while exploring, the single
    /// element left in the final phase.
    pub open spec fn probe(self) -> int {
        match self.phase {
            Phase::Explore => self.base + self.size / 2,
            _ => self.base,
        }
    }

    /// This search with its window set to `[base, base + size)`, waiting in
    /// the phase that fits the window's size.
    pub open spec fn enter(self, base: int, size: int) -> SearchState {
        SearchState {
            seq: self.seq,
            value: self.value,
            phase: if size > 1 {
                Phase::Explore
            } else {
                Phase::Final
            },
            base,
            size,
        }
    }

    /// This search, finished.
    pub open spec fn finish(self) -> SearchState {
        SearchState {
            seq: self.seq,
            value: self.value,
            phase: Phase::Done,
            base: self.base,
            size: self.size,
        }
    }

    /// What the final comparison reports, of the one element left at `base`.
    pub open spec fn verdict(self) -> Result<usize, usize> {
        let element: i32 = self.seq[self.base];
        if element == self.value {
            Ok(self.base as usize)
        } else if element < self.value {
            Err((self.base + 1) as usize)
        } else {
            Err(self.base as usize)
        }
    }

    /// What a resume from this state reports. Nothing is said of a finished
    /// search, which is never resumed.
    pub open spec fn result(self) -> StepResult
        recommends
            !self.is_done(),
    {
        match self.phase {
            Phase::Start => if self.seq.len() == 0 {
                StepResult::Completed(Err(0))
            } else {
                StepResult::Yielded
            },
            Phase::Explore => StepResult::Yielded,
            Phase::Final => StepResult::Completed(self.verdict()),
            Phase::Done => vstd::pervasive::arbitrary(),
        }
    }

    /// The state that a resume from this state leaves behind.
    pub open spec fn next(self) -> SearchState {
        match self.phase {
            Phase::Start => if self.seq.len() == 0 {
                self.finish()
            } else {
                self.enter(0, self.seq.len() as int)
            },
            Phase::Explore => {
                let half: int = self.size / 2;
                let mid: int = self.base + half;
                let base: int = if self.seq[mid] > self.value {
                    self.base
                } else {
                    mid
                };
                self.enter(base, self.size - half)
            },
            Phase::Final => self.finish(),
            Phase::Done => self,
        }
    }

    /// The state after `n` resumes.
    pub open spec fn after(self, n: nat) -> SearchState
        decreases n,
    {
        if n == 0 {
            self
        } else {
            self.next().after((n - 1) as nat)
        }
    }

    /// The number of resumes after which the search is finished, the
    /// completing one included.
    pub open spec fn resumes_left(self) -> nat {
        match self.phase {
            Phase::Start => if self.seq.len() == 0 {
                1
            } else {
                ceil_log2(self.seq.len() as int) + 2
            },
            Phase::Explore => ceil_log2(self.size) + 1,
            Phase::Final => 1,
            Phase::Done => 0,
        }
    }

    /// The outcome that the search completes with when it is resumed until
    /// it is finished.
    pub open spec fn outcome(self) -> Result<usize, usize>
        recommends
            !self.is_done(),
        decreases self.phase.rank(), self.size,
    {
        if self.phase == Phase::Done {
            vstd::pervasive::arbitrary()
        } else {
            match self.result() {
                StepResult::Completed(r) => r,
                StepResult::Yielded => self.next().outcome(),
            }
        }
    }

    /// The part of the sequence outside the window cannot hold the answer:
    /// everything from the window's end on is above the value, and a window
    /// that has moved off the front starts at an element not above it.
    pub open spec fn brackets(self) -> bool {
        &&& self.base > 0 ==> self.seq[self.base] <= self.value
        &&& forall|j: int| self.base + self.size <= j < self.seq.len() ==> self.seq[j] > self.value
    }
}

} // verus!
