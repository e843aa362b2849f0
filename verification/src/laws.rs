//! What holds of every search: how a step changes a state, how many steps a
//! search takes, and what it finds.

use vstd::prelude::*;
use vstd::arithmetic::logarithm::{
    lemma_log0, lemma_log_is_ordered, lemma_log_nonnegative, lemma_log_s, log,
};
use vstd::arithmetic::power2::{lemma2_to64, lemma_pow2_strictly_increases, lemma_pow2_unfold, pow2};
use crate::model::{
    ceil_log2, is_first_match, is_last_match, is_search_result, sorted, strictly_sorted, Phase,
    SearchState, StepResult,
};

verus! {

/// Cutting a window of at least two elements to its larger half takes one
/// of the halvings that the window needs.
pub proof fn lemma_ceil_log2_halving(n: int)
    requires
        n >= 2,
    ensures
        ceil_log2(n) == 1 + ceil_log2(n - n / 2),
{
    let m: int = n - n / 2;
    if n == 2 {
        lemma_log0(2, 1);
    } else {
        assert((n - 1) / 2 == m - 1);
        lemma_log_s(2, n - 1);
        lemma_log_nonnegative(2, m - 1);
    }
}

/// A resume of a well-formed, unfinished search leaves a well-formed search
/// of the same value in the same sequence, one resume closer to its end; it
/// reports an outcome exactly when it finishes the search.
pub proof fn lemma_step(s: SearchState)
    requires
        s.wf(),
        !s.is_done(),
    ensures
        s.next().wf(),
        s.next().seq == s.seq,
        s.next().value == s.value,
        s.next().resumes_left() + 1 == s.resumes_left(),
        s.result() is Completed <==> s.next().is_done(),
        s.result() is Yielded <==> !s.next().is_done(),
{
    if s.phase == Phase::Explore {
        lemma_ceil_log2_halving(s.size);
    }
}

/// `ceil_log2(n)` is the least exponent whose power of two reaches `n`.
pub proof fn lemma_ceil_log2_is_least_exponent(n: int)
    requires
        n >= 1,
    ensures
        n <= pow2(ceil_log2(n)),
        n >= 2 ==> pow2((ceil_log2(n) - 1) as nat) < n,
    decreases n,
{
    if n == 1 {
        lemma2_to64();
    } else {
        let m: int = n - n / 2;
        let c: nat = ceil_log2(n);
        lemma_ceil_log2_halving(n);
        lemma_ceil_log2_is_least_exponent(m);
        lemma_pow2_unfold(c);
        if m >= 2 {
            lemma_log_nonnegative(2, m - 1);
            lemma_pow2_unfold((c - 1) as nat);
        } else {
            lemma2_to64();
        }
    }
}

/// `ceil_log2(n)` is at least the binary logarithm of `n` rounded down, and
/// at most one more.
pub proof fn lemma_ceil_log2_and_floor(n: int)
    requires
        n >= 1,
    ensures
        log(2, n) <= ceil_log2(n) <= log(2, n) + 1,
{
    if n == 1 {
        lemma_log0(2, 1);
    } else {
        lemma_log_nonnegative(2, n - 1);
        lemma_log_is_ordered(2, n - 1, n);
        lemma_log_is_ordered(2, n, 2 * (n - 1));
        lemma_log_s(2, 2 * (n - 1));
        assert(2 * (n - 1) / 2 == n - 1);
    }
}

/// A larger window needs at least as many halvings.
pub proof fn lemma_ceil_log2_is_ordered(m: int, n: int)
    requires
        m <= n,
    ensures
        ceil_log2(m) <= ceil_log2(n),
{
    if m >= 2 {
        lemma_log_is_ordered(2, m - 1, n - 1);
        lemma_log_nonnegative(2, m - 1);
        lemma_log_nonnegative(2, n - 1);
    } else if n >= 2 {
        lemma_log_nonnegative(2, n - 1);
    }
}

/// A well-formed search over `n` elements is finished after at most
/// `ceil_log2(n) + 2` resumes, which is never more than 66.
pub proof fn lemma_resumes_left_bound(s: SearchState)
    requires
        s.wf(),
    ensures
        s.resumes_left() <= ceil_log2(s.seq.len() as int) + 2,
        s.resumes_left() <= 66,
{
    let n: int = s.seq.len() as int;
    lemma_ceil_log2_is_ordered(s.size, n);
    if n >= 2 {
        let c: nat = ceil_log2(n);
        lemma_ceil_log2_is_least_exponent(n);
        lemma2_to64();
        if c > 64 {
            if c > 65 {
                lemma_pow2_strictly_increases(64, (c - 1) as nat);
            }
            assert(false);
        }
    }
}

/// Where a well-formed, unfinished search stands after `k` of the resumes
/// that it has left: it is well-formed, it has `k` resumes fewer left, it is
/// finished exactly when none is left, and until then it is headed for the
/// same outcome, which the last of its resumes reports while all the others
/// yield.
pub proof fn lemma_after(s: SearchState, k: nat)
    requires
        s.wf(),
        !s.is_done(),
        k <= s.resumes_left(),
    ensures
        s.after(k).wf(),
        s.after(k).seq == s.seq,
        s.after(k).value == s.value,
        s.after(k).resumes_left() == s.resumes_left() - k,
        s.after(k).is_done() <==> k == s.resumes_left(),
        k < s.resumes_left() ==> s.after(k).outcome() == s.outcome(),
        k < s.resumes_left() ==> s.after(k).result() == (if k + 1 == s.resumes_left() {
            StepResult::Completed(s.outcome())
        } else {
            StepResult::Yielded
        }),
    decreases k,
{
    lemma_step(s);
    if k > 0 {
        assert(s.after(k) == s.next().after((k - 1) as nat));
        if s.next().is_done() {
            assert(s.next().after(0) == s.next());
        } else {
            lemma_after(s.next(), (k - 1) as nat);
        }
    }
}

/// One more resume after `k` resumes is `k + 1` resumes.
pub proof fn lemma_after_next(s: SearchState, k: nat)
    ensures
        s.after(k).next() == s.after(k + 1),
    decreases k,
{
    if k == 0 {
        assert(s.after(1) == s.next().after(0));
    } else {
        lemma_after_next(s.next(), (k - 1) as nat);
        assert(s.after(k + 1) == s.next().after(k));
    }
}

/// In an ascending sequence a resume never moves the window away from the
/// answer.
pub proof fn lemma_step_keeps_bracket(s: SearchState)
    requires
        s.wf(),
        !s.is_done(),
        sorted(s.seq),
        s.brackets(),
    ensures
        s.next().brackets(),
{
}

/// In an ascending sequence no number of resumes moves the window away from
/// the answer.
pub proof fn lemma_after_keeps_bracket(s: SearchState, k: nat)
    requires
        s.wf(),
        !s.is_done(),
        sorted(s.seq),
        s.brackets(),
        k <= s.resumes_left(),
    ensures
        s.after(k).brackets(),
    decreases k,
{
    if k > 0 {
        lemma_step(s);
        lemma_step_keeps_bracket(s);
        assert(s.after(k) == s.next().after((k - 1) as nat));
        if s.next().is_done() {
            assert(s.next().after(0) == s.next());
        } else {
            lemma_after_keeps_bracket(s.next(), (k - 1) as nat);
        }
    }
}

/// In an ascending sequence, a window that brackets the answer holds the last
/// element equal to the value, where there is one.
pub proof fn lemma_window_holds_answer(s: SearchState, i: int)
    requires
        s.wf(),
        sorted(s.seq),
        s.brackets(),
        0 <= i < s.seq.len(),
        s.seq[i] == s.value,
        forall|j: int| i < j < s.seq.len() ==> s.seq[j] > s.value,
    ensures
        s.base <= i < s.base + s.size,
{
    if s.base > 0 && i < s.base {
        assert(s.seq[s.base] > s.value);
    }
}

/// In an ascending sequence, a search whose window brackets the answer
/// completes with a lookup result, and of several elements equal to the
/// value it reports the last.
pub proof fn lemma_outcome_is_last_match(s: SearchState)
    requires
        s.wf(),
        !s.is_done(),
        sorted(s.seq),
        s.brackets(),
    ensures
        is_last_match(s.seq, s.value, s.outcome()),
    decreases s.resumes_left(),
{
    lemma_step(s);
    lemma_step_keeps_bracket(s);
    if !s.next().is_done() {
        lemma_outcome_is_last_match(s.next());
    }
}

/// A search that has not been resumed is well-formed and brackets the answer.
pub proof fn lemma_initial(xs: Seq<i32>, x: i32)
    requires
        xs.len() <= usize::MAX,
    ensures
        SearchState::initial(xs, x).wf(),
        SearchState::initial(xs, x).brackets(),
        !SearchState::initial(xs, x).is_done(),
{
}

/// In an ascending sequence, a search resumed from its start until it is
/// finished completes with a lookup result for its value, the last match
/// where several elements are equal to it.
pub proof fn lemma_search_finds_last_match(xs: Seq<i32>, x: i32)
    requires
        xs.len() <= usize::MAX,
        sorted(xs),
    ensures
        is_last_match(xs, x, SearchState::initial(xs, x).outcome()),
{
    lemma_outcome_is_last_match(SearchState::initial(xs, x));
}

/// An ascending sequence has one last-match result for each value.
pub proof fn lemma_last_match_is_unique(
    xs: Seq<i32>,
    x: i32,
    r1: Result<usize, usize>,
    r2: Result<usize, usize>,
)
    requires
        sorted(xs),
        is_last_match(xs, x, r1),
        is_last_match(xs, x, r2),
    ensures
        r1 == r2,
{
    match (r1, r2) {
        (Ok(i), Ok(j)) => {
            assert(xs[i as int] == x && xs[j as int] == x);
        },
        (Ok(i), Err(j)) => {
            assert(xs[i as int] == x);
        },
        (Err(i), Ok(j)) => {
            assert(xs[j as int] == x);
        },
        (Err(i), Err(j)) => {
            if i < j {
                assert(xs[i as int] < x);
            } else if j < i {
                assert(xs[j as int] < x);
            }
        },
    }
}

/// An ascending sequence has one first-match result for each value.
pub proof fn lemma_first_match_is_unique(
    xs: Seq<i32>,
    x: i32,
    r1: Result<usize, usize>,
    r2: Result<usize, usize>,
)
    requires
        sorted(xs),
        is_first_match(xs, x, r1),
        is_first_match(xs, x, r2),
    ensures
        r1 == r2,
{
    match (r1, r2) {
        (Ok(i), Ok(j)) => {
            assert(xs[i as int] == x && xs[j as int] == x);
        },
        (Ok(i), Err(j)) => {
            assert(xs[i as int] == x);
        },
        (Err(i), Ok(j)) => {
            assert(xs[j as int] == x);
        },
        (Err(i), Err(j)) => {
            if i < j {
                assert(xs[i as int] < x);
            } else if j < i {
                assert(xs[j as int] < x);
            }
        },
    }
}

/// A sequence without equal elements has one lookup result for each value.
pub proof fn lemma_search_result_is_unique(
    xs: Seq<i32>,
    x: i32,
    r1: Result<usize, usize>,
    r2: Result<usize, usize>,
)
    requires
        strictly_sorted(xs),
        is_search_result(xs, x, r1),
        is_search_result(xs, x, r2),
    ensures
        r1 == r2,
{
    match (r1, r2) {
        (Ok(i), Ok(j)) => {
            assert(xs[i as int] == x && xs[j as int] == x);
        },
        (Ok(i), Err(j)) => {
            assert(xs[i as int] == x);
        },
        (Err(i), Ok(j)) => {
            assert(xs[j as int] == x);
        },
        (Err(i), Err(j)) => {
            if i < j {
                assert(xs[i as int] < x);
            } else if j < i {
                assert(xs[j as int] < x);
            }
        },
    }
}

/// Equivalence with a conventional binary search: over an ascending sequence
/// without equal elements, the suspendable search run to completion gives
/// the very result `r` that a conventional sorted lookup gives.
pub proof fn lemma_equivalent_to_conventional_search(xs: Seq<i32>, x: i32, r: Result<usize, usize>)
    requires
        xs.len() <= usize::MAX,
        strictly_sorted(xs),
        is_search_result(xs, x, r),
    ensures
        SearchState::initial(xs, x).outcome() == r,
{
    assert(sorted(xs));
    lemma_search_finds_last_match(xs, x);
    lemma_search_result_is_unique(xs, x, r, SearchState::initial(xs, x).outcome());
}

/// A search in an empty sequence completes on its first resume, with
/// `Err(0)`, whatever the value.
pub proof fn lemma_empty_sequence(x: i32)
    ensures
        SearchState::initial(Seq::empty(), x).resumes_left() == 1,
        SearchState::initial(Seq::empty(), x).result() == StepResult::Completed(Err(0)),
        SearchState::initial(Seq::empty(), x).next().is_done(),
        SearchState::initial(Seq::empty(), x).outcome() == Err::<usize, usize>(0),
{
}

/// A search in a sequence of one element yields on its first resume and
/// completes on its second: with `Ok(0)` where the element is the value,
/// with `Err(1)` where it is below the value, with `Err(0)` where it is
/// above.
pub proof fn lemma_singleton(element: i32, x: i32)
    ensures
        SearchState::initial(seq![element], x).resumes_left() == 2,
        SearchState::initial(seq![element], x).result() == StepResult::Yielded,
        SearchState::initial(seq![element], x).next().result() == StepResult::Completed(
            SearchState::initial(seq![element], x).outcome(),
        ),
        SearchState::initial(seq![element], x).next().next().is_done(),
        SearchState::initial(seq![element], x).outcome() == (if element == x {
            Ok::<usize, usize>(0)
        } else if element < x {
            Err::<usize, usize>(1)
        } else {
            Err::<usize, usize>(0)
        }),
{
    let s = SearchState::initial(seq![element], x);
    assert(s.next().phase == Phase::Final);
    assert(s.next().outcome() == s.next().verdict());
}

/// The number of resumes that yield before the one that completes depends on
/// the length of the sequence alone, not on the value: in a sequence of
/// `n > 0` elements it is `ceil_log2(n) + 1`, one for each halving of the
/// window and one for the last element. This is more than the binary
/// logarithm of `n` rounded down.
pub proof fn lemma_yields_before_completion(xs: Seq<i32>, x: i32, k: nat)
    requires
        0 < xs.len() <= usize::MAX,
    ensures
        SearchState::initial(xs, x).resumes_left() == ceil_log2(xs.len() as int) + 2,
        k <= ceil_log2(xs.len() as int) ==> SearchState::initial(xs, x).after(k).result()
            == StepResult::Yielded,
        k == ceil_log2(xs.len() as int) + 1 ==> SearchState::initial(xs, x).after(k).result()
            is Completed,
        ceil_log2(xs.len() as int) + 1 > log(2, xs.len() as int),
{
    let s = SearchState::initial(xs, x);
    if k < s.resumes_left() {
        lemma_after(s, k);
    }
    lemma_ceil_log2_and_floor(xs.len() as int);
}

} // verus!
