use rand::{rngs::StdRng, Rng, SeedableRng};

use interleaved_search::driver::{run_all, run_each, search_all, InterleavingDriver};
use interleaved_search::hint::{NoPrefetch, PrefetchHint};
use interleaved_search::search::SuspendableSearch;

use std::cell::RefCell;

/// Notes the value of every element that is hinted.
struct ValueLog {
    values: RefCell<Vec<i32>>,
}

impl PrefetchHint for ValueLog {
    fn prefetch(&self, element: &i32) {
        self.values.borrow_mut().push(*element);
    }
}

fn gen_values(rng: &mut impl Rng, size: usize) -> Vec<i32> {
    let mut vec = vec![0i32; size];

    rng.fill(vec.as_mut_slice());
    vec.sort_unstable();
    vec.dedup();

    vec
}

fn alone(xs: &[i32], x: i32) -> Result<usize, usize> {
    SuspendableSearch::new(xs, x).run(&NoPrefetch)
}

fn batch_matches_single(xs: Vec<i32>, values: Vec<i32>) -> bool {
    let mut xs = xs;

    xs.sort_unstable();
    xs.dedup();

    let bss: Vec<_> = values.iter().map(|v| SuspendableSearch::new(&xs, *v)).collect();
    let outcomes = run_all(bss, &NoPrefetch);

    outcomes.len() == values.len()
        && values
            .iter()
            .zip(&outcomes)
            .all(|(v, outcome)| *outcome == alone(&xs, *v) && *outcome == xs.binary_search(v))
}

fn batch_on_any_slice_matches_single(xs: Vec<i32>, values: Vec<i32>) -> bool {
    let outcomes = search_all(&xs, &values, &NoPrefetch);
    outcomes.len() == values.len()
        && values.iter().zip(&outcomes).all(|(v, outcome)| *outcome == alone(&xs, *v))
}

#[test]
fn qc_batch_matches_single() {
    quickcheck::quickcheck(batch_matches_single as fn(Vec<i32>, Vec<i32>) -> bool);
}

#[test]
fn qc_batch_on_any_slice_matches_single() {
    quickcheck::quickcheck(batch_on_any_slice_matches_single as fn(Vec<i32>, Vec<i32>) -> bool);
}

#[test]
fn batch_gives_each_search_the_outcome_it_has_alone() {
    let xs = [1, 3, 5, 7, 9, 11];
    let values = [7, 6, 12, 0, 1, 11, 7, 4];
    let tasks: Vec<_> = values.iter().map(|v| SuspendableSearch::new(&xs, *v)).collect();
    let outcomes = run_all(tasks, &NoPrefetch);
    assert_eq!(
        outcomes,
        vec![Ok(3), Err(3), Err(6), Err(0), Ok(0), Ok(5), Ok(3), Err(2)]
    );
    for (value, outcome) in values.iter().zip(&outcomes) {
        assert_eq!(*outcome, alone(&xs, *value));
    }
}

#[test]
fn batch_of_a_hundred_random_values() {
    let mut rng = StdRng::seed_from_u64(42);

    let values = gen_values(&mut rng, 100);
    let vec = gen_values(&mut rng, 64 * 1024);

    let bss: Vec<_> = values.iter().map(|v| SuspendableSearch::new(&vec, *v)).collect();
    let outcomes = run_all(bss, &NoPrefetch);

    assert_eq!(outcomes.len(), values.len());
    for (value, outcome) in values.iter().zip(&outcomes) {
        assert_eq!(*outcome, vec.binary_search(value));
    }
}

#[test]
fn one_random_value_in_a_large_slice() {
    let mut rng = StdRng::seed_from_u64(42);

    let value: i32 = rng.gen();
    let vec = gen_values(&mut rng, 256 * 1024);

    assert_eq!(alone(&vec, value), vec.binary_search(&value));
    for probe in [0, vec.len() / 3, vec.len() - 1] {
        assert_eq!(alone(&vec, vec[probe]), Ok(probe));
    }
}

#[test]
fn empty_batch_is_finished_at_once() {
    let driver = InterleavingDriver::new(Vec::new());
    assert!(driver.is_finished());
    assert_eq!(driver.outcome(0), None);
    assert_eq!(driver.into_outcomes(), Vec::new());
    assert_eq!(run_all(Vec::new(), &NoPrefetch), Vec::new());
    assert_eq!(run_each(Vec::new(), &NoPrefetch), Vec::new());
    assert_eq!(search_all(&[1, 2, 3], &[], &NoPrefetch), Vec::new());
}

#[test]
fn searches_leave_the_set_in_the_round_of_their_last_resume() {
    let empty: [i32; 0] = [];
    let one = [5];
    let six = [1, 3, 5, 7, 9, 11];
    let two = [4, 8];
    let tasks = vec![
        SuspendableSearch::new(&six, 7),
        SuspendableSearch::new(&empty, 7),
        SuspendableSearch::new(&one, 7),
        SuspendableSearch::new(&two, 4),
        SuspendableSearch::new(&six, 6),
    ];
    let mut driver = InterleavingDriver::new(tasks);
    let recorded = |driver: &InterleavingDriver| -> Vec<Option<Result<usize, usize>>> {
        (0..6).map(|id| driver.outcome(id)).collect()
    };

    let order = |driver: &InterleavingDriver| -> Vec<Option<usize>> {
        (0..6).map(|slot| driver.id_at(slot)).collect()
    };

    assert!(!driver.is_finished());
    assert_eq!(driver.active_len(), 5);
    assert_eq!(order(&driver), vec![Some(0), Some(1), Some(2), Some(3), Some(4), None]);
    assert_eq!(recorded(&driver), vec![None, None, None, None, None, None]);

    driver.round(&NoPrefetch);
    assert!(!driver.is_finished());
    assert_eq!(driver.active_len(), 4);
    assert_eq!(order(&driver), vec![Some(0), Some(4), Some(2), Some(3), None, None]);
    assert_eq!(recorded(&driver), vec![None, Some(Err(0)), None, None, None, None]);

    driver.round(&NoPrefetch);
    assert_eq!(driver.active_len(), 3);
    assert_eq!(order(&driver), vec![Some(0), Some(4), Some(3), None, None, None]);
    assert_eq!(recorded(&driver), vec![None, Some(Err(0)), Some(Err(1)), None, None, None]);

    driver.round(&NoPrefetch);
    assert_eq!(driver.active_len(), 2);
    assert_eq!(order(&driver), vec![Some(0), Some(4), None, None, None, None]);
    assert_eq!(
        recorded(&driver),
        vec![None, Some(Err(0)), Some(Err(1)), Some(Ok(0)), None, None]
    );

    driver.round(&NoPrefetch);
    assert!(!driver.is_finished());
    assert_eq!(driver.active_len(), 2);
    assert_eq!(order(&driver), vec![Some(0), Some(4), None, None, None, None]);
    assert_eq!(
        recorded(&driver),
        vec![None, Some(Err(0)), Some(Err(1)), Some(Ok(0)), None, None]
    );

    driver.round(&NoPrefetch);
    assert!(driver.is_finished());
    assert_eq!(driver.active_len(), 0);
    assert_eq!(order(&driver), vec![None, None, None, None, None, None]);
    assert_eq!(
        recorded(&driver),
        vec![Some(Ok(3)), Some(Err(0)), Some(Err(1)), Some(Ok(0)), Some(Err(3)), None]
    );
    assert_eq!(
        driver.into_outcomes(),
        vec![Ok(3), Err(0), Err(1), Ok(0), Err(3)]
    );
}

#[test]
fn a_round_resumes_every_search_once_in_slot_order() {
    let xs = [1, 3, 5, 7, 9, 11];
    let ys = [100];
    let zs = [20, 40];
    let log = ValueLog { values: RefCell::new(Vec::new()) };
    let tasks = vec![
        SuspendableSearch::new(&xs, 7),
        SuspendableSearch::new(&ys, 100),
        SuspendableSearch::new(&zs, 40),
        SuspendableSearch::new(&xs, 6),
    ];
    let mut driver = InterleavingDriver::new(tasks);

    driver.round(&log);
    assert_eq!(log.values.take(), vec![7, 100, 40, 7]);

    driver.round(&log);
    assert_eq!(log.values.take(), vec![9, 3, 40]);
    assert_eq!(driver.outcome(1), Some(Ok(0)));

    driver.round(&log);
    assert_eq!(log.values.take(), vec![9, 5]);
    assert_eq!(driver.outcome(2), Some(Ok(1)));

    driver.round(&log);
    assert_eq!(log.values.take(), vec![7, 5]);

    driver.round(&log);
    assert_eq!(log.values.take(), Vec::<i32>::new());
    assert!(driver.is_finished());
    assert_eq!(driver.into_outcomes(), vec![Ok(3), Ok(0), Ok(1), Err(3)]);
}

#[test]
fn a_search_moved_into_a_freed_slot_is_resumed_in_the_same_round() {
    let empty: [i32; 0] = [];
    let xs = [1, 3, 5, 7, 9, 11];
    let log = ValueLog { values: RefCell::new(Vec::new()) };
    let tasks = vec![
        SuspendableSearch::new(&empty, 1),
        SuspendableSearch::new(&xs, 1),
        SuspendableSearch::new(&empty, 2),
        SuspendableSearch::new(&empty, 3),
        SuspendableSearch::new(&xs, 11),
    ];
    let mut driver = InterleavingDriver::new(tasks);

    driver.round(&log);
    assert_eq!(log.values.take(), vec![7, 7]);
    assert_eq!(driver.active_len(), 2);
    assert_eq!((driver.id_at(0), driver.id_at(1), driver.id_at(2)), (Some(4), Some(1), None));
    assert_eq!(driver.outcome(0), Some(Err(0)));
    assert_eq!(driver.outcome(2), Some(Err(0)));
    assert_eq!(driver.outcome(3), Some(Err(0)));
    assert_eq!(driver.outcome(1), None);
    assert_eq!(driver.outcome(4), None);

    driver.round(&log);
    assert_eq!(log.values.take(), vec![9, 3]);

    while !driver.is_finished() {
        driver.round(&log);
    }
    assert_eq!(
        driver.into_outcomes(),
        vec![Err(0), Ok(0), Err(0), Err(0), Ok(5)]
    );
}

#[test]
fn interleaved_and_sequential_drivers_agree() {
    let xs: Vec<i32> = (0..500).map(|i| 3 * i).collect();
    let values: Vec<i32> = (-5..1510).collect();
    let interleaved = run_all(
        values.iter().map(|v| SuspendableSearch::new(&xs, *v)).collect(),
        &NoPrefetch,
    );
    let sequential = run_each(
        values.iter().map(|v| SuspendableSearch::new(&xs, *v)).collect(),
        &NoPrefetch,
    );
    assert_eq!(interleaved, sequential);
    assert_eq!(interleaved, search_all(&xs, &values, &NoPrefetch));
    for (value, outcome) in values.iter().zip(&interleaved) {
        assert_eq!(*outcome, xs.binary_search(value));
    }
}

#[test]
fn two_searches_for_one_value_run_one_after_the_other() {
    let vec: Vec<i32> = (0..100_000).collect();
    let value = 10_000;
    let bsa = SuspendableSearch::new(vec.as_slice(), value);
    let bsb = SuspendableSearch::new(vec.as_slice(), value);
    assert_eq!(run_each(vec![bsa, bsb], &NoPrefetch), vec![Ok(10_000), Ok(10_000)]);
}

#[test]
fn batch_takes_searches_that_were_resumed_before() {
    let xs = [1, 3, 5, 7, 9, 11];
    let mut early = SuspendableSearch::new(&xs, 9);
    early.resume(&NoPrefetch);
    early.resume(&NoPrefetch);
    early.resume(&NoPrefetch);
    let fresh = SuspendableSearch::new(&xs, 2);
    assert_eq!(run_all(vec![early, fresh], &NoPrefetch), vec![Ok(4), Err(1)]);
}

#[test]
fn batch_over_different_slices() {
    let small = [2, 4];
    let large: Vec<i32> = (0..1000).collect();
    let tasks = vec![
        SuspendableSearch::new(&large, 999),
        SuspendableSearch::new(&small, 4),
        SuspendableSearch::new(&large, -1),
        SuspendableSearch::new(&small, 3),
    ];
    assert_eq!(run_all(tasks, &NoPrefetch), vec![Ok(999), Ok(1), Err(0), Err(1)]);
}

#[test]
fn search_all_locates_each_value() {
    let xs = [1, 3, 5, 7, 9, 11];
    assert_eq!(
        search_all(&xs, &[7, 6, 12, 0], &NoPrefetch),
        vec![Ok(3), Err(3), Err(6), Err(0)]
    );
    assert_eq!(search_all(&[], &[7, 6], &NoPrefetch), vec![Err(0), Err(0)]);
}
