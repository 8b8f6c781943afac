use sort_steps::bogo_sort::BogoSort;
use sort_steps::bubble_sort::BubbleSort;
use sort_steps::heap_sort::HeapSort;
use sort_steps::insertion_sort::InsertionSort;
use sort_steps::merge_sort::MergeSort;
use sort_steps::quick_sort::{median, QuickSort};
use sort_steps::selection_sort::SelectionSort;
use sort_steps::sorter::{Reasons, Sorter, NO_INDEX};
use sort_steps::util::gen_random_vector;

const REPETITIONS: i32 = 10;
const FLOOR: usize = 0;
const CEIL: usize = 100;
const SIZE: usize = 30;
const QUICK_SIZE: usize = 20;

fn sorted_copy(v: &[usize]) -> Vec<usize> {
    let mut e = v.to_vec();
    e.sort();
    e
}

fn check_run<S: Sorter>(size: usize) {
    for _ in 0..REPETITIONS {
        let mut sorter = S::new();
        let mut array = gen_random_vector(FLOOR, CEIL, size);
        let expected = sorted_copy(&array);
        sorter.run(&mut array);
        assert_eq!(array, expected);
    }
}

/// Steps until done, checking after each step that the pair reported is in
/// bounds and that at most `max_changed` positions changed.
fn step_to_end<S: Sorter>(array: &mut Vec<usize>, max_changed: usize) -> usize {
    let mut sorter = S::new();
    assert_eq!(sorter.special(), (NO_INDEX, NO_INDEX));
    let mut steps = 0;
    loop {
        let before = array.clone();
        let done = sorter.step(array);
        steps += 1;
        let changed = before.iter().zip(array.iter()).filter(|(a, b)| a != b).count();
        assert!(changed <= max_changed, "step {} changed {} positions", steps, changed);
        let (a, b) = sorter.special();
        assert!((a == NO_INDEX && b == NO_INDEX) || (a < array.len() && b < array.len()));
        if done {
            return steps;
        }
    }
}

fn edge_inputs() -> Vec<Vec<usize>> {
    vec![
        vec![],
        vec![42],
        vec![7, 7, 7, 7, 7],
        vec![9, 8, 7, 6, 5, 4, 3, 2, 1, 0],
        vec![2, 1],
        vec![1, 2, 3, 4, 5, 6],
        vec![3, 1, 3, 1, 3, 1, 2],
    ]
}

fn check_edges<S: Sorter>(max_changed: usize) {
    for input in edge_inputs() {
        let expected = sorted_copy(&input);
        let mut by_run = input.clone();
        let mut sorter = S::new();
        sorter.run(&mut by_run);
        assert_eq!(by_run, expected);
        let mut by_steps = input.clone();
        step_to_end::<S>(&mut by_steps, max_changed);
        assert_eq!(by_steps, by_run);
    }
}

#[test]
fn bubble_sort_run() {
    check_run::<BubbleSort>(SIZE);
}

#[test]
fn insertion_sort_run() {
    check_run::<InsertionSort>(SIZE);
}

#[test]
fn selection_sort_run() {
    check_run::<SelectionSort>(SIZE);
}

#[test]
fn merge_sort_run() {
    check_run::<MergeSort>(SIZE);
}

#[test]
fn heap_sort_run() {
    check_run::<HeapSort>(SIZE);
}

#[test]
fn quick_sort_run() {
    check_run::<QuickSort>(QUICK_SIZE);
}

#[test]
fn bogo_sort_run() {
    // BogoSort is extremely slow, so we use a smaller size
    check_run::<BogoSort>(4);
}

#[test]
fn edges_and_steps_bubble() {
    check_edges::<BubbleSort>(2);
}

#[test]
fn edges_and_steps_insertion() {
    check_edges::<InsertionSort>(2);
}

#[test]
fn edges_and_steps_selection() {
    check_edges::<SelectionSort>(2);
}

#[test]
fn edges_and_steps_merge() {
    check_edges::<MergeSort>(1);
}

#[test]
fn edges_and_steps_heap() {
    check_edges::<HeapSort>(2);
}

#[test]
fn edges_and_steps_quick() {
    check_edges::<QuickSort>(2);
}

#[test]
fn edges_bogo() {
    for input in edge_inputs() {
        if input.len() > 7 {
            continue;
        }
        let expected = sorted_copy(&input);
        let mut array = input.clone();
        BogoSort::new().run(&mut array);
        assert_eq!(array, expected);
    }
}

#[test]
fn bubble_steps_on_three() {
    let mut array: Vec<usize> = vec![5, 2, 6];
    let mut sorter = BubbleSort::new();
    assert!(!sorter.step(&mut array));
    assert_eq!(sorter.special(), (0, 1));
    assert_eq!(array, vec![5, 2, 6]);
    assert!(sorter.reason() == Reasons::Comparing);
    assert!(!sorter.step(&mut array));
    assert_eq!(array, vec![2, 5, 6]);
    assert_eq!(sorter.special(), (0, 1));
    assert!(sorter.reason() == Reasons::Switching);
    while !sorter.step(&mut array) {}
    assert_eq!(array, vec![2, 5, 6]);
}

#[test]
fn selection_run_example() {
    let mut array: Vec<usize> = vec![9, 2, 8, 10, 5];
    SelectionSort::new().run(&mut array);
    assert_eq!(array, vec![2, 5, 8, 9, 10]);
}

#[test]
fn merge_run_example() {
    let mut array: Vec<usize> = vec![6, 5, 3, 1, 8, 7, 2, 4];
    MergeSort::new().run(&mut array);
    assert_eq!(array, vec![1, 2, 3, 4, 5, 6, 7, 8]);
}

#[test]
fn merge_first_window_then_commit() {
    // Widths one: the first window compares positions 0 and 1 without
    // writing, then copies the merged pair back one position per step.
    let mut array: Vec<usize> = vec![13, 9, 10, 11];
    let mut sorter = MergeSort::new();
    assert!(!sorter.step(&mut array));
    assert_eq!(sorter.special(), (0, 1));
    assert_eq!(array, vec![13, 9, 10, 11]);
    assert!(!sorter.step(&mut array));
    assert_eq!(sorter.special(), (0, 0));
    assert!(sorter.reason() == Reasons::Switching);
    assert_eq!(array, vec![9, 9, 10, 11]);
    assert!(!sorter.step(&mut array));
    assert_eq!(array, vec![9, 13, 10, 11]);
    while !sorter.step(&mut array) {}
    assert_eq!(array, vec![9, 10, 11, 13]);
}

#[test]
fn quick_run_leaves_no_pending_range() {
    let mut array = gen_random_vector(FLOOR, CEIL, QUICK_SIZE);
    let expected = sorted_copy(&array);
    let mut sorter = QuickSort::new();
    while !sorter.step(&mut array) {}
    assert_eq!(array, expected);
    assert_eq!(sorter.pending_ranges(), 0);
}

#[test]
fn median_picks_middle_value() {
    assert_eq!(median(0, 1, 2, &[3, 1, 2]), 2);
    assert_eq!(median(0, 1, 2, &[2, 3, 1]), 0);
    assert_eq!(median(0, 1, 2, &[1, 2, 3]), 1);
    assert_eq!(median(0, 1, 2, &[5, 5, 5]), 2);
}

#[test]
fn reset_matches_new() {
    let mut array: Vec<usize> = vec![4, 3, 2, 1];
    let mut used = HeapSort::new();
    used.step(&mut array);
    used.step(&mut array);
    used.reset_state();
    let fresh = HeapSort::new();
    assert_eq!(used.special(), fresh.special());
    assert!(used.reason() == fresh.reason());
    let mut a = vec![4, 3, 2, 1];
    let mut b = vec![4, 3, 2, 1];
    let mut fresh = fresh;
    for _ in 0..5 {
        used.step(&mut a);
        fresh.step(&mut b);
        assert_eq!(a, b);
        assert_eq!(used.special(), fresh.special());
    }
}

#[test]
fn insertion_last_element_smallest_terminates() {
    let mut array: Vec<usize> = vec![2, 3, 4, 1];
    let steps = step_to_end::<InsertionSort>(&mut array, 2);
    assert_eq!(array, vec![1, 2, 3, 4]);
    assert!(steps < 50);
}

#[test]
fn merge_two_runs() {
    let mut array: Vec<usize> = vec![9, 13, 10, 11];
    sort_steps::merge_sort::merge(&mut array, 0, 1, 3);
    assert_eq!(array, vec![9, 10, 11, 13]);
}

#[test]
fn merge_keeps_outside_and_elements() {
    let mut array: Vec<usize> = vec![7, 5, 1, 4, 2, 3, 0];
    sort_steps::merge_sort::merge(&mut array, 1, 2, 5);
    assert_eq!(array[0], 7);
    assert_eq!(array[6], 0);
    assert_eq!(&array[1..6], &[4, 2, 3, 5, 1]);
    let mut one: Vec<usize> = vec![3, 1];
    sort_steps::merge_sort::merge(&mut one, 0, 0, 1);
    assert_eq!(one, vec![1, 3]);
}

fn inversions(a: &[usize]) -> usize {
    let mut count = 0;
    for i in 0..a.len() {
        for j in i + 1..a.len() {
            if a[i] > a[j] {
                count += 1;
            }
        }
    }
    count
}

#[test]
fn bubble_step_count() {
    let mut array: Vec<usize> = vec![5, 2, 6];
    assert_eq!(step_to_end::<BubbleSort>(&mut array, 2), 5);
    for n in 1..12 {
        let mut array = gen_random_vector(FLOOR, CEIL, n);
        let expected = n * (n - 1) / 2 + inversions(&array) + 1;
        assert_eq!(step_to_end::<BubbleSort>(&mut array, 2), expected);
    }
}

#[test]
fn bogo_sorted_input_unchanged_and_two_elements() {
    let mut sorted_input: Vec<usize> = vec![1, 2];
    BogoSort::new().run(&mut sorted_input);
    assert_eq!(sorted_input, vec![1, 2]);
    let mut reversed: Vec<usize> = vec![2, 1];
    BogoSort::new().run(&mut reversed);
    assert_eq!(reversed, vec![1, 2]);
    let mut array: Vec<usize> = vec![3, 1, 2];
    let mut sorter = BogoSort::new();
    assert!(!sorter.step(&mut array));
    assert_eq!(sorter.special(), (0, 1));
    assert_eq!(array, vec![3, 1, 2]);
    assert!(!sorter.step(&mut array));
    assert_eq!(sorter.special(), (NO_INDEX, NO_INDEX));
    assert_eq!(sorted_copy(&array), vec![1, 2, 3]);
}

#[test]
fn heap_prefers_left_child_on_ties() {
    // Heap construction sifts the root 0 of [1, 3, 3]: the children are
    // equal, so the left one is taken.
    let mut array: Vec<usize> = vec![1, 3, 3];
    let mut sorter = HeapSort::new();
    assert!(!sorter.step(&mut array));
    assert_eq!(sorter.special(), (0, 1));
    assert_eq!(array, vec![3, 1, 3]);
    assert!(sorter.reason() == Reasons::Comparing);
}
