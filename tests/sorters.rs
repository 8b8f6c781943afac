use sort_steps::sorters::{BubbleSort, Sorter};

#[test]
fn sorters_run() {
    let mut arr: Vec<u32> = vec![5, 2, 3, 4, 1];
    let mut sorter = BubbleSort::new();
    sorter.run(&mut arr);
    let expected: Vec<u32> = vec![1, 2, 3, 4, 5];
    assert_eq!(arr, expected);
}

#[test]
fn modify_state() {
    let len: usize = 4;
    let mut sorter = BubbleSort::new();
    sorter.modify_state(len);
    assert_eq!(sorter.y, 1);
    sorter.modify_state(len);
    assert_eq!(sorter.y, 2);
    sorter.modify_state(len);
    assert_eq!(sorter.y, 0);
}

#[test]
fn sorters_reset() {
    let mut sorter = BubbleSort::new();
    sorter.reset();
    assert_eq!(sorter.x, 0);
    assert_eq!(sorter.y, 0);
}

#[test]
fn sorters_run_short_inputs() {
    let mut empty: Vec<u32> = vec![];
    BubbleSort::new().run(&mut empty);
    assert_eq!(empty, Vec::<u32>::new());
    let mut one: Vec<u32> = vec![7];
    BubbleSort::new().run(&mut one);
    assert_eq!(one, vec![7]);
    let mut two: Vec<u32> = vec![9, 3];
    BubbleSort::new().run(&mut two);
    assert_eq!(two, vec![3, 9]);
}

#[test]
fn sorters_step_and_state() {
    let mut arr: Vec<u32> = vec![4, 1, 3];
    let sorter = BubbleSort::new();
    assert_eq!(sorter.get_state(), (0, 1));
    sorter.step(&mut arr);
    assert_eq!(arr, vec![1, 4, 3]);
    sorter.step(&mut arr);
    assert_eq!(arr, vec![1, 4, 3]);
}
