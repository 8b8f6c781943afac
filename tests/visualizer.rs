use sort_steps::sorter::{Sorter, NO_INDEX};
use sort_steps::visualizer::{
    Algorithms, AnySorter, ButtonHandler, State, Visualizer, CEIL, FLOOR, VECTOR_SIZE,
};

#[test]
fn handle_reset() {
    let mut app = Visualizer::default();
    ButtonHandler::handle_reset(&mut app);
    assert_eq!(app.original_numbers, app.numbers);
}

#[test]
fn handle_shuffle() {
    let mut app = Visualizer::default();
    ButtonHandler::handle_shuffle(&mut app);
    assert_eq!(app.original_numbers, app.numbers);
}

#[test]
fn handle_step() {
    let numbers: Vec<usize> = vec![5, 2, 6];
    let mut app = Visualizer {
        numbers,
        ..Default::default()
    };

    // This test only works the way it does because it's defaulting to BubbleSort

    // The first time the function is run the 2 first elements are set to be compared
    ButtonHandler::handle_step(&mut app);
    assert_eq!(app.sorter.special(), (0, 1));

    // Since 5 > 2,
    // The pair is marked for switching
    ButtonHandler::handle_step(&mut app);
    assert_eq!(app.sorter.special(), (0, 1));

    // After stepping, the new order is [2, 5, 6]
    // Since 2 < 5 we will modify the state: (0, 1) -> (1,2)
    // And we will be comparing 5 and 6 next round
    ButtonHandler::handle_step(&mut app);
    assert_eq!(app.sorter.special(), (1, 2));

    // Since 5 < 6 we will modify the state: (1, 2) -> (0, 1)
    // And we will be comparing 2 and 5 next round
    ButtonHandler::handle_step(&mut app);
    assert_eq!(app.sorter.special(), (0, 1));
}

#[test]
fn mod_reset() {
    let mut app = Visualizer::default();
    app.reset();
    assert_eq!(app.original_numbers, app.numbers);
    assert_eq!(app.state, State::Start);
}

#[test]
fn default_numbers_in_range() {
    let app = Visualizer::default();
    assert_eq!(app.numbers.len(), VECTOR_SIZE);
    assert!(app.numbers.iter().all(|&v| FLOOR <= v && v < CEIL));
    assert_eq!(app.selected, Algorithms::Bubble);
}

#[test]
fn shuffle_gives_new_numbers_in_range() {
    let mut app = Visualizer {
        numbers: vec![0; 3],
        original_numbers: vec![0; 3],
        ..Default::default()
    };
    ButtonHandler::handle_shuffle(&mut app);
    assert_eq!(app.numbers.len(), VECTOR_SIZE);
    assert!(app.numbers.iter().all(|&v| FLOOR <= v && v < CEIL));
}

#[test]
fn stepping_to_the_end_resets() {
    let all = [
        Algorithms::Bubble,
        Algorithms::Selection,
        Algorithms::Insertion,
        Algorithms::Merge,
        Algorithms::Quick,
        Algorithms::Heap,
    ];
    for which in all {
        let mut app = Visualizer {
            numbers: vec![4, 1, 3, 9, 2, 2, 8],
            original_numbers: vec![4, 1, 3, 9, 2, 2, 8],
            selected: which,
            ..Default::default()
        };
        app.switch_algorithm();
        let mut steps = 0;
        loop {
            ButtonHandler::handle_step(&mut app);
            steps += 1;
            if app.sorter.special() == (NO_INDEX, NO_INDEX) && steps > 1 {
                break;
            }
            assert!(steps < 1000);
        }
        assert_eq!(app.numbers, vec![1, 2, 2, 3, 4, 8, 9]);
        assert_eq!(app.state, State::Start);
        ButtonHandler::handle_reset(&mut app);
        assert_eq!(app.numbers, vec![4, 1, 3, 9, 2, 2, 8]);
    }
}

#[test]
fn any_sorter_runs_each_algorithm() {
    let all = [
        Algorithms::Bubble,
        Algorithms::Selection,
        Algorithms::Insertion,
        Algorithms::Merge,
        Algorithms::Bogo,
        Algorithms::Quick,
        Algorithms::Heap,
    ];
    for which in all {
        let mut sorter = AnySorter::of(which);
        let mut array: Vec<usize> = vec![3, 1, 2, 5, 4];
        sorter.run(&mut array);
        assert_eq!(array, vec![1, 2, 3, 4, 5]);
        assert_eq!(sorter.special(), (NO_INDEX, NO_INDEX));
    }
}
