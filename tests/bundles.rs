use sort_steps::bundles::{Bundle, Options};

#[test]
fn set_comparing() {
    let arr: Vec<u32> = vec![5, 2, 3, 4, 1];
    let options: Vec<Options> = vec![Options::Default; arr.len()];
    let mut bundle = Bundle::new(arr, options);

    bundle.set_comparing((0, 1));

    assert_eq!(bundle.options()[0], Options::Comparing);
    assert_eq!(bundle.options()[1], Options::Comparing);
}

#[test]
fn set_switching() {
    let arr: Vec<u32> = vec![5, 2, 3, 4, 1];
    let options: Vec<Options> = vec![Options::Default; arr.len()];
    let mut bundle = Bundle::new(arr, options);

    bundle.set_switching((0, 1));

    assert_eq!(bundle.options()[0], Options::Switching);
    assert_eq!(bundle.options()[1], Options::Switching);
}

#[test]
fn all_default() {
    let arr: Vec<u32> = vec![5, 2, 3, 4, 1];
    let options: Vec<Options> = vec![Options::Default; arr.len()];
    let mut bundle = Bundle::new(arr, options);

    assert!(bundle.all_default());
    bundle.set_switching((0, 1));
    assert!(!bundle.all_default());
}

#[test]
fn set_comparing_clears_previous_pair() {
    let arr: Vec<u32> = vec![5, 2, 3, 4, 1];
    let options: Vec<Options> = vec![Options::Default; arr.len()];
    let mut bundle = Bundle::new(arr, options);
    bundle.set_switching((0, 1));
    bundle.set_comparing((3, 4));
    assert_eq!(
        bundle.options(),
        &[Options::Default, Options::Default, Options::Default, Options::Comparing, Options::Comparing]
    );
    assert_eq!(bundle.indexes(), (3, 4));
    bundle.reset_options();
    assert_eq!(bundle.options(), &[Options::Default; 5]);
    bundle.clear_indexes();
    assert!(bundle.all_default());
}

#[test]
fn numbers_accessors() {
    let mut bundle = Bundle::new(vec![1, 2], vec![Options::Default; 2]);
    assert_eq!(bundle.numbers(), &[1, 2]);
    bundle.set_numbers(vec![3, 4, 5]);
    assert_eq!(bundle.numbers(), &[3, 4, 5]);
    bundle.numbers_mut().push(6);
    assert_eq!(bundle.numbers(), &[3, 4, 5, 6]);
    assert_eq!(bundle.options(), &[Options::Default; 2]);
}
