use sort_steppers::bubble::BubbleSort;
use sort_steppers::insertion::InsertionSort;
use sort_steppers::selection::SelectionSort;

fn is_non_decreasing(data: &[u16]) -> bool {
    data.windows(2).all(|w| w[0] <= w[1])
}

fn sorted_copy(data: &[u16]) -> Vec<u16> {
    let mut v = data.to_vec();
    v.sort();
    v
}

#[test]
fn bubble_concrete_scenario() {
    let mut s = BubbleSort::init(vec![5, 3, 4, 1, 2]);
    assert!(!s.has_completed());
    s.step();
    assert_eq!(s.data, vec![3, 4, 1, 2, 5]);
    s.step();
    assert_eq!(s.data, vec![3, 1, 2, 4, 5]);
    s.step();
    assert_eq!(s.data, vec![1, 2, 3, 4, 5]);
    assert!(!s.has_completed());
    s.step();
    assert_eq!(s.data, vec![1, 2, 3, 4, 5]);
    assert!(s.has_completed());
}

#[test]
fn selection_concrete_scenario() {
    let mut s = SelectionSort::init(vec![5, 3, 4, 1, 2]);
    assert!(!s.has_completed());
    s.step();
    assert_eq!(s.data, vec![1, 3, 4, 5, 2]);
    s.step();
    assert_eq!(s.data, vec![1, 2, 4, 5, 3]);
    s.step();
    assert_eq!(s.data, vec![1, 2, 3, 5, 4]);
    assert!(!s.has_completed());
    s.step();
    assert_eq!(s.data, vec![1, 2, 3, 4, 5]);
    assert_eq!(s.selected, 4);
    assert!(s.has_completed());
}

#[test]
fn insertion_concrete_scenario() {
    let mut s = InsertionSort::init(vec![5, 3, 4, 1, 2]);
    let mut steps = 0;
    while !s.has_completed() {
        s.step();
        steps += 1;
        assert!(steps <= 25);
    }
    assert_eq!(s.data, vec![1, 2, 3, 4, 5]);
    assert!(s.last_sorted > 5);
}

#[test]
fn insertion_one_step_is_one_comparison() {
    // One call compares a single adjacent pair, not a full insertion pass.
    let mut s = InsertionSort::init(vec![2, 1, 3]);
    s.step();
    assert_eq!(s.data, vec![1, 2, 3]);
    assert!(!s.has_completed());
    s.step();
    s.step();
    s.step();
    assert!(s.has_completed());
    assert_eq!(s.data, vec![1, 2, 3]);
}

#[test]
fn bubble_early_exit_on_sorted_input() {
    let mut s = BubbleSort::init(vec![1, 2, 3, 4]);
    assert!(!s.has_completed());
    s.step();
    assert!(s.has_completed());
    assert_eq!(s.data, vec![1, 2, 3, 4]);
}

#[test]
fn bubble_idempotent_after_completion() {
    let mut s = BubbleSort::init(vec![3, 1, 2]);
    while !s.has_completed() {
        s.step();
    }
    let frozen = s.data.clone();
    for _ in 0..5 {
        s.step();
        assert!(s.has_completed());
        assert_eq!(s.data, frozen);
    }
}

#[test]
fn selection_idempotent_after_completion() {
    let mut s = SelectionSort::init(vec![3, 1, 2]);
    while !s.has_completed() {
        s.step();
    }
    let frozen = s.data.clone();
    for _ in 0..5 {
        s.step();
        assert!(s.has_completed());
        assert_eq!(s.data, frozen);
    }
}

#[test]
fn insertion_idempotent_after_completion() {
    let mut s = InsertionSort::init(vec![3, 1, 2]);
    while !s.has_completed() {
        s.step();
    }
    let frozen = s.data.clone();
    for _ in 0..5 {
        s.step();
        assert!(s.has_completed());
        assert_eq!(s.data, frozen);
    }
}

#[test]
fn bubble_step_count_at_most_len() {
    let input = vec![9, 8, 7, 6, 5];
    let mut s = BubbleSort::init(input.clone());
    let mut steps = 0;
    while !s.has_completed() {
        s.step();
        steps += 1;
        assert!(steps <= input.len());
    }
    assert!(is_non_decreasing(&s.data));
}

#[test]
fn selection_step_count_at_most_len() {
    let input = vec![9, 8, 7, 6, 5];
    let mut s = SelectionSort::init(input.clone());
    let mut steps = 0;
    while !s.has_completed() {
        s.step();
        steps += 1;
        assert!(steps <= input.len());
    }
    assert!(is_non_decreasing(&s.data));
}

#[test]
fn insertion_step_count_at_most_len_squared() {
    let input = vec![9, 8, 7, 6, 5];
    let mut s = InsertionSort::init(input.clone());
    let mut steps = 0;
    while !s.has_completed() {
        s.step();
        steps += 1;
        assert!(steps <= input.len() * input.len());
    }
    assert!(is_non_decreasing(&s.data));
}

#[test]
fn steppers_preserve_permutation_at_every_step() {
    let input: Vec<u16> = vec![7, 3, 7, 1, 9, 3, 5];
    let expected = sorted_copy(&input);

    let mut b = BubbleSort::init(input.clone());
    while !b.has_completed() {
        b.step();
        assert_eq!(sorted_copy(&b.data), expected);
    }
    assert_eq!(b.data, expected);

    let mut s = SelectionSort::init(input.clone());
    while !s.has_completed() {
        s.step();
        assert_eq!(sorted_copy(&s.data), expected);
    }
    assert_eq!(s.data, expected);

    let mut i = InsertionSort::init(input.clone());
    while !i.has_completed() {
        i.step();
        assert_eq!(sorted_copy(&i.data), expected);
    }
    assert_eq!(i.data, expected);
}

#[test]
fn selection_handles_duplicates() {
    let mut s = SelectionSort::init(vec![2, 2, 1]);
    while !s.has_completed() {
        s.step();
    }
    assert_eq!(s.data, vec![1, 2, 2]);
}

#[test]
fn empty_input_completes_immediately() {
    let mut b = BubbleSort::init(Vec::new());
    assert!(b.has_completed());
    b.step();
    assert!(b.has_completed());
    assert!(b.data.is_empty());

    let mut s = SelectionSort::init(Vec::new());
    assert!(s.has_completed());
    s.step();
    assert!(s.has_completed());
    assert!(s.data.is_empty());

    let mut i = InsertionSort::init(Vec::new());
    assert!(i.has_completed());
    i.step();
    assert!(i.has_completed());
    assert!(i.data.is_empty());
}

#[test]
fn singleton_input_completes_immediately() {
    let mut b = BubbleSort::init(vec![4]);
    assert!(b.has_completed());
    b.step();
    assert!(b.has_completed());
    assert_eq!(b.data, vec![4]);

    let mut s = SelectionSort::init(vec![4]);
    assert!(s.has_completed());
    s.step();
    assert!(s.has_completed());
    assert_eq!(s.data, vec![4]);

    let mut i = InsertionSort::init(vec![4]);
    assert!(i.has_completed());
    i.step();
    assert!(i.has_completed());
    assert_eq!(i.data, vec![4]);
}
