use sorting::{
    immut_median, insertion_sort, median, median_of_medians, parameters_are_valid, quicksort,
};

fn is_sorted<T: Ord>(v: &[T]) -> bool {
    v.windows(2).all(|w| w[0] <= w[1])
}

/// A fixed sequence of `n` numbers that looks shuffled, with repetitions.
fn scrambled(n: usize, modulus: i32) -> Vec<i32> {
    let mut state: u64 = 0x2545_f491_4f6c_dd1d;
    let mut out = Vec::with_capacity(n);
    for _ in 0..n {
        state ^= state << 13;
        state ^= state >> 7;
        state ^= state << 17;
        out.push((state % (modulus as u64)) as i32);
    }
    out
}

#[test]
fn quicksort_sorts_unordered_input_with_duplicates() {
    let mut v = vec![5, 3, 8, 3, 1];
    quicksort(&mut v, 2, 2);
    assert_eq!(v, vec![1, 3, 3, 5, 8]);
}

#[test]
fn quicksort_leaves_empty_input_empty() {
    for (r, cutoff) in [(2, 2), (5, 12), (1, 1), (0, 0), (3, 1)] {
        let mut v: Vec<i32> = vec![];
        quicksort(&mut v, r, cutoff);
        assert_eq!(v, Vec::<i32>::new());
    }
}

#[test]
fn quicksort_leaves_single_element_alone() {
    for (r, cutoff) in [(2, 2), (5, 12), (1, 1), (0, 0), (3, 1)] {
        let mut v = vec![7];
        quicksort(&mut v, r, cutoff);
        assert_eq!(v, vec![7]);
    }
}

#[test]
fn quicksort_handles_all_equal_elements() {
    let mut v = vec![2, 2, 2, 2];
    quicksort(&mut v, 2, 1);
    assert_eq!(v, vec![2, 2, 2, 2]);
}

#[test]
fn quicksort_sorts_descending_input() {
    let mut v = vec![9, 8, 7, 6, 5, 4, 3, 2, 1];
    quicksort(&mut v, 3, 4);
    assert_eq!(v, vec![1, 2, 3, 4, 5, 6, 7, 8, 9]);
}

#[test]
fn quicksort_with_default_parameters_sorts_a_long_input() {
    let input = scrambled(5000, 250);
    let mut v = input.clone();
    quicksort(&mut v, 5, 12);
    let mut expected = input;
    expected.sort();
    assert_eq!(v, expected);
}

#[test]
fn quicksort_output_is_non_decreasing() {
    for n in [0usize, 1, 2, 3, 10, 37, 200] {
        let mut v = scrambled(n, 50);
        quicksort(&mut v, 3, 2);
        assert!(is_sorted(&v));
    }
}

#[test]
fn quicksort_keeps_every_element() {
    let input = scrambled(300, 20);
    let mut v = input.clone();
    quicksort(&mut v, 4, 3);
    assert_eq!(v.len(), input.len());
    for value in 0..20 {
        let before = input.iter().filter(|x| **x == value).count();
        let after = v.iter().filter(|x| **x == value).count();
        assert_eq!(before, after);
    }
}

#[test]
fn quicksort_leaves_sorted_input_unchanged() {
    let sorted: Vec<i32> = vec![-4, -4, 0, 1, 1, 2, 9, 30, 30, 31, 100];
    let mut v = sorted.clone();
    quicksort(&mut v, 2, 3);
    assert_eq!(v, sorted);
    quicksort(&mut v, 5, 1);
    assert_eq!(v, sorted);
}

#[test]
fn quicksort_below_cutoff_equals_insertion_sort() {
    for n in [0usize, 1, 2, 5, 12] {
        let input = scrambled(n, 9);
        let mut by_quicksort = input.clone();
        quicksort(&mut by_quicksort, 5, 12);
        let mut by_insertion = input.clone();
        insertion_sort(&mut by_insertion);
        assert_eq!(by_quicksort, by_insertion);
    }
}

#[test]
fn quicksort_result_does_not_depend_on_parameters() {
    let input = scrambled(120, 40);
    let mut expected = input.clone();
    expected.sort();
    for r in [2usize, 3, 5, 7, 11, 29, 200] {
        for cutoff in [1usize, 2, 3, 12, 119, 120, 500] {
            let mut v = input.clone();
            quicksort(&mut v, r, cutoff);
            assert_eq!(v, expected);
        }
    }
}

#[test]
fn quicksort_accepts_groups_of_one_below_the_cutoff() {
    assert!(parameters_are_valid(3, 1, 5));
    let mut v = vec![3, 1, 2];
    quicksort(&mut v, 1, 5);
    assert_eq!(v, vec![1, 2, 3]);
}

#[test]
fn quicksort_sorts_other_element_types() {
    let mut chars = vec!['d', 'a', 'c', 'b', 'a'];
    quicksort(&mut chars, 2, 1);
    assert_eq!(chars, vec!['a', 'a', 'b', 'c', 'd']);

    let mut pairs = vec![(2u8, 1i64), (1, 9), (2, 0), (0, 5), (1, -3)];
    quicksort(&mut pairs, 2, 2);
    assert_eq!(pairs, vec![(0, 5), (1, -3), (1, 9), (2, 0), (2, 1)]);

    let mut arrays = [[3u8, 1], [1, 2], [1, 1]];
    quicksort(&mut arrays, 2, 1);
    assert_eq!(arrays, [[1, 1], [1, 2], [3, 1]]);
}

#[test]
fn quicksort_sorts_a_part_of_a_slice_only() {
    let mut v = vec![9, 4, 3, 2, 1, 0];
    quicksort(&mut v[1..5], 2, 1);
    assert_eq!(v, vec![9, 1, 2, 3, 4, 0]);
}

#[test]
fn parameters_are_valid_follows_length_cutoff_and_group_size() {
    assert!(parameters_are_valid(0, 0, 0));
    assert!(parameters_are_valid(1, 0, 0));
    assert!(parameters_are_valid(2, 2, 0));
    assert!(parameters_are_valid(2, 1, 2));
    assert!(parameters_are_valid(2, 0, 2));
    assert!(parameters_are_valid(1000, 2, 1));
    assert!(!parameters_are_valid(2, 1, 1));
    assert!(!parameters_are_valid(2, 0, 0));
    assert!(!parameters_are_valid(13, 1, 12));
}

#[test]
fn insertion_sort_sorts_small_inputs() {
    let mut empty: Vec<i32> = vec![];
    insertion_sort(&mut empty);
    assert_eq!(empty, Vec::<i32>::new());

    let mut one = vec![4];
    insertion_sort(&mut one);
    assert_eq!(one, vec![4]);

    let mut two = vec![2, 1];
    insertion_sort(&mut two);
    assert_eq!(two, vec![1, 2]);

    let mut v = vec![5, 3, 8, 3, 1];
    insertion_sort(&mut v);
    assert_eq!(v, vec![1, 3, 3, 5, 8]);
}

#[test]
fn insertion_sort_handles_sorted_reversed_and_equal_input() {
    let mut ascending = vec![1, 2, 3, 4, 5];
    insertion_sort(&mut ascending);
    assert_eq!(ascending, vec![1, 2, 3, 4, 5]);

    let mut descending = vec![5, 4, 3, 2, 1];
    insertion_sort(&mut descending);
    assert_eq!(descending, vec![1, 2, 3, 4, 5]);

    let mut equal = vec![7, 7, 7];
    insertion_sort(&mut equal);
    assert_eq!(equal, vec![7, 7, 7]);

    let mut extremes = vec![i32::MAX, 0, i32::MIN, -1];
    insertion_sort(&mut extremes);
    assert_eq!(extremes, vec![i32::MIN, -1, 0, i32::MAX]);
}

#[test]
fn insertion_sort_agrees_with_the_standard_sort() {
    let input = scrambled(150, 30);
    let mut v = input.clone();
    insertion_sort(&mut v);
    let mut expected = input;
    expected.sort();
    assert_eq!(v, expected);
}

#[test]
fn median_of_odd_length_is_the_middle_element() {
    let mut v = vec![3, 1, 2];
    assert_eq!(median(&mut v), 2);
    assert_eq!(v, vec![1, 2, 3]);

    let mut w = vec![10, 50, 30, 20, 40];
    assert_eq!(median(&mut w), 30);
    assert_eq!(w, vec![10, 20, 30, 40, 50]);
}

#[test]
fn median_of_even_length_is_at_half_the_length() {
    let mut v = vec![4, 1, 3, 2];
    assert_eq!(median(&mut v), 3);
    assert_eq!(v, vec![1, 2, 3, 4]);

    let mut two = vec![8, 6];
    assert_eq!(median(&mut two), 8);
}

#[test]
fn median_of_single_element_is_that_element() {
    let mut v = vec![42];
    assert_eq!(median(&mut v), 42);
    assert_eq!(v, vec![42]);
}

#[test]
fn median_has_half_of_the_elements_below_it() {
    let input = vec![17, -3, 8, 100, 2, 5, 64, 9, 11];
    let mut v = input.clone();
    let m = median(&mut v);
    assert!(input.contains(&m));
    let below = input.iter().filter(|x| **x < m).count();
    let above = input.iter().filter(|x| **x > m).count();
    assert_eq!(below, input.len() / 2);
    assert_eq!(above, input.len() / 2);
    assert_eq!(m, 9);
}

#[test]
fn immut_median_leaves_its_input_alone() {
    let v = vec![9, 1, 5, 3, 7];
    assert_eq!(immut_median(&v), 5);
    assert_eq!(v, vec![9, 1, 5, 3, 7]);
    assert_eq!(immut_median(&[2, 1]), 2);
    assert_eq!(immut_median(&['x']), 'x');
}

#[test]
fn median_of_medians_of_one_group_is_its_median() {
    let mut v = vec![3, 1, 2];
    assert_eq!(median_of_medians(&mut v, 10), 2);
    assert_eq!(median_of_medians(&mut v, 3), 2);
    assert_eq!(v, vec![3, 1, 2]);

    let mut one = vec![4];
    assert_eq!(median_of_medians(&mut one, 1), 4);
}

#[test]
fn median_of_medians_takes_the_median_of_group_medians() {
    let mut v = vec![9, 8, 7, 6, 5, 4, 3, 2, 1];
    assert_eq!(median_of_medians(&mut v, 3), 5);
    assert_eq!(v, vec![9, 8, 7, 6, 5, 4, 3, 2, 1]);
}

#[test]
fn median_of_medians_recurses_until_one_group_is_left() {
    let mut v = vec![5, 3, 8, 3, 1];
    assert_eq!(median_of_medians(&mut v, 2), 8);
    assert_eq!(v, vec![5, 3, 8, 3, 1]);
}

#[test]
fn median_of_medians_counts_a_short_last_group() {
    let mut v = vec![1, 2, 3, 4, 5, 6, 100];
    assert_eq!(median_of_medians(&mut v, 3), 5);
    let mut w = vec![1, 2, 3, 4, 5, 6, 7, 8, 9, 0];
    assert_eq!(median_of_medians(&mut w, 3), 5);
}

#[test]
fn median_of_medians_returns_an_element_of_the_input() {
    for r in [2usize, 3, 5, 7] {
        let input = scrambled(97, 1000);
        let mut v = input.clone();
        let pivot = median_of_medians(&mut v, r);
        assert!(input.contains(&pivot));
        assert_eq!(v, input);
    }
}

#[test]
fn median_of_medians_keeps_away_from_the_ends() {
    // 25 elements in groups of 5 are sure to have 7 elements on either side
    // of the pivot, the pivot counted on both.
    for shift in 0..25 {
        let input: Vec<i32> = (0..25).map(|k| (k * 7 + shift) % 25).collect();
        let mut v = input.clone();
        let pivot = median_of_medians(&mut v, 5);
        let at_most = input.iter().filter(|x| **x <= pivot).count();
        let at_least = input.iter().filter(|x| **x >= pivot).count();
        assert!(at_most >= 7);
        assert!(at_least >= 7);
    }
}

#[test]
fn median_of_medians_of_pairs_can_be_the_maximum() {
    let mut v = vec![1, 2, 3, 4];
    assert_eq!(median_of_medians(&mut v, 2), 4);
}
