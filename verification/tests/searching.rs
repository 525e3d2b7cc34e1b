use algorithms::random::make_random_vec;
use algorithms::searching::binary::binary_search;
use algorithms::searching::linear;
use algorithms::searching::positions;
use algorithms::sorting::quick::quick_sort;

#[test]
fn test_linear_search() {
    let vec = vec![1, 2, 3, 4, 5, 6, 7, 8, 9];
    let item_to_search = 5;
    let (pos, cmps) = linear::linear_search(&vec, item_to_search);
    assert_eq!(pos, 4);
    assert_eq!(cmps, pos + 1);
}

#[test]
fn test_linear_search_big_vector() {
    let vec = make_random_vec(1000, 100);
    let item_to_search = 5;
    let (pos, _) = linear::linear_search(&vec, item_to_search);
    assert!(vec[pos as usize] == item_to_search);
}

#[test]
fn main_test_linear_search() {
    let vec = vec![1, 2, 3, 4, 5, 6, 7, 8, 9];
    let item_to_search = 5;
    let result = positions::linear_search(&vec, item_to_search);
    assert_eq!(result, vec![4]);
}

#[test]
fn main_test_linear_search_big_vector() {
    let vec = make_random_vec(1000, 100);
    let item_to_search = 5;
    let result = positions::linear_search(&vec, item_to_search);
    assert!(result.iter().all(|x| vec[(*x) as usize] == item_to_search));
}

#[test]
fn linear_search_finds_the_first_of_several() {
    let vec = vec![7, 3, 5, 3, 5, 3];
    assert_eq!(linear::linear_search(&vec, 3), (1, 2));
    assert_eq!(linear::linear_search(&vec, 5), (2, 3));
    assert_eq!(linear::linear_search(&vec, 7), (0, 1));
}

#[test]
fn linear_search_reports_a_miss_with_the_length() {
    let vec = vec![7, 3, 5];
    assert_eq!(linear::linear_search(&vec, 4), (-1, 3));
    let empty: Vec<i32> = Vec::new();
    assert_eq!(linear::linear_search(&empty, 4), (-1, 0));
}

#[test]
fn positions_lists_every_occurrence_in_order() {
    let vec = vec![7, 3, 5, 3, 5, 3];
    assert_eq!(positions::linear_search(&vec, 3), vec![1, 3, 5]);
    assert_eq!(positions::linear_search(&vec, 5), vec![2, 4]);
    assert_eq!(positions::linear_search(&vec, 7), vec![0]);
    assert_eq!(positions::linear_search(&vec, 8), Vec::<i32>::new());
    let empty: Vec<i32> = Vec::new();
    assert_eq!(positions::linear_search(&empty, 8), Vec::<i32>::new());
}

#[test]
fn binary_search_finds_each_item_and_counts_its_tests() {
    let vec = vec![1, 2, 3, 4, 5, 6, 7, 8, 9];
    let expected = [
        (-1, 0),
        (0, 4),
        (1, 3),
        (2, 2),
        (3, 3),
        (4, 1),
        (5, 3),
        (6, 2),
        (7, 3),
        (8, 4),
        (-1, 0),
    ];
    for (target, want) in expected.iter().enumerate() {
        assert_eq!(binary_search(&vec, target as i32), *want);
    }
}

#[test]
fn binary_search_reports_gaps_with_the_tests_made() {
    let vec = vec![1, 3, 5, 7, 9, 11];
    assert_eq!(binary_search(&vec, 0), (-1, 0));
    assert_eq!(binary_search(&vec, 2), (-1, 2));
    assert_eq!(binary_search(&vec, 4), (-1, 2));
    assert_eq!(binary_search(&vec, 8), (-1, 3));
    assert_eq!(binary_search(&vec, 10), (-1, 3));
    assert_eq!(binary_search(&vec, 12), (-1, 0));
    assert_eq!(binary_search(&vec, 11), (5, 4));
    assert_eq!(binary_search(&vec, 1), (0, 3));
}

#[test]
fn binary_search_on_short_and_repeating_slices() {
    assert_eq!(binary_search(&[5], 5), (0, 1));
    assert_eq!(binary_search(&[5], 4), (-1, 0));
    assert_eq!(binary_search(&[4, 5], 5), (1, 2));
    assert_eq!(binary_search(&[4, 5], 4), (0, 1));
    assert_eq!(binary_search(&[2, 2, 2, 2], 2), (1, 1));
    assert_eq!(binary_search(&[1, 2, 2, 2, 3], 2), (2, 1));
}

#[test]
fn binary_search_on_an_unsorted_slice_answers_a_true_position_or_none() {
    assert_eq!(binary_search(&[3, 1, 2], 2), (-1, 0));
    assert_eq!(binary_search(&[1, 3, 2, 4], 3), (1, 1));
}

#[test]
fn binary_search_in_a_sorted_random_vector() {
    let mut vec = make_random_vec(1000, 100);
    quick_sort(&mut vec);
    for target in 0..100 {
        let (pos, tests) = binary_search(&vec, target);
        if vec.contains(&target) {
            assert_eq!(vec[pos as usize], target);
            assert!(1 <= tests && tests <= 12);
        } else {
            assert_eq!(pos, -1);
        }
    }
}
