use algorithms::random::make_random_vec;
use algorithms::sorting::bubble::bubble_sort;
use algorithms::sorting::counting::{counting_sort, draw_customers};
use algorithms::sorting::customer::Customer;
use algorithms::sorting::order::{check_sorted, swap_items};
use algorithms::sorting::quick::{partition, quick_sort};
use algorithms::sorting::quick_in_place;

fn customer(id: &str, num_purchases: i32) -> Customer {
    Customer { id: id.to_string(), num_purchases }
}

#[test]
fn test_partition() {
    let mut vec = vec![3, 1, 4, 1, 5, 9, 2, 6, 5, 3, 5];
    let p = partition(&mut vec);
    assert_eq!(p, 6);
}

#[test]
fn test_quick_sort() {
    let mut vec = vec![3, 1, 4, 1, 5, 9, 2, 6, 5, 3, 5];
    quick_sort(&mut vec);
    assert_eq!(vec, vec![1, 1, 2, 3, 3, 4, 5, 5, 5, 6, 9]);
}

#[test]
fn test_vectors_are_identical() {
    let mut vec = vec![3, 1, 4, 1, 5, 9, 2, 6, 5, 3, 5];
    let vec2 = vec.clone();
    quick_sort(&mut vec);
    let (identical, res) = vec.iter().fold((true, vec2), |(identical, mut vec2), x| {
        if let Some(pos) = vec2.iter().position(|&y| y == *x) {
            vec2.remove(pos);
            (identical, vec2)
        } else {
            (false, vec2)
        }
    });
    assert!(identical && res.is_empty());
}

#[test]
fn test_make_random_vec() {
    let num_items = 10;
    let max = 100;
    let vec = make_random_vec(num_items, max);
    assert_eq!(vec.len(), num_items as usize);
    for &x in vec.iter() {
        assert!(x >= 0 && x <= max);
    }
}

#[test]
fn test_bubble_sort() {
    let mut vec = vec![3, 2, 1];
    bubble_sort(&mut vec);
    assert_eq!(vec, vec![1, 2, 3]);
}

#[test]
fn test_check_sorted() {
    let vec = vec![1, 2, 3];
    assert!(check_sorted(&vec));
    let vec = vec![3, 2, 1];
    assert!(!check_sorted(&vec));
}

#[test]
fn test_check_identical() {
    let num_items = 10;
    let max = 100;
    let vec = make_random_vec(num_items, max);
    let mut vec2 = vec.clone();
    bubble_sort(&mut vec2);
    let (is_identical, residual) =
        vec.iter()
            .fold((true, vec2), |(is_identical, mut residual), &x| {
                if is_identical {
                    if let Some(pos) = residual.iter().position(|&y| y == x) {
                        residual.remove(pos);
                        (is_identical, residual)
                    } else {
                        (false, residual)
                    }
                } else {
                    (is_identical, residual)
                }
            });
    assert!(is_identical && residual.is_empty());
}

#[test]
fn test_counting_sort() {
    let v = vec![
        Customer {
            id: "C1".to_string(),
            num_purchases: 5,
        },
        Customer {
            id: "C2".to_string(),
            num_purchases: 3,
        },
        Customer {
            id: "C3".to_string(),
            num_purchases: 1,
        },
        Customer {
            id: "C4".to_string(),
            num_purchases: 8,
        },
        Customer {
            id: "C5".to_string(),
            num_purchases: 2,
        },
    ];
    let expected = vec![
        Customer {
            id: "C3".to_string(),
            num_purchases: 1,
        },
        Customer {
            id: "C5".to_string(),
            num_purchases: 2,
        },
        Customer {
            id: "C2".to_string(),
            num_purchases: 3,
        },
        Customer {
            id: "C1".to_string(),
            num_purchases: 5,
        },
        Customer {
            id: "C4".to_string(),
            num_purchases: 8,
        },
    ];
    let result = counting_sort(&v, 8);
    assert_eq!(result, expected);
}

#[test]
fn test_same_elements() {
    let max = 100;
    let v = algorithms::sorting::counting::make_random_vec(10_000, max);
    let mut result = counting_sort(&v, max);
    let (identical, res) = v
        .iter()
        .fold((true, &mut result), |(is_identical, res), elem| {
            if is_identical {
                if let Some(pos) = res.iter().position(|e| e == elem) {
                    res.remove(pos);
                    (is_identical, res)
                } else {
                    (false, res)
                }
            } else {
                (is_identical, res)
            }
        });
    assert!(identical && res.is_empty());
}

#[test]
fn check_sorted_on_edge_cases() {
    let empty: Vec<i32> = Vec::new();
    assert!(check_sorted(&empty));
    assert!(check_sorted(&[7]));
    assert!(check_sorted(&[7, 7, 7]));
    assert!(check_sorted(&[-3, 0, 0, 4]));
    assert!(!check_sorted(&[1, 2, 3, 2]));
    assert!(!check_sorted(&[2, 1]));
}

#[test]
fn swap_items_exchanges_two_items() {
    let mut vec = vec![1, 2, 3, 4];
    swap_items(&mut vec, 0, 3);
    assert_eq!(vec, vec![4, 2, 3, 1]);
    swap_items(&mut vec, 2, 2);
    assert_eq!(vec, vec![4, 2, 3, 1]);
}

#[test]
fn bubble_sort_sorts_and_keeps_the_items() {
    let mut vec = vec![5, -1, 5, 0, i32::MAX, i32::MIN, 3];
    bubble_sort(&mut vec);
    assert_eq!(vec, vec![i32::MIN, -1, 0, 3, 5, 5, i32::MAX]);
    let mut empty: Vec<i32> = Vec::new();
    bubble_sort(&mut empty);
    assert!(empty.is_empty());
    let mut one = vec![4];
    bubble_sort(&mut one);
    assert_eq!(one, vec![4]);
}

#[test]
fn partition_keeps_the_order_on_each_side() {
    let mut vec = vec![3, 1, 4, 1, 5, 9, 2, 6, 5, 3, 5];
    assert_eq!(partition(&mut vec), 6);
    assert_eq!(vec, vec![3, 1, 4, 1, 2, 3, 5, 5, 9, 6, 5]);
    let mut one = vec![7];
    assert_eq!(partition(&mut one), 0);
    assert_eq!(one, vec![7]);
    let mut low_pivot = vec![3, 2, 1];
    assert_eq!(partition(&mut low_pivot), 0);
    assert_eq!(low_pivot, vec![1, 3, 2]);
    let mut high_pivot = vec![2, 1, 3];
    assert_eq!(partition(&mut high_pivot), 2);
    assert_eq!(high_pivot, vec![2, 1, 3]);
}

#[test]
fn quick_sort_on_edge_cases() {
    let mut empty: Vec<i32> = Vec::new();
    quick_sort(&mut empty);
    assert!(empty.is_empty());
    let mut one = vec![4];
    quick_sort(&mut one);
    assert_eq!(one, vec![4]);
    let mut two = vec![4, -4];
    quick_sort(&mut two);
    assert_eq!(two, vec![-4, 4]);
    let mut same = vec![2, 2, 2, 2, 2];
    quick_sort(&mut same);
    assert_eq!(same, vec![2, 2, 2, 2, 2]);
    let mut falling = vec![9, 8, 7, 6, 5, 4, 3, 2, 1, 0];
    quick_sort(&mut falling);
    assert_eq!(falling, vec![0, 1, 2, 3, 4, 5, 6, 7, 8, 9]);
}

#[test]
fn sorts_agree_with_the_standard_sort_on_random_vectors() {
    for n in [0, 1, 2, 3, 10, 257] {
        let vec = make_random_vec(n, 50);
        let mut expected = vec.clone();
        expected.sort();
        let mut a = vec.clone();
        bubble_sort(&mut a);
        assert_eq!(a, expected);
        let mut b = vec.clone();
        quick_sort(&mut b);
        assert_eq!(b, expected);
        let mut c = vec.clone();
        quick_in_place::quick_sort(&mut c);
        assert_eq!(c, expected);
        assert!(check_sorted(&c));
    }
}

#[test]
fn partition_in_place_puts_equal_items_before_the_pivot() {
    let mut vec = vec![3, 1, 4, 1, 5, 9, 2, 6, 5, 3, 5];
    assert_eq!(quick_in_place::partition(&mut vec), 8);
    assert_eq!(vec, vec![3, 1, 4, 1, 5, 2, 5, 3, 5, 6, 9]);
    let mut other = vec![9, 8, 7, 1, 2, 3, 5];
    assert_eq!(quick_in_place::partition(&mut other), 3);
    assert_eq!(other, vec![1, 2, 3, 5, 8, 7, 9]);
    let mut one = vec![7];
    assert_eq!(quick_in_place::partition(&mut one), 0);
    assert_eq!(one, vec![7]);
}

#[test]
fn quick_sort_in_place_sorts() {
    let mut vec = vec![3, 1, 4, 1, 5, 9, 2, 6, 5, 3, 5];
    quick_in_place::quick_sort(&mut vec);
    assert_eq!(vec, vec![1, 1, 2, 3, 3, 4, 5, 5, 5, 6, 9]);
    let mut two = vec![2, 1];
    quick_in_place::quick_sort(&mut two);
    assert_eq!(two, vec![1, 2]);
    let mut empty: Vec<i32> = Vec::new();
    quick_in_place::quick_sort(&mut empty);
    assert!(empty.is_empty());
}

#[test]
fn counting_sort_keeps_the_order_of_equal_customers() {
    let v = vec![
        customer("a", 2),
        customer("b", 0),
        customer("c", 2),
        customer("d", 1),
        customer("e", 0),
        customer("f", 2),
    ];
    let sorted = counting_sort(&v, 2);
    let ids: Vec<&str> = sorted.iter().map(|c| c.id.as_str()).collect();
    assert_eq!(ids, vec!["b", "e", "d", "a", "c", "f"]);
    let purchases: Vec<i32> = sorted.iter().map(|c| c.num_purchases).collect();
    assert_eq!(purchases, vec![0, 0, 1, 2, 2, 2]);
}

#[test]
fn counting_sort_on_edge_cases() {
    let none: Vec<Customer> = Vec::new();
    assert!(counting_sort(&none, 0).is_empty());
    assert!(counting_sort(&none, -1).is_empty());
    assert!(counting_sort(&none, 10).is_empty());
    let one = vec![customer("x", 0)];
    let sorted = counting_sort(&one, 0);
    assert_eq!(sorted.len(), 1);
    assert_eq!(sorted[0].id, "x");
    let top = vec![customer("p", 7), customer("q", 7), customer("r", 0)];
    let sorted = counting_sort(&top, 7);
    let ids: Vec<&str> = sorted.iter().map(|c| c.id.as_str()).collect();
    assert_eq!(ids, vec!["r", "p", "q"]);
}

#[test]
fn random_customers_are_numbered_and_within_range() {
    let v = algorithms::sorting::counting::make_random_vec(25, 7);
    assert_eq!(v.len(), 25);
    for (i, c) in v.iter().enumerate() {
        assert_eq!(c.id, format!("C{}", i));
        assert!(0 <= c.num_purchases && c.num_purchases < 7);
    }
    assert!(algorithms::sorting::counting::make_random_vec(0, 7).is_empty());
}

#[test]
fn drawn_customers_follow_the_generator() {
    let mut prng = algorithms::random::Prng::from_seed(1);
    let v = draw_customers(&mut prng, 5, 100);
    let purchases: Vec<i32> = v.iter().map(|c| c.num_purchases).collect();
    assert_eq!(purchases, vec![51, 17, 30, 53, 94]);
    let ids: Vec<&str> = v.iter().map(|c| c.id.as_str()).collect();
    assert_eq!(ids, vec!["C0", "C1", "C2", "C3", "C4"]);
}

#[test]
fn customers_compare_by_purchases_alone() {
    let a = customer("a", 3);
    let b = customer("b", 3);
    let c = customer("c", 4);
    assert!(a == b);
    assert!(a != c);
    assert!(a < c);
    assert!(c > b);
    assert!(a <= b && a >= b);
    assert_eq!(a.partial_cmp(&c), Some(std::cmp::Ordering::Less));
    assert_eq!(c.partial_cmp(&a), Some(std::cmp::Ordering::Greater));
    assert_eq!(a.partial_cmp(&b), Some(std::cmp::Ordering::Equal));
}

#[test]
fn customer_text_default_and_clone() {
    assert_eq!(customer("C7", 12).to_text(), "(C7, 12)");
    assert_eq!(customer("", -5).to_text(), "(, -5)");
    let d = Customer::default();
    assert_eq!(d.id, "");
    assert_eq!(d.num_purchases, 0);
    let c = customer("C1", 9);
    let copy = c.clone();
    assert_eq!(copy.id, "C1");
    assert_eq!(copy.num_purchases, 9);
}
