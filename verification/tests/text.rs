use algorithms::sorting::customer::{customers_text, Customer};
use algorithms::text::{
    decimal_string, decimal_width, magnitude, push_decimal, push_digits, push_justified, vec_text,
};
use algorithms::tour::board::Board;
use algorithms::tour::render::dump_board;
use algorithms::tour::solver::{solve, TourOutcome};

#[test]
fn decimal_string_agrees_with_the_standard_formatting() {
    for n in [0i64, 1, 9, 10, 11, 99, 100, 12345, -1, -9, -10, -12345, i64::MAX, i64::MIN] {
        assert_eq!(decimal_string(n), n.to_string());
        assert_eq!(decimal_width(n), n.to_string().len());
    }
    assert_eq!(decimal_string(i64::MIN), "-9223372036854775808");
    assert_eq!(decimal_string(i64::MAX), "9223372036854775807");
    assert_eq!(decimal_string(0), "0");
    assert_eq!(decimal_string(-7), "-7");
}

#[test]
fn magnitude_drops_the_sign() {
    assert_eq!(magnitude(0), 0);
    assert_eq!(magnitude(5), 5);
    assert_eq!(magnitude(-5), 5);
    assert_eq!(magnitude(i64::MAX), 9_223_372_036_854_775_807);
    assert_eq!(magnitude(i64::MIN), 9_223_372_036_854_775_808);
}

#[test]
fn pushing_appends_to_what_is_there() {
    let mut text = String::from("n=");
    push_decimal(&mut text, -40);
    assert_eq!(text, "n=-40");
    push_digits(&mut text, 0);
    assert_eq!(text, "n=-400");
    push_digits(&mut text, u64::MAX);
    assert_eq!(text, "n=-40018446744073709551615");
}

#[test]
fn justified_numbers_fill_their_field_from_the_right() {
    let mut text = String::new();
    push_justified(&mut text, 7, 3);
    assert_eq!(text, "  7");
    push_justified(&mut text, -1, 3);
    assert_eq!(text, "  7 -1");
    push_justified(&mut text, 123, 3);
    assert_eq!(text, "  7 -1123");
    push_justified(&mut text, 1234, 3);
    assert_eq!(text, "  7 -11231234");
    push_justified(&mut text, 5, 0);
    assert_eq!(text, "  7 -112312345");
    push_justified(&mut text, 0, 5);
    assert_eq!(text, "  7 -112312345    0");
}

#[test]
fn dump_of_a_fresh_board() {
    let board = Board::new(3, 1, 1).unwrap();
    assert_eq!(dump_board(&board), " -1  -1  -1 \n -1   0  -1 \n -1  -1  -1 \n");
    let one = Board::new(1, 0, 0).unwrap();
    assert_eq!(dump_board(&one), "  0 \n");
}

#[test]
fn dump_of_a_tour_is_a_grid_of_right_justified_numbers() {
    let board = match solve(5, 0, 0, false) {
        Ok(TourOutcome::Solved(board)) => board,
        other => panic!("expected a tour, got {:?}", other),
    };
    let text = dump_board(&board);
    let mut expected = String::new();
    for r in 0..5 {
        for c in 0..5 {
            expected.push_str(&format!("{:3} ", board.get(r, c)));
        }
        expected.push('\n');
    }
    assert_eq!(text, expected);
    assert_eq!(text.lines().count(), 5);
    assert!(text.lines().all(|line| line.len() == 20));
}

#[test]
fn dump_keeps_wide_numbers_whole() {
    let mut board = Board::new(2, 0, 0).unwrap();
    board.set(0, 1, 1234);
    board.set(1, 0, -567);
    board.set(1, 1, 100);
    assert_eq!(dump_board(&board), "  0 1234 \n-567 100 \n");
}

#[test]
fn vec_text_lists_at_most_the_items_asked_for() {
    let vec = vec![3, -2, 10, 0];
    assert_eq!(vec_text(&vec, 10), "[3 -2 10 0]");
    assert_eq!(vec_text(&vec, 4), "[3 -2 10 0]");
    assert_eq!(vec_text(&vec, 2), "[3 -2]");
    assert_eq!(vec_text(&vec, 1), "[3]");
    assert_eq!(vec_text(&vec, 0), "[]");
    let empty: Vec<i32> = Vec::new();
    assert_eq!(vec_text(&empty, 3), "[]");
    assert_eq!(vec_text(&[i32::MIN, i32::MAX], 2), "[-2147483648 2147483647]");
}

#[test]
fn customers_text_lists_each_customer_behind_a_space() {
    let vec = vec![
        Customer { id: "C0".to_string(), num_purchases: 4 },
        Customer { id: "C1".to_string(), num_purchases: 0 },
        Customer { id: "C2".to_string(), num_purchases: 17 },
    ];
    assert_eq!(customers_text(&vec, 10), "[ (C0, 4) (C1, 0) (C2, 17)]");
    assert_eq!(customers_text(&vec, 2), "[ (C0, 4) (C1, 0)]");
    assert_eq!(customers_text(&vec, 0), "[]");
}
