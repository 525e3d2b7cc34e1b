use algorithms::tour::board::{Board, ConfigError};
use algorithms::tour::model::UNVISITED;
use algorithms::tour::moves::{
    find_fields, find_possible_moves, is_end_of_cyclic_tour, knight_offsets,
};
use algorithms::tour::search::{find_tour, leads_back_to_start};
use algorithms::tour::solver::{solve, TourOutcome};
use algorithms::tour::warnsdorff::{move_knight_warnsdorff, onward_moves};

fn cell_of(board: &Board, value: i32) -> Option<(usize, usize)> {
    let n = board.size();
    let mut found = None;
    for r in 0..n {
        for c in 0..n {
            if board.get(r, c) == value {
                assert!(found.is_none(), "value {} stands in two cells", value);
                found = Some((r, c));
            }
        }
    }
    found
}

fn is_knight_move(a: (usize, usize), b: (usize, usize)) -> bool {
    let dr = (a.0 as i64 - b.0 as i64).abs();
    let dc = (a.1 as i64 - b.1 as i64).abs();
    (dr == 1 && dc == 2) || (dr == 2 && dc == 1)
}

fn assert_is_tour(board: &Board, start: (usize, usize), closed: bool) {
    let n = board.size();
    let total = (n * n) as i32;
    assert_eq!(board.cell_total(), total);
    assert_eq!(board.get(start.0, start.1), 0);
    let mut previous = cell_of(board, 0).expect("step 0 is missing");
    for step in 1..total {
        let here = cell_of(board, step).expect("a step is missing");
        assert!(is_knight_move(previous, here), "step {} is no knight move", step);
        previous = here;
    }
    for r in 0..n {
        for c in 0..n {
            let v = board.get(r, c);
            assert!(0 <= v && v < total);
        }
    }
    if closed {
        assert!(is_knight_move(previous, start));
    }
}

fn snapshot(board: &Board) -> Vec<Vec<i32>> {
    let n = board.size();
    (0..n).map(|r| (0..n).map(|c| board.get(r, c)).collect()).collect()
}

#[test]
fn open_tour_on_8x8_from_corner_is_solved() {
    match solve(8, 0, 0, false) {
        Ok(TourOutcome::Solved(board)) => {
            assert_eq!(board.size(), 8);
            assert_is_tour(&board, (0, 0), false);
        }
        other => panic!("expected a tour, got {:?}", other),
    }
}

#[test]
fn open_tour_on_8x8_from_the_middle_is_solved() {
    match solve(8, 5, 5, false) {
        Ok(TourOutcome::Solved(board)) => assert_is_tour(&board, (5, 5), false),
        other => panic!("expected a tour, got {:?}", other),
    }
}

#[test]
fn open_tours_on_5x5_are_permutations() {
    for (r, c) in [(0, 0), (2, 2), (4, 4), (0, 4), (4, 0)] {
        match solve(5, r, c, false) {
            Ok(TourOutcome::Solved(board)) => {
                assert_is_tour(&board, (r as usize, c as usize), false)
            }
            other => panic!("expected a tour from ({}, {}), got {:?}", r, c, other),
        }
    }
}

#[test]
fn no_tour_on_3x3_from_any_start() {
    for r in 0..3 {
        for c in 0..3 {
            assert!(matches!(solve(3, r, c, false), Ok(TourOutcome::NoSolution)));
            assert!(matches!(solve(3, r, c, true), Ok(TourOutcome::NoSolution)));
        }
    }
}

#[test]
fn no_tour_on_2x2_and_a_trivial_one_on_1x1() {
    assert!(matches!(solve(2, 0, 0, false), Ok(TourOutcome::NoSolution)));
    match solve(1, 0, 0, false) {
        Ok(TourOutcome::Solved(board)) => assert_eq!(snapshot(&board), vec![vec![0]]),
        other => panic!("expected the one-cell tour, got {:?}", other),
    }
    assert!(matches!(solve(1, 0, 0, true), Ok(TourOutcome::NoSolution)));
}

#[test]
fn closed_tours_on_6x6_return_to_start() {
    for (r, c) in [(0, 1), (1, 1), (3, 4), (5, 4)] {
        match solve(6, r, c, true) {
            Ok(TourOutcome::Solved(board)) => {
                assert_is_tour(&board, (r as usize, c as usize), true)
            }
            other => panic!("expected a closed tour from ({}, {}), got {:?}", r, c, other),
        }
    }
}

#[test]
fn closed_tours_on_8x8_return_to_start() {
    for (r, c) in [(0, 1), (0, 4), (2, 1)] {
        match solve(8, r, c, true) {
            Ok(TourOutcome::Solved(board)) => {
                assert_is_tour(&board, (r as usize, c as usize), true);
                let last = cell_of(&board, 63).unwrap();
                assert!(leads_back_to_start(
                    &board,
                    &knight_offsets(),
                    last.0 as i32,
                    last.1 as i32
                ));
            }
            other => panic!("expected a closed tour from ({}, {}), got {:?}", r, c, other),
        }
    }
}

fn closed_tour_from_corner() -> [[i32; 8]; 8] {
    [
        [0, 61, 14, 23, 56, 53, 12, 25],
        [15, 22, 63, 60, 13, 24, 45, 54],
        [62, 1, 50, 57, 52, 55, 26, 11],
        [21, 16, 59, 48, 41, 46, 39, 44],
        [2, 49, 20, 51, 58, 43, 10, 27],
        [17, 32, 35, 42, 47, 40, 7, 38],
        [34, 3, 30, 19, 36, 5, 28, 9],
        [31, 18, 33, 4, 29, 8, 37, 6],
    ]
}

fn board_with_steps_below(tour: &[[i32; 8]; 8], steps: i32) -> Board {
    let mut board = Board::new(8, 0, 0).unwrap();
    for r in 0..8 {
        for c in 0..8 {
            if tour[r][c] < steps {
                board.set(r, c, tour[r][c]);
            }
        }
    }
    board
}

#[test]
fn terminal_step_of_a_closed_tour_on_8x8_from_corner_succeeds() {
    let offsets = knight_offsets();
    let tour = closed_tour_from_corner();
    let mut board = board_with_steps_below(&tour, 64);
    assert_is_tour(&board, (0, 0), true);
    let before = snapshot(&board);
    let last = cell_of(&board, 63).unwrap();
    assert_eq!(last, (1, 2));
    assert!(find_tour(&mut board, &offsets, 1, 2, 64, true));
    assert_eq!(snapshot(&board), before);
    assert!(find_tour(&mut board, &offsets, 1, 2, 64, false));
    assert_eq!(snapshot(&board), before);
}

#[test]
fn terminal_step_of_an_open_tour_on_8x8_from_corner_fails_when_closed() {
    let offsets = knight_offsets();
    let mut board = match solve(8, 0, 0, false) {
        Ok(TourOutcome::Solved(board)) => board,
        other => panic!("expected a tour, got {:?}", other),
    };
    let before = snapshot(&board);
    let last = cell_of(&board, 63).unwrap();
    let back = is_knight_move(last, (0, 0));
    assert_eq!(
        find_tour(&mut board, &offsets, last.0 as i32, last.1 as i32, 64, true),
        back
    );
    assert_eq!(snapshot(&board), before);
}

#[test]
fn closed_search_on_8x8_from_corner_backtracks_to_a_closed_tour() {
    let offsets = knight_offsets();
    let tour = closed_tour_from_corner();
    for kept in [63, 53, 44] {
        let mut board = board_with_steps_below(&tour, kept);
        let before = snapshot(&board);
        let here = cell_of(&board, kept - 1).unwrap();
        assert!(find_tour(&mut board, &offsets, here.0 as i32, here.1 as i32, kept, true));
        assert_is_tour(&board, (0, 0), true);
        for r in 0..8 {
            for c in 0..8 {
                if before[r][c] != UNVISITED {
                    assert_eq!(board.get(r, c), before[r][c]);
                }
            }
        }
    }
}

#[test]
fn search_from_a_walk_keeps_the_walk() {
    let offsets = knight_offsets();
    let tour = closed_tour_from_corner();
    let mut board = board_with_steps_below(&tour, 30);
    let before = snapshot(&board);
    let here = cell_of(&board, 29).unwrap();
    assert!(find_tour(&mut board, &offsets, here.0 as i32, here.1 as i32, 30, false));
    assert_is_tour(&board, (0, 0), false);
    for r in 0..8 {
        for c in 0..8 {
            if before[r][c] != UNVISITED {
                assert_eq!(board.get(r, c), before[r][c]);
            }
        }
    }
}

#[test]
fn search_from_a_dead_end_fails_and_restores_the_board() {
    let offsets = knight_offsets();
    // The walk (0,0) (2,1) (1,3) (3,2) (4,0) is stuck in the corner.
    let mut board = Board::new(5, 0, 0).unwrap();
    board.set(2, 1, 1);
    board.set(1, 3, 2);
    board.set(3, 2, 3);
    let stem = snapshot(&board);
    board.set(4, 0, 4);
    let before = snapshot(&board);
    assert_eq!(move_knight_warnsdorff(&board, 4, 0, &offsets), None);
    assert!(!find_tour(&mut board, &offsets, 4, 0, 5, false));
    assert_eq!(snapshot(&board), before);
    // One step earlier the search has moves to try, and all of them fail.
    board.set(4, 0, UNVISITED);
    assert!(!find_tour(&mut board, &offsets, 3, 2, 4, false));
    assert_eq!(snapshot(&board), stem);
}

#[test]
fn terminal_step_checks_the_way_back_only_when_closed() {
    let offsets = knight_offsets();
    let mut board = match solve(5, 0, 0, false) {
        Ok(TourOutcome::Solved(board)) => board,
        other => panic!("expected a tour, got {:?}", other),
    };
    let before = snapshot(&board);
    let last = cell_of(&board, 24).unwrap();
    let back = is_knight_move(last, (0, 0));
    assert!(find_tour(&mut board, &offsets, last.0 as i32, last.1 as i32, 25, false));
    assert_eq!(
        find_tour(&mut board, &offsets, last.0 as i32, last.1 as i32, 25, true),
        back
    );
    assert_eq!(leads_back_to_start(&board, &offsets, last.0 as i32, last.1 as i32), back);
    assert_eq!(snapshot(&board), before);
}

#[test]
fn failed_search_restores_the_board() {
    let offsets = knight_offsets();
    for (n, r, c) in [(3, 0, 0), (3, 1, 1), (4, 0, 0), (4, 1, 2), (2, 1, 1)] {
        let mut board = Board::new(n, r, c).unwrap();
        let before = snapshot(&board);
        assert!(!find_tour(&mut board, &offsets, r, c, 1, false));
        assert_eq!(snapshot(&board), before);
        for i in 0..n as usize {
            for j in 0..n as usize {
                let expected = if (i, j) == (r as usize, c as usize) { 0 } else { UNVISITED };
                assert_eq!(board.get(i, j), expected);
            }
        }
    }
}

#[test]
fn search_twice_gives_the_same_tour() {
    let first = match solve(6, 2, 3, false) {
        Ok(TourOutcome::Solved(board)) => snapshot(&board),
        other => panic!("expected a tour, got {:?}", other),
    };
    let second = match solve(6, 2, 3, false) {
        Ok(TourOutcome::Solved(board)) => snapshot(&board),
        other => panic!("expected a tour, got {:?}", other),
    };
    assert_eq!(first, second);
}

#[test]
fn invalid_configurations_are_refused() {
    assert!(matches!(solve(0, 0, 0, false), Err(ConfigError::NonPositiveSize)));
    assert!(matches!(solve(-3, 0, 0, false), Err(ConfigError::NonPositiveSize)));
    assert!(matches!(solve(-1, 9, 9, true), Err(ConfigError::NonPositiveSize)));
    assert!(matches!(solve(46341, 0, 0, false), Err(ConfigError::SizeTooLarge)));
    assert!(matches!(solve(8, 8, 0, false), Err(ConfigError::StartOutOfRange)));
    assert!(matches!(solve(8, 0, 8, false), Err(ConfigError::StartOutOfRange)));
    assert!(matches!(solve(8, -1, 0, false), Err(ConfigError::StartOutOfRange)));
    assert!(matches!(solve(8, 0, -1, true), Err(ConfigError::StartOutOfRange)));
    assert_eq!(Board::new(0, 0, 0).err(), Some(ConfigError::NonPositiveSize));
    assert_eq!(Board::new(5, 5, 5).err(), Some(ConfigError::StartOutOfRange));
    assert!(Board::new(5, 4, 4).is_ok());
}

#[test]
fn new_board_holds_only_the_start() {
    let board = Board::new(4, 1, 2).unwrap();
    assert_eq!(board.size(), 4);
    assert_eq!(board.cell_total(), 16);
    assert_eq!(
        snapshot(&board),
        vec![
            vec![-1, -1, -1, -1],
            vec![-1, -1, 0, -1],
            vec![-1, -1, -1, -1],
            vec![-1, -1, -1, -1],
        ]
    );
}

#[test]
fn set_changes_one_cell() {
    let mut board = Board::new(3, 0, 0).unwrap();
    board.set(2, 1, 7);
    assert_eq!(snapshot(&board), vec![vec![0, -1, -1], vec![-1, -1, -1], vec![-1, 7, -1]]);
    board.set(2, 1, UNVISITED);
    assert_eq!(snapshot(&board), vec![vec![0, -1, -1], vec![-1, -1, -1], vec![-1, -1, -1]]);
}

#[test]
fn knight_table_has_the_eight_moves_in_order() {
    assert_eq!(
        knight_offsets(),
        [[-2, -1], [-1, -2], [2, -1], [1, -2], [-2, 1], [-1, 2], [2, 1], [1, 2]]
    );
}

#[test]
fn find_fields_tests_bounds_and_value() {
    let mut board = Board::new(5, 0, 0).unwrap();
    board.set(2, 1, 1);
    assert_eq!(find_fields(&board, &0, &0, &[2, 1], &1), Some((2, 1)));
    assert_eq!(find_fields(&board, &0, &0, &[2, 1], &UNVISITED), None);
    assert_eq!(find_fields(&board, &0, &0, &[1, 2], &UNVISITED), Some((1, 2)));
    assert_eq!(find_fields(&board, &0, &0, &[-2, 1], &UNVISITED), None);
    assert_eq!(find_fields(&board, &0, &0, &[1, -2], &UNVISITED), None);
    assert_eq!(find_fields(&board, &4, &4, &[1, 2], &UNVISITED), None);
    assert_eq!(find_fields(&board, &3, &3, &[2, 1], &UNVISITED), None);
    assert_eq!(find_fields(&board, &2, &1, &[-2, -1], &0), Some((0, 0)));
    assert_eq!(
        find_fields(&board, &i32::MAX, &i32::MAX, &[i32::MAX, i32::MAX], &UNVISITED),
        None
    );
    assert_eq!(find_fields(&board, &i32::MIN, &0, &[i32::MIN, 0], &UNVISITED), None);
}

#[test]
fn possible_moves_skip_visited_cells() {
    let mut board = Board::new(5, 2, 2).unwrap();
    assert_eq!(find_possible_moves(&board, &2, &2, &[-2, -1]), Some((0, 1)));
    board.set(0, 1, 1);
    assert_eq!(find_possible_moves(&board, &2, &2, &[-2, -1]), None);
    assert_eq!(find_possible_moves(&board, &0, &1, &[2, 1]), None);
    assert_eq!(find_possible_moves(&board, &0, &1, &[2, -1]), Some((2, 0)));
}

#[test]
fn end_of_cyclic_tour_sees_the_start_cell() {
    let board = Board::new(5, 0, 0).unwrap();
    assert!(is_end_of_cyclic_tour(&board, &2, &1, &[-2, -1]));
    assert!(is_end_of_cyclic_tour(&board, &1, &2, &[-1, -2]));
    assert!(!is_end_of_cyclic_tour(&board, &2, &1, &[-1, -2]));
    assert!(!is_end_of_cyclic_tour(&board, &1, &0, &[-2, -1]));
    let offsets = knight_offsets();
    assert!(leads_back_to_start(&board, &offsets, 2, 1));
    assert!(leads_back_to_start(&board, &offsets, 1, 2));
    assert!(!leads_back_to_start(&board, &offsets, 2, 2));
    assert!(!leads_back_to_start(&board, &offsets, 0, 0));
}

#[test]
fn onward_moves_counts_unvisited_neighbours() {
    let mut board = Board::new(5, 0, 0).unwrap();
    let offsets = knight_offsets();
    assert_eq!(onward_moves(&board, 0, 0, &offsets), 2);
    assert_eq!(onward_moves(&board, 2, 2, &offsets), 8);
    assert_eq!(onward_moves(&board, 2, 1, &offsets), 5);
    assert_eq!(onward_moves(&board, 0, 4, &offsets), 2);
    board.set(1, 2, 1);
    assert_eq!(onward_moves(&board, 0, 0, &offsets), 1);
    assert_eq!(onward_moves(&board, 0, 4, &offsets), 1);
}

#[test]
fn warnsdorff_orders_by_onward_moves_and_keeps_table_order_on_ties() {
    let board = Board::new(5, 2, 2).unwrap();
    let offsets = knight_offsets();
    // From the centre every target has two onward moves: table order stays.
    assert_eq!(
        move_knight_warnsdorff(&board, 2, 2, &offsets),
        Some(vec![(0, 1), (1, 0), (4, 1), (3, 0), (0, 3), (1, 4), (4, 3), (3, 4)])
    );
    let board = Board::new(5, 0, 0).unwrap();
    // (2, 1) has five onward moves, (1, 2) has five as well.
    assert_eq!(move_knight_warnsdorff(&board, 0, 0, &offsets), Some(vec![(2, 1), (1, 2)]));
    let board = Board::new(6, 2, 1).unwrap();
    // Targets in table order: (0,0) (4,0) (3,-1)x (0,2) (1,3) (4,2) (3,3)
    // with onward degrees       1     2            3     5     5     7
    assert_eq!(
        move_knight_warnsdorff(&board, 2, 1, &offsets),
        Some(vec![(0, 0), (4, 0), (0, 2), (1, 3), (4, 2), (3, 3)])
    );
}

#[test]
fn warnsdorff_puts_a_later_cell_of_smaller_degree_first() {
    let offsets = knight_offsets();
    // From (1, 2) on 5x5 the targets in table order are
    // (0,0) (3,1) (2,0) (0,4) (3,3) (2,4) with onward degrees 1 3 3 1 3 3.
    let mut board = Board::new(5, 1, 2).unwrap();
    assert_eq!(
        move_knight_warnsdorff(&board, 1, 2, &offsets),
        Some(vec![(0, 0), (0, 4), (3, 1), (2, 0), (3, 3), (2, 4)])
    );
    // With (4, 3) and (1, 0) taken the degrees are 1 1 3 1 3 2.
    board.set(4, 3, 5);
    board.set(1, 0, 6);
    assert_eq!(
        move_knight_warnsdorff(&board, 1, 2, &offsets),
        Some(vec![(0, 0), (3, 1), (0, 4), (2, 4), (2, 0), (3, 3)])
    );
    // From (2, 2) on 8x8 the degrees in table order are 2 2 5 3 3 5 7 7.
    let board = Board::new(8, 2, 2).unwrap();
    assert_eq!(
        move_knight_warnsdorff(&board, 2, 2, &offsets),
        Some(vec![(0, 1), (1, 0), (3, 0), (0, 3), (4, 1), (1, 4), (4, 3), (3, 4)])
    );
}

#[test]
fn warnsdorff_has_no_moves_in_a_dead_end() {
    let board = Board::new(3, 1, 1).unwrap();
    assert_eq!(move_knight_warnsdorff(&board, 1, 1, &knight_offsets()), None);
    let mut board = Board::new(3, 0, 0).unwrap();
    board.set(2, 1, 1);
    board.set(1, 2, 2);
    assert_eq!(move_knight_warnsdorff(&board, 0, 0, &knight_offsets()), None);
}
