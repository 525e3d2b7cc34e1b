//! The backtracking search.

use super::board::{Board, MAX_SIZE};
use super::model::{
    at, cell_count, closes, in_bounds, lands_on, moves, search, try_moves, warnsdorff_moves,
    UNVISITED,
};
use super::moves::{is_end_of_cyclic_tour, table};
use super::theory::{
    lemma_move_facts, lemma_search_finds_tours, lemma_search_misses_none,
    lemma_warnsdorff_moves_are_the_moves,
};
use super::walk::{extends, is_tour, is_walk, lemma_mark, lemma_walk_grows};
use super::warnsdorff::{cells_of, move_knight_warnsdorff};
use vstd::prelude::*;

verus! {

/// Whether some offset leads from `(row, col)` back to the start cell.
pub fn leads_back_to_start(
    board: &Board,
    offsets: &[[i32; 2]; 8],
    row: i32,
    col: i32,
) -> (back: bool)
    requires
        board.wf(),
    ensures
        back == closes(board@, table(offsets), row as int, col as int),
{
    let ghost g = board@;
    let ghost offs = table(offsets);
    let mut back = false;
    let mut i: usize = 0;
    while i < 8
        invariant
            i <= 8,
            board.wf(),
            g == board@,
            offs == table(offsets),
            back == exists|t: int|
                0 <= t < i && #[trigger] lands_on(g, offs, row as int, col as int, t, 0),
        decreases 8 - i,
    {
        if is_end_of_cyclic_tour(board, &row, &col, &offsets[i]) {
            assert(lands_on(g, offs, row as int, col as int, i as int, 0));
            back = true;
        }
        i += 1;
    }
    back
}

/// Extends the walk that stands on `(cur_row, cur_col)` with `num_visited`
/// cells visited to a tour of the whole board, trying moves in Warnsdorff
/// order and undoing each move that leads nowhere. Returns whether a tour was
/// found; the board then holds it. Otherwise the board is as it was.
pub fn find_tour(
    board: &mut Board,
    offsets: &[[i32; 2]; 8],
    cur_row: i32,
    cur_col: i32,
    num_visited: i32,
    closed: bool,
) -> (found: bool)
    requires
        old(board).wf(),
        is_walk(old(board)@, table(offsets), num_visited as int),
        in_bounds(old(board)@, cur_row as int, cur_col as int),
        at(old(board)@, cur_row as int, cur_col as int) == num_visited - 1,
        1 <= num_visited <= cell_count(old(board)@),
    ensures
        final(board).wf(),
        search(
            old(board)@,
            table(offsets),
            cur_row as int,
            cur_col as int,
            num_visited as int,
            cell_count(old(board)@),
            closed,
        ) == (if found {
            Some(final(board)@)
        } else {
            None
        }),
        found ==> is_tour(final(board)@, table(offsets), closed) && extends(
            old(board)@,
            final(board)@,
        ),
        !found ==> final(board)@ == old(board)@,
        found <==> exists|t: Seq<Seq<int>>|
            is_tour(t, table(offsets), closed) && #[trigger] extends(old(board)@, t),
    decreases cell_count(old(board)@) - num_visited,
{
    let ghost g = board@;
    let ghost offs = table(offsets);
    let ghost goal = cell_count(g);
    let ghost r = cur_row as int;
    let ghost c = cur_col as int;
    let ghost k = num_visited as int;
    proof {
        board.lemma_wf();
    }
    let mut found = false;
    if num_visited == board.cell_total() {
        if !closed {
            found = true;
        } else {
            found = leads_back_to_start(board, offsets, cur_row, cur_col);
        }
    } else {
        match move_knight_warnsdorff(board, cur_row, cur_col, offsets) {
            None => {
                assert(warnsdorff_moves(g, offs, r, c).len() == 0);
            },
            Some(next_fields) => {
                let ghost w = warnsdorff_moves(g, offs, r, c);
                let mut j: usize = 0;
                while j < next_fields.len() && !found
                    invariant
                        j <= next_fields@.len(),
                        w == cells_of(next_fields@),
                        w == warnsdorff_moves(g, offs, r, c),
                        offs == table(offsets),
                        g == old(board)@,
                        g.len() <= MAX_SIZE,
                        goal == cell_count(g),
                        k == num_visited,
                        1 <= k < goal <= i32::MAX,
                        is_walk(g, offs, k),
                        in_bounds(g, r, c),
                        at(g, r, c) == k - 1,
                        board.wf(),
                        !found ==> board@ == g && search(g, offs, r, c, k, goal, closed)
                            == try_moves(g, offs, w, j as int, k, goal, closed),
                        found ==> search(g, offs, r, c, k, goal, closed) == Some(board@),
                    decreases next_fields@.len() - j, (if found { 0int } else { 1int }),
                {
                    let (row, col) = next_fields[j];
                    let ghost p = (row as int, col as int);
                    proof {
                        assert(w[j as int] == p);
                        assert(w.contains(p));
                        lemma_warnsdorff_moves_are_the_moves(g, offs, r, c, p);
                        lemma_move_facts(g, offs, r, c, p);
                        lemma_walk_grows(g, offs, r, c, k, p);
                        lemma_mark(g, p.0, p.1, k);
                    }
                    board.set(row, col, num_visited);
                    if find_tour(board, offsets, row as i32, col as i32, num_visited + 1, closed) {
                        found = true;
                    } else {
                        board.set(row, col, UNVISITED);
                        assert(board@ =~~= g);
                        j += 1;
                    }
                }
            },
        }
    }
    proof {
        if found {
            lemma_search_finds_tours(g, offs, r, c, k, goal, closed);
        } else {
            assert forall|t: Seq<Seq<int>>| is_tour(t, offs, closed) implies !#[trigger] extends(
                g,
                t,
            ) by {
                if extends(g, t) {
                    lemma_search_misses_none(g, offs, r, c, k, goal, closed, t);
                }
            }
        }
    }
    found
}

} // verus!
