//! Move ordering: the candidates of a cell, fewest onward moves first.

use super::board::Board;
use super::model::{
    in_bounds, insert_by_degree, moves, moves_upto, onward_degree, order_by_degree,
    warnsdorff_moves,
};
use super::moves::{find_possible_moves, table};
use vstd::prelude::*;

verus! {

/// A list of board positions as cells of the model.
pub open spec fn cells_of(v: Seq<(usize, usize)>) -> Seq<(int, int)> {
    v.map_values(|p: (usize, usize)| (p.0 as int, p.1 as int))
}

/// Every cell of `s` lies on the grid.
pub open spec fn all_in_bounds(g: Seq<Seq<int>>, s: Seq<(int, int)>) -> bool {
    forall|j: int| 0 <= j < s.len() ==> in_bounds(g, (#[trigger] s[j]).0, s[j].1)
}

/// Inserting by degree puts `x` at the one position `j` that has only larger
/// degrees behind it and none larger directly before it.
proof fn lemma_insert_position(
    g: Seq<Seq<int>>,
    offs: Seq<(int, int)>,
    sorted: Seq<(int, int)>,
    x: (int, int),
    j: int,
)
    requires
        0 <= j <= sorted.len(),
        forall|i: int|
            j <= i < sorted.len() ==> onward_degree(g, offs, #[trigger] sorted[i]) > onward_degree(
                g,
                offs,
                x,
            ),
        j == 0 || onward_degree(g, offs, sorted[j - 1]) <= onward_degree(g, offs, x),
    ensures
        insert_by_degree(g, offs, sorted, x) == sorted.insert(j, x),
    decreases sorted.len(),
{
    if j == sorted.len() {
        assert(sorted.insert(j, x) =~= sorted.push(x));
    } else {
        let front = sorted.drop_last();
        lemma_insert_position(g, offs, front, x, j);
        assert(front.insert(j, x).push(sorted.last()) =~= sorted.insert(j, x));
    }
}

/// The moves collected from the first `i` offsets lie on the grid.
proof fn lemma_moves_in_bounds(g: Seq<Seq<int>>, offs: Seq<(int, int)>, r: int, c: int, i: int)
    ensures
        all_in_bounds(g, moves_upto(g, offs, r, c, i)),
    decreases i,
{
    if i > 0 {
        lemma_moves_in_bounds(g, offs, r, c, i - 1);
    }
}

/// The number of unvisited cells one move away from `(row, col)`.
pub fn onward_moves(board: &Board, row: usize, col: usize, offsets: &[[i32; 2]; 8]) -> (n: usize)
    requires
        board.wf(),
        in_bounds(board@, row as int, col as int),
    ensures
        n == onward_degree(board@, table(offsets), (row as int, col as int)),
        n <= 8,
{
    proof {
        board.lemma_wf();
    }
    let r: i32 = row as i32;
    let c: i32 = col as i32;
    let mut n: usize = 0;
    let mut i: usize = 0;
    while i < 8
        invariant
            i <= 8,
            n <= i,
            board.wf(),
            r == row,
            c == col,
            n == moves_upto(board@, table(offsets), row as int, col as int, i as int).len(),
        decreases 8 - i,
    {
        if find_possible_moves(board, &r, &c, &offsets[i]).is_some() {
            n += 1;
        }
        i += 1;
    }
    n
}

/// The candidates in ascending order of onward degree, ties in the order
/// given.
pub fn order_moves(board: &Board, offsets: &[[i32; 2]; 8], cands: &Vec<(usize, usize)>) -> (res:
    Vec<(usize, usize)>)
    requires
        board.wf(),
        all_in_bounds(board@, cells_of(cands@)),
    ensures
        cells_of(res@) == order_by_degree(board@, table(offsets), cells_of(cands@)),
{
    let ghost g = board@;
    let ghost offs = table(offsets);
    let mut sorted: Vec<(usize, usize)> = Vec::new();
    let mut degrees: Vec<usize> = Vec::new();
    let mut i: usize = 0;
    assert(cells_of(cands@).take(0) =~= Seq::<(int, int)>::empty());
    assert(cells_of(sorted@) =~= Seq::<(int, int)>::empty());
    while i < cands.len()
        invariant
            i <= cands.len(),
            board.wf(),
            g == board@,
            offs == table(offsets),
            all_in_bounds(g, cells_of(cands@)),
            degrees@.len() == sorted@.len(),
            forall|j: int|
                0 <= j < sorted@.len() ==> #[trigger] degrees@[j] == onward_degree(
                    g,
                    offs,
                    cells_of(sorted@)[j],
                ),
            cells_of(sorted@) == order_by_degree(g, offs, cells_of(cands@).take(i as int)),
        decreases cands.len() - i,
    {
        let x: (usize, usize) = cands[i];
        assert(in_bounds(g, cells_of(cands@)[i as int].0, cells_of(cands@)[i as int].1));
        let d: usize = onward_moves(board, x.0, x.1, offsets);
        let mut j: usize = sorted.len();
        while j > 0 && degrees[j - 1] > d
            invariant
                j <= sorted@.len(),
                degrees@.len() == sorted@.len(),
                forall|t: int| j <= t < sorted@.len() ==> #[trigger] degrees@[t] > d,
            decreases j,
        {
            j -= 1;
        }
        proof {
            let xs = (x.0 as int, x.1 as int);
            let before = cells_of(sorted@);
            assert forall|t: int| j <= t < before.len() implies onward_degree(
                g,
                offs,
                #[trigger] before[t],
            ) > onward_degree(g, offs, xs) by {
                assert(degrees@[t] > d);
            }
            if j > 0 {
                assert(degrees@[j - 1] == onward_degree(g, offs, before[j - 1]));
            }
            lemma_insert_position(g, offs, before, xs, j as int);
            let prefix = cells_of(cands@).take(i as int + 1);
            assert(prefix.drop_last() =~= cells_of(cands@).take(i as int));
            assert(prefix.last() == xs);
            assert(cells_of(sorted@.insert(j as int, x)) =~= before.insert(j as int, xs));
        }
        sorted.insert(j, x);
        degrees.insert(j, d);
        i += 1;
    }
    assert(cells_of(cands@).take(cands@.len() as int) =~= cells_of(cands@));
    sorted
}

/// The unvisited cells one move away from `(row, col)`, fewest onward moves
/// first and ties in table order; `None` when there is no such cell.
pub fn move_knight_warnsdorff(board: &Board, row: i32, col: i32, offsets: &[[i32; 2]; 8]) -> (res:
    Option<Vec<(usize, usize)>>)
    requires
        board.wf(),
    ensures
        match res {
            Some(v) => v@.len() > 0 && cells_of(v@) == warnsdorff_moves(
                board@,
                table(offsets),
                row as int,
                col as int,
            ),
            None => moves(board@, table(offsets), row as int, col as int).len() == 0,
        },
{
    let ghost g = board@;
    let ghost offs = table(offsets);
    let mut next_fields: Vec<(usize, usize)> = Vec::new();
    let mut i: usize = 0;
    assert(cells_of(next_fields@) =~= moves_upto(g, offs, row as int, col as int, 0));
    while i < 8
        invariant
            i <= 8,
            board.wf(),
            g == board@,
            offs == table(offsets),
            cells_of(next_fields@) == moves_upto(g, offs, row as int, col as int, i as int),
        decreases 8 - i,
    {
        let ghost before = cells_of(next_fields@);
        match find_possible_moves(board, &row, &col, &offsets[i]) {
            Some(p) => {
                next_fields.push(p);
                assert(cells_of(next_fields@) =~= before.push((p.0 as int, p.1 as int)));
            },
            None => {},
        }
        i += 1;
    }
    if next_fields.is_empty() {
        return None;
    }
    proof {
        lemma_moves_in_bounds(g, offs, row as int, col as int, 8);
    }
    let sorted = order_moves(board, offsets, &next_fields);
    proof {
        lemma_order_keeps_length(g, offs, cells_of(next_fields@));
    }
    Some(sorted)
}

/// Inserting by degree adds one cell.
proof fn lemma_insert_length(
    g: Seq<Seq<int>>,
    offs: Seq<(int, int)>,
    sorted: Seq<(int, int)>,
    x: (int, int),
)
    ensures
        insert_by_degree(g, offs, sorted, x).len() == sorted.len() + 1,
    decreases sorted.len(),
{
    if !(sorted.len() == 0 || onward_degree(g, offs, sorted.last()) <= onward_degree(g, offs, x)) {
        lemma_insert_length(g, offs, sorted.drop_last(), x);
    }
}

/// Ordering by degree keeps the number of cells.
proof fn lemma_order_keeps_length(g: Seq<Seq<int>>, offs: Seq<(int, int)>, s: Seq<(int, int)>)
    ensures
        order_by_degree(g, offs, s).len() == s.len(),
    decreases s.len(),
{
    if s.len() > 0 {
        lemma_order_keeps_length(g, offs, s.drop_last());
        lemma_insert_length(g, offs, order_by_degree(g, offs, s.drop_last()), s.last());
    }
}

} // verus!
