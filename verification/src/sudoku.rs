//! The board: its cells, its groups, and the groups that wait to be
//! evaluated.

use crate::block::{Block, Contradiction};
use crate::cell::{merge, views, Cell};
use crate::coords::Coords;
use crate::fixpoint::{
    law_assign_keeps_quiet, law_fixed_point_is_settled, law_new_is_quiet, quiet, settled,
};
use crate::grid::{cell_at, in_group, lemma_digits, lemma_member, lemma_split, member_of, side};
use crate::laws::{
    law_assign_shrinks, law_assign_then_read, law_new_counts, law_propagate_drains,
    law_propagate_refines,
};
use crate::model::{first_such, listed, only, refines, within, BlockView, CellView};
use crate::proofs::lemma_first_such_from;
use crate::puzzle::{
    evaluate, fits, fresh, fresh_block, fresh_cell, groups_of, lemma_evaluate, lemma_fresh_block,
    lemma_group_ok, lemma_groups_of, lemma_next_dirty, placed, propagate, weight, SudokuView,
};
use crate::solutions::{admits, law_propagation_keeps_fillings, solves};
use std::collections::BTreeSet;
use vstd::prelude::*;

verus! {

/// A puzzle: the cells of the grid row by row, its groups (rows, then
/// columns, then boxes), and the groups that wait to be evaluated.
pub struct Sudoku {
    cells: Vec<Cell>,
    update_req_blocks: BTreeSet<usize>,
    blocks: Vec<Block>,
    degree: usize,
}

/// Why an assignment was refused.
#[derive(Clone, Copy, Debug, PartialEq, Eq, Structural)]
pub enum AssignError {
    /// The position is not on the grid.
    NotFound,
    /// The symbol is not one of the puzzle's.
    OutOfRange,
}

/// The end of propagation without a contradiction: no group waits.
#[derive(Clone, Copy, Debug, PartialEq, Eq, Structural)]
pub struct FixedPoint;

/// The groups of a board as contracts see them.
pub open spec fn block_views(blocks: Seq<Block>) -> Seq<BlockView> {
    blocks.map_values(|b: Block| b@)
}

impl View for Sudoku {
    type V = SudokuView;

    closed spec fn view(&self) -> SudokuView {
        SudokuView {
            degree: self.degree,
            cells: views(self.cells@),
            blocks: block_views(self.blocks@),
            dirty: self.update_req_blocks@,
        }
    }
}

/// Whether a board of the given degree can be made: whether its cells and
/// its groups can be counted in `usize`.
pub fn degree_fits(degree: usize) -> (r: bool)
    ensures
        r == fits(degree),
{
    let ghost d = degree as int;
    match degree.checked_mul(degree) {
        Some(num) => match num.checked_mul(num) {
            Some(_) => num.checked_mul(3).is_some(),
            None => false,
        },
        None => {
            proof {
                assert(side(d) <= side(d) * side(d)) by (nonlinear_arith)
                    requires
                        side(d) == d * d,
                        side(d) > 0,
                ;
            }
            false
        },
    }
}

/// The degree of a grid with `side` rows and columns: the number whose
/// square `side` is, or `None` when `side` is no square.
pub fn degree_of(side: usize) -> (r: Option<usize>)
    ensures
        match r {
            Some(d) => d * d == side,
            None => forall|d: int| 0 <= d ==> #[trigger] (d * d) != side,
        },
{
    let mut d: usize = 0;
    loop
        invariant
            d <= side,
            forall|e: int| 0 <= e < d ==> #[trigger] (e * e) < side,
        decreases side - d,
    {
        let square = d.checked_mul(d);
        if square == Some(side) {
            return Some(d);
        }
        let past = match square {
            Some(q) => q > side,
            None => true,
        };
        if past || d == side {
            proof {
                assert forall|e: int| 0 <= e implies #[trigger] (e * e) != side by {
                    if e >= d {
                        if past {
                            assert(e * e >= d * d) by (nonlinear_arith)
                                requires
                                    e >= d,
                                    d >= 0,
                            ;
                        } else {
                            assert(e * e > side) by (nonlinear_arith)
                                requires
                                    e >= d,
                                    d == side,
                                    d * d != side,
                                    d >= 0,
                            ;
                        }
                    }
                }
            }
            return None;
        }
        d = d + 1;
    }
}

/// The members of group `b` of a board of the given degree.
fn group_members(degree: usize, b: usize) -> (members: Vec<usize>)
    requires
        fits(degree),
        b < 3 * side(degree as int),
    ensures
        members@ == fresh_block(degree as int, b as int).members,
{
    let ghost d = degree as int;
    proof {
        assert(0 < d && side(d) <= side(d) * side(d)) by (nonlinear_arith)
            requires
                0 <= d,
                b < 3 * side(d),
                side(d) == d * d,
        ;
    }
    let num = degree * degree;
    let mut members: Vec<usize> = Vec::new();
    let mut k: usize = 0;
    while k < num
        invariant
            d == degree,
            0 < d,
            fits(degree),
            num == side(d),
            b < 3 * num,
            k <= num,
            members@.len() == k,
            forall|j: int| 0 <= j < k ==> members@[j] == member_of(d, b as int, j),
        decreases num - k,
    {
        proof {
            lemma_member(d, b as int, k as int);
        }
        let c = if b < num {
            assert(0 <= b * num <= cell_at(d, b as int, k as int)) by (nonlinear_arith)
                requires
                    0 <= b,
                    0 <= num,
                    0 <= k,
                    cell_at(d, b as int, k as int) == b * num + k,
            ;
            b * num + k
        } else if b < 2 * num {
            assert(0 <= k * num <= cell_at(d, k as int, b - num)) by (nonlinear_arith)
                requires
                    0 <= k,
                    0 <= num <= b,
                    cell_at(d, k as int, b - num) == k * num + (b - num),
            ;
            k * num + (b - num)
        } else {
            let g = b - 2 * num;
            proof {
                lemma_split(d, d, g as int);
                lemma_split(d, d, k as int);
                lemma_digits(d, g as int / d, k as int / d);
                lemma_digits(d, g as int % d, k as int % d);
            }
            let x = (g / degree) * degree + k / degree;
            let y = (g % degree) * degree + k % degree;
            assert(0 <= x * num <= cell_at(d, x as int, y as int)) by (nonlinear_arith)
                requires
                    0 <= x,
                    0 <= num,
                    0 <= y,
                    cell_at(d, x as int, y as int) == x * num + y,
            ;
            x * num + y
        };
        members.push(c);
        k = k + 1;
    }
    members
}

impl Sudoku {
    /// The invariant of a board: see [`SudokuView::wf`].
    pub open spec fn wf(&self) -> bool {
        self@.wf()
    }

    /// A board of the given degree `d` with no symbol assigned. It has
    /// `d * d * d * d` cells, on each of which every symbol is possible, and
    /// `3 * d * d` groups of `d * d` members: the rows, the columns and the
    /// boxes. Each cell is in three groups, and no group waits.
    pub fn new(degree: usize) -> (sudoku: Sudoku)
        requires
            fits(degree),
        ensures
            sudoku@ == fresh(degree),
            sudoku.wf(),
            sudoku@.cells.len() == degree * degree * degree * degree,
            sudoku@.blocks.len() == 3 * degree * degree,
            forall|b: int|
                0 <= b < sudoku@.blocks.len() ==> (#[trigger] sudoku@.blocks[b]).members.len() == degree
                    * degree,
            forall|c: int|
                0 <= c < sudoku@.cells.len() ==> (#[trigger] sudoku@.cells[c]).blocks.finite()
                    && sudoku@.cells[c].blocks.len() == 3,
            degree != 1 ==> quiet(sudoku@),
    {
        let ghost d = degree as int;
        proof {
            assert(0 <= side(d) <= side(d) * side(d) || side(d) == 0) by (nonlinear_arith)
                requires
                    side(d) == d * d,
            ;
        }
        let num = degree * degree;
        let mut cells: Vec<Cell> = Vec::new();
        let mut x: usize = 0;
        while x < num
            invariant
                d == degree,
                fits(degree),
                num == side(d),
                x <= num,
                cells@.len() == x * num,
                forall|c: int|
                    0 <= c < cells@.len() ==> (#[trigger] cells@[c])@ == (CellView {
                        blocks: Set::empty(),
                        ..fresh_cell(d, c)
                    }),
            decreases num - x,
        {
            let mut y: usize = 0;
            while y < num
                invariant
                    d == degree,
                    fits(degree),
                    num == side(d),
                    x < num,
                    y <= num,
                    cells@.len() == x * num + y,
                    forall|c: int|
                        0 <= c < cells@.len() ==> (#[trigger] cells@[c])@ == (CellView {
                            blocks: Set::empty(),
                            ..fresh_cell(d, c)
                        }),
                decreases num - y,
            {
                proof {
                    lemma_digits(num as int, x as int, y as int);
                }
                cells.push(Cell::new(Coords { x, y }, degree));
                y = y + 1;
            }
            assert(x * num + num == (x + 1) * num) by (nonlinear_arith);
            x = x + 1;
        }
        assert(x * num == side(d) * side(d)) by (nonlinear_arith)
            requires
                x == num,
                num == side(d),
        ;
        let ghost bare = views(cells@);
        let blocks = Sudoku::gen_blocks(&mut cells, degree);
        let sudoku = Sudoku { cells, blocks, degree, update_req_blocks: BTreeSet::new() };
        proof {
            assert forall|c: int| 0 <= c < sudoku@.cells.len() implies #[trigger] sudoku@.cells[c]
                == fresh_cell(d, c) by {
                assert(bare[c].blocks.union(groups_of(d, c)) =~= groups_of(d, c));
            }
            assert(sudoku@.blocks =~= fresh(degree).blocks);
            law_new_counts(degree);
            if degree != 1 {
                law_new_is_quiet(degree);
            }
        }
        sudoku
    }

    /// The groups of a board of the given degree, in order: the rows, the
    /// columns, the boxes. Each cell records the groups it is in.
    fn gen_blocks(cells: &mut Vec<Cell>, degree: usize) -> (blocks: Vec<Block>)
        requires
            fits(degree),
            old(cells)@.len() == side(degree as int) * side(degree as int),
        ensures
            blocks@.len() == 3 * side(degree as int),
            forall|b: int|
                0 <= b < blocks@.len() ==> (#[trigger] blocks@[b])@ == fresh_block(degree as int, b),
            final(cells)@.len() == old(cells)@.len(),
            forall|c: int|
                0 <= c < old(cells)@.len() ==> (#[trigger] final(cells)@[c])@ == (CellView {
                    blocks: old(cells)@[c]@.blocks.union(groups_of(degree as int, c)),
                    ..old(cells)@[c]@
                }),
    {
        let ghost d = degree as int;
        proof {
            assert(0 <= side(d) <= side(d) * side(d) || side(d) == 0) by (nonlinear_arith)
                requires
                    side(d) == d * d,
            ;
        }
        let num = degree * degree;
        let total = 3 * num;
        let mut blocks: Vec<Block> = Vec::new();
        let mut b: usize = 0;
        while b < total
            invariant
                d == degree,
                fits(degree),
                num == side(d),
                total == 3 * num,
                b <= total,
                blocks@.len() == b,
                forall|j: int| 0 <= j < b ==> (#[trigger] blocks@[j])@ == fresh_block(d, j),
                cells@.len() == old(cells)@.len(),
                cells@.len() == side(d) * side(d),
                forall|c: int|
                    0 <= c < cells@.len() ==> (#[trigger] cells@[c])@ == (CellView {
                        blocks: old(cells)@[c]@.blocks.union(
                            Set::new(|j: usize| j < b && in_group(d, j as int, c)),
                        ),
                        ..old(cells)@[c]@
                    }),
            decreases total - b,
        {
            proof {
                assert(0 < d) by (nonlinear_arith)
                    requires
                        0 < side(d),
                        side(d) == d * d,
                        0 <= d,
                ;
                lemma_fresh_block(d, b as int);
            }
            let members = group_members(degree, b);
            let block = Block::create(b, members, degree, cells);
            blocks.push(block);
            proof {
                assert forall|c: int| 0 <= c < cells@.len() implies (#[trigger] cells@[c])@ == (CellView {
                    blocks: old(cells)@[c]@.blocks.union(
                        Set::new(|j: usize| j < b + 1 && in_group(d, j as int, c)),
                    ),
                    ..old(cells)@[c]@
                }) by {
                    let was = Set::new(|j: usize| j < b && in_group(d, j as int, c));
                    let is = Set::new(|j: usize| j < b + 1 && in_group(d, j as int, c));
                    let listed_here = listed(fresh_block(d, b as int).members, side(d), c);
                    if listed_here {
                        assert(old(cells)@[c]@.blocks.union(is) =~= old(cells)@[c]@.blocks.union(
                            was,
                        ).insert(b));
                    }
                }
            }
            b = b + 1;
        }
        proof {
            assert forall|c: int| 0 <= c < cells@.len() implies (#[trigger] cells@[c])@ == (CellView {
                blocks: old(cells)@[c]@.blocks.union(groups_of(d, c)),
                ..old(cells)@[c]@
            }) by {
                if 0 < d {
                    lemma_groups_of(d, c);
                } else {
                    assert(side(d) == 0) by (nonlinear_arith)
                        requires
                            d <= 0,
                            0 <= d,
                            side(d) == d * d,
                    ;
                }
            }
        }
        blocks
    }

    /// Writes `value` into the cell at `coords` and lets the cell's groups
    /// wait to be evaluated. Whatever was possible for the cell before, only
    /// `value` is afterwards.
    ///
    /// A position off the grid is refused as `NotFound`, and on the grid a
    /// symbol that is not below `degree * degree` as `OutOfRange`; the board
    /// then stays as it is.
    pub fn assign(&mut self, coords: &Coords, value: usize) -> (r: Result<(), AssignError>)
        requires
            old(self).wf(),
        ensures
            final(self).wf(),
            r == if !old(self)@.on_grid(*coords) {
                Err::<(), AssignError>(AssignError::NotFound)
            } else if value >= old(self)@.size() {
                Err(AssignError::OutOfRange)
            } else {
                Ok(())
            },
            final(self)@ == if r is Ok {
                placed(old(self)@, *coords, value)
            } else {
                old(self)@
            },
            r is Ok ==> final(self)@.cells[old(self)@.index_of(*coords)].value == Some(value)
                && final(self)@.cells[old(self)@.index_of(*coords)].possibles == only(
                old(self)@.size() as nat,
                value,
            ),
            quiet(old(self)@) ==> quiet(final(self)@),
            final(self)@.cells.len() == old(self)@.cells.len(),
            r is Err || old(self)@.cells[old(self)@.index_of(*coords)].possibles[value as int]
                ==> forall|c: int|
                0 <= c < old(self)@.cells.len() ==> within(
                    (#[trigger] final(self)@.cells[c]).possibles,
                    old(self)@.cells[c].possibles,
                ),
    {
        let ghost d = self.degree as int;
        proof {
            assert(0 <= side(d) <= side(d) * side(d) || side(d) == 0) by (nonlinear_arith)
                requires
                    side(d) == d * d,
            ;
        }
        let num = self.degree * self.degree;
        if coords.x >= num || coords.y >= num {
            return Err(AssignError::NotFound);
        }
        if value >= num {
            return Err(AssignError::OutOfRange);
        }
        proof {
            lemma_digits(num as int, coords.x as int, coords.y as int);
        }
        let idx = coords.x * num + coords.y;
        let ghost before = self@;
        assert(before.cell_wf(idx as int));
        let groups = self.cells[idx].assign(value);
        merge(&mut self.update_req_blocks, &groups);
        proof {
            assert(self@.cells =~= placed(before, *coords, value).cells);
            law_assign_then_read(before, *coords, value);
            if quiet(before) {
                law_assign_keeps_quiet(before, *coords, value);
            }
            if before.cells[before.index_of(*coords)].possibles[value as int] {
                law_assign_shrinks(before, *coords, value);
            }
        }
        Ok(())
    }

    /// The cell at `coords`, or `None` for a position off the grid.
    pub fn read_cell(&self, coords: &Coords) -> (r: Option<&Cell>)
        requires
            self.wf(),
        ensures
            r is Some <==> self@.on_grid(*coords),
            r matches Some(cell) ==> cell@ == self@.cells[self@.index_of(*coords)],
    {
        let ghost d = self.degree as int;
        proof {
            assert(0 <= side(d) <= side(d) * side(d) || side(d) == 0) by (nonlinear_arith)
                requires
                    side(d) == d * d,
            ;
        }
        let num = self.degree * self.degree;
        if coords.x >= num || coords.y >= num {
            return None;
        }
        proof {
            lemma_digits(num as int, coords.x as int, coords.y as int);
        }
        let idx = coords.x * num + coords.y;
        Some(&self.cells[idx])
    }

    /// Evaluates waiting groups until none waits or one finds a
    /// contradiction.
    ///
    /// Each round takes the first waiting group, in the order of the board's
    /// groups, from the waiting ones and evaluates it. A contradiction ends
    /// the call at once with `Contradiction`. Otherwise the groups that the
    /// evaluation marked wait as well. When no group waits the call ends
    /// with `FixedPoint`.
    pub fn inference(&mut self) -> (r: Result<FixedPoint, Contradiction>)
        requires
            old(self).wf(),
        ensures
            final(self).wf(),
            final(self)@ == propagate(old(self)@).0,
            r is Ok <==> propagate(old(self)@).1,
            r is Ok ==> final(self)@.dirty == Set::<usize>::empty(),
            old(self)@.dirty == Set::<usize>::empty() ==> r is Ok && final(self)@ == old(self)@,
            final(self)@.cells.len() == old(self)@.cells.len(),
            forall|c: int|
                0 <= c < old(self)@.cells.len() ==> refines(
                    old(self)@.cells[c],
                    #[trigger] final(self)@.cells[c],
                ),
            forall|filling: Seq<usize>|
                #![trigger solves(old(self)@, filling)]
                #![trigger admits(final(self)@.cells, filling)]
                solves(old(self)@, filling) && admits(old(self)@.cells, filling) ==> r is Ok
                    && admits(final(self)@.cells, filling),
            r is Ok && quiet(old(self)@) ==> quiet(final(self)@) && forall|g: int|
                0 <= g < final(self)@.blocks.len() ==> settled(
                    final(self)@.cells,
                    (#[trigger] final(self)@.blocks[g]).members,
                ),
    {
        broadcast use vstd::std_specs::btree::group_btree_axioms;

        loop
            invariant
                old(self).wf(),
                self.wf(),
                propagate(self@) == propagate(old(self)@),
            decreases weight(self@.cells), self@.dirty.len(),
        {
            let ghost s = self@;
            let ghost waits = |b: int| s.dirty.contains(b as usize);
            let total = self.blocks.len();
            let mut g: usize = 0;
            while g < total && !self.update_req_blocks.contains(&g)
                invariant
                    s == self@,
                    total == s.blocks.len(),
                    g <= total,
                    waits == |b: int| s.dirty.contains(b as usize),
                    first_such(waits, g as int) is None,
                decreases total - g,
            {
                g = g + 1;
            }
            proof {
                lemma_next_dirty(s);
                law_propagate_refines(old(self)@);
                law_propagate_drains(old(self)@);
                if propagate(old(self)@).1 && quiet(old(self)@) {
                    law_fixed_point_is_settled(old(self)@);
                }
                assert forall|filling: Seq<usize>|
                    #[trigger] solves(old(self)@, filling) && admits(
                        old(self)@.cells,
                        filling,
                    ) implies propagate(old(self)@).1 && admits(
                    propagate(old(self)@).0.cells,
                    filling,
                ) by {
                    law_propagation_keeps_fillings(old(self)@, filling);
                }
            }
            if g >= total {
                return Ok(FixedPoint);
            }
            proof {
                lemma_first_such_from(waits, g + 1, total as int);
                lemma_evaluate(s, g as int);
                lemma_group_ok(s, g as int);
                assert(s.block_wf(g as int));
            }
            self.update_req_blocks.remove(&g);
            match self.blocks[g].inference(&mut self.cells) {
                Ok(marked) => {
                    merge(&mut self.update_req_blocks, &marked);
                    proof {
                        assert(self@.blocks =~= evaluate(s, g as int).0.blocks);
                    }
                },
                Err(e) => {
                    proof {
                        assert(self@.blocks =~= evaluate(s, g as int).0.blocks);
                        assert(self@.dirty =~= evaluate(s, g as int).0.dirty);
                    }
                    return Err(e);
                },
            }
        }
    }

    /// The degree of the puzzle.
    pub fn degree(&self) -> (degree: usize)
        ensures
            degree == self@.degree,
    {
        self.degree
    }

    /// The cells of the board, row by row.
    pub fn cells(&self) -> (cells: &Vec<Cell>)
        ensures
            views(cells@) == self@.cells,
    {
        &self.cells
    }

    /// The groups of the board: rows, then columns, then boxes.
    pub fn blocks(&self) -> (blocks: &Vec<Block>)
        ensures
            block_views(blocks@) == self@.blocks,
    {
        &self.blocks
    }

    /// The groups that wait to be evaluated.
    pub fn pending(&self) -> (groups: &BTreeSet<usize>)
        ensures
            groups@ == self@.dirty,
    {
        &self.update_req_blocks
    }

    /// Search beyond propagation is no part of this library: the board stays
    /// as it is.
    pub fn solve(&mut self)
        ensures
            *final(self) == *old(self),
    {
    }
}

} // verus!
