//! The mathematical model of a whole board, and of what assignment and
//! propagation make of it.

use crate::coords::Coords;
use crate::grid::{
    box_of, cell_at, column_of, in_group, lemma_cell, lemma_digits, lemma_member, member_of,
    position_in, row_of, side,
};
use crate::model::{
    blank, cell_ok, cell_weight, first_such, fixed, full, group_ok, infer, listed, refines, BlockView,
    CellView,
};
use crate::proofs::{lemma_first_such, lemma_infer};
use vstd::prelude::*;

verus! {

/// A board as contracts see it.
#[verifier::ext_equal]
pub struct SudokuView {
    /// The degree `d` of the puzzle: boxes are `d` by `d`, the grid is
    /// `d * d` by `d * d`.
    pub degree: usize,
    /// The cells, row by row.
    pub cells: Seq<CellView>,
    /// The groups: rows, then columns, then boxes.
    pub blocks: Seq<BlockView>,
    /// The groups that wait to be evaluated.
    pub dirty: Set<usize>,
}

impl SudokuView {
    /// The number of symbols, which is also the number of rows and of
    /// columns.
    pub open spec fn size(self) -> int {
        side(self.degree as int)
    }

    /// Whether `pos` lies on the grid.
    pub open spec fn on_grid(self, pos: Coords) -> bool {
        pos.x < self.size() && pos.y < self.size()
    }

    /// The index of the cell at `pos`.
    pub open spec fn index_of(self, pos: Coords) -> int {
        cell_at(self.degree as int, pos.x as int, pos.y as int)
    }

    /// The invariant of cell `c`: it is a sound cell at its place on the
    /// grid, and each group it names lists it.
    pub open spec fn cell_wf(self, c: int) -> bool {
        let cell = self.cells[c];
        &&& cell_ok(cell, self.size() as nat)
        &&& cell.pos.x == row_of(self.degree as int, c)
        &&& cell.pos.y == column_of(self.degree as int, c)
        &&& forall|b: usize| #[trigger]
            cell.blocks.contains(b) ==> b < self.blocks.len() && listed(
                self.blocks[b as int].members,
                self.size(),
                c,
            )
    }

    /// The invariant of group `b`: it knows its index and the degree, and
    /// has as many members as there are symbols, each a different cell that
    /// names the group.
    pub open spec fn block_wf(self, b: int) -> bool {
        let block = self.blocks[b];
        &&& block.id == b
        &&& block.degree == self.degree
        &&& block.members.len() == self.size()
        &&& block.assigned.len() == self.size()
        &&& forall|k: int|
            0 <= k < block.members.len() ==> #[trigger] block.members[k] < self.cells.len()
                && self.cells[block.members[k] as int].blocks.contains(b as usize)
        &&& forall|j: int, k: int|
            0 <= j < k < block.members.len() ==> #[trigger] block.members[j]
                != #[trigger] block.members[k]
    }

    /// The invariant of a board of degree `d`: `d * d * d * d` sound cells
    /// and `3 * d * d` sound groups, and only groups of the board wait to be
    /// evaluated.
    pub open spec fn wf(self) -> bool {
        &&& self.size() * self.size() <= usize::MAX
        &&& 3 * self.size() <= usize::MAX
        &&& self.cells.len() == self.size() * self.size()
        &&& self.blocks.len() == 3 * self.size()
        &&& forall|c: int| 0 <= c < self.cells.len() ==> #[trigger] self.cell_wf(c)
        &&& forall|b: int| 0 <= b < self.blocks.len() ==> #[trigger] self.block_wf(b)
        &&& forall|b: usize| #[trigger] self.dirty.contains(b) ==> b < self.blocks.len()
    }
}

/// Whether the cells and the groups of a board of the given degree can be
/// counted in `usize`.
pub open spec fn fits(degree: usize) -> bool {
    &&& side(degree as int) * side(degree as int) <= usize::MAX
    &&& 3 * side(degree as int) <= usize::MAX
}

/// The three groups of cell `c`: its row, its column and its box.
pub open spec fn groups_of(d: int, c: int) -> Set<usize> {
    set![
        row_of(d, c) as usize,
        (side(d) + column_of(d, c)) as usize,
        (2 * side(d) + box_of(d, c)) as usize,
    ]
}

/// Cell `c` of a new board: no symbol, every symbol possible.
pub open spec fn fresh_cell(d: int, c: int) -> CellView {
    CellView {
        pos: Coords { x: row_of(d, c) as usize, y: column_of(d, c) as usize },
        value: None,
        possibles: full(side(d) as nat),
        blocks: groups_of(d, c),
    }
}

/// Group `b` of a new board.
pub open spec fn fresh_block(d: int, b: int) -> BlockView {
    BlockView {
        id: b as usize,
        members: Seq::new(side(d) as nat, |k: int| member_of(d, b, k) as usize),
        assigned: blank(side(d) as nat),
        degree: d as usize,
    }
}

/// The board of the given degree on which nothing is assigned and no group
/// waits.
pub open spec fn fresh(degree: usize) -> SudokuView {
    let d = degree as int;
    SudokuView {
        degree,
        cells: Seq::new((side(d) * side(d)) as nat, |c: int| fresh_cell(d, c)),
        blocks: Seq::new((3 * side(d)) as nat, |b: int| fresh_block(d, b)),
        dirty: Set::empty(),
    }
}

/// The board after `value` was written into the cell at `pos`: the cell
/// holds the symbol and nothing else is possible for it, and its groups
/// wait to be evaluated.
pub open spec fn placed(s: SudokuView, pos: Coords, value: usize) -> SudokuView {
    let c = s.index_of(pos);
    SudokuView {
        cells: s.cells.update(c, fixed(s.cells[c], value)),
        dirty: s.dirty.union(s.cells[c].blocks),
        ..s
    }
}

/// What is left to lose on the board: the sum over its cells.
pub open spec fn weight(cells: Seq<CellView>) -> nat
    decreases cells.len(),
{
    if cells.len() == 0 {
        0
    } else {
        weight(cells.drop_last()) + cell_weight(cells.last())
    }
}

/// The first group that waits to be evaluated.
pub open spec fn next_dirty(s: SudokuView) -> Option<int> {
    first_such(|b: int| s.dirty.contains(b as usize), s.blocks.len() as int)
}

/// The board after group `g` was taken from the waiting ones and
/// evaluated, and whether that went without a contradiction.
pub open spec fn evaluate(s: SudokuView, g: int) -> (SudokuView, bool) {
    let out = infer(s.cells, s.blocks[g].members, s.blocks[g].id, s.blocks[g].assigned);
    (
        SudokuView {
            cells: out.cells,
            blocks: s.blocks.update(g, BlockView { assigned: out.assigned, ..s.blocks[g] }),
            dirty: s.dirty.remove(g as usize).union(out.marked),
            ..s
        },
        out.ok,
    )
}

/// The board that propagation ends with, and whether it ended without a
/// contradiction.
///
/// While a group waits, the first waiting group is taken from the waiting
/// ones and evaluated. A contradiction ends propagation at once. Otherwise
/// the groups that the evaluation marked wait as well, and propagation goes
/// on. It ends without a contradiction when no group waits.
pub open spec fn propagate(s: SudokuView) -> (SudokuView, bool)
    decreases weight(s.cells), s.dirty.len(),
    when s.wf()
    via propagate_decreases
{
    match next_dirty(s) {
        None => (s, true),
        Some(g) => {
            let (t, ok) = evaluate(s, g);
            if ok {
                propagate(t)
            } else {
                (t, false)
            }
        },
    }
}

#[via_fn]
proof fn propagate_decreases(s: SudokuView) {
    match next_dirty(s) {
        None => {},
        Some(g) => {
            lemma_next_dirty(s);
            lemma_evaluate(s, g);
        },
    }
}

/// Cells that are refined weigh no more, and less if one of them changed.
pub proof fn lemma_weight(a: Seq<CellView>, b: Seq<CellView>)
    requires
        a.len() == b.len(),
        forall|c: int| 0 <= c < a.len() ==> refines(a[c], #[trigger] b[c]),
    ensures
        weight(b) <= weight(a),
        a != b ==> weight(b) < weight(a),
    decreases a.len(),
{
    if a.len() > 0 {
        lemma_weight(a.drop_last(), b.drop_last());
        if a != b && a.last() == b.last() {
            assert(a.drop_last() != b.drop_last()) by {
                if a.drop_last() == b.drop_last() {
                    assert(a =~= a.drop_last().push(a.last()));
                    assert(b =~= b.drop_last().push(b.last()));
                }
            }
        }
    } else {
        assert(a =~= b);
    }
}

/// On a sound board every group is sound.
pub proof fn lemma_group_ok(s: SudokuView, g: int)
    requires
        s.wf(),
        0 <= g < s.blocks.len(),
    ensures
        group_ok(s.cells, s.blocks[g].members),
        s.blocks[g].assigned.len() == s.blocks[g].members.len(),
        s.blocks[g].id == g,
{
    assert(s.block_wf(g));
    assert forall|c: int| 0 <= c < s.cells.len() implies cell_ok(
        #[trigger] s.cells[c],
        s.blocks[g].members.len(),
    ) by {
        assert(s.cell_wf(c));
    }
    assert(s.size() <= 3 * s.size()) by {
        assert(0 <= s.size()) by (nonlinear_arith)
            requires
                s.size() == s.degree * s.degree,
        ;
    }
}

/// The groups that wait on a sound board are finitely many.
pub proof fn lemma_dirty_finite(s: SudokuView)
    requires
        s.wf(),
    ensures
        s.dirty.finite(),
{
    let ints = vstd::set_lib::set_int_range(0, s.blocks.len() as int);
    assert(ints.finite()) by {
        vstd::set_lib::lemma_int_range(0, s.blocks.len() as int);
    }
    let back = ints.map(|i: int| i as usize);
    assert(back.finite()) by {
        ints.lemma_map_finite(|i: int| i as usize);
    }
    assert(s.dirty.subset_of(back)) by {
        assert forall|b: usize| s.dirty.contains(b) implies back.contains(b) by {
            assert(ints.contains(b as int));
        }
    }
    vstd::set_lib::lemma_set_subset_finite(back, s.dirty);
}

/// What the first waiting group is: a group of the board that waits, with
/// none before it; and when there is none, no group waits.
pub proof fn lemma_next_dirty(s: SudokuView)
    requires
        s.wf(),
    ensures
        next_dirty(s) matches Some(g) ==> 0 <= g < s.blocks.len() && s.dirty.contains(g as usize),
        next_dirty(s) is None ==> s.dirty == Set::<usize>::empty(),
{
    let waits = |b: int| s.dirty.contains(b as usize);
    lemma_first_such(waits, s.blocks.len() as int);
    if next_dirty(s) is None {
        assert forall|b: usize| !s.dirty.contains(b) by {
            if s.dirty.contains(b) {
                assert(!waits(b as int));
            }
        }
    }
}

/// What evaluating a group does to a sound board: the board stays sound,
/// each cell is refined, the groups keep their members, and unless a cell
/// changed the only difference is that the group waits no more.
pub proof fn lemma_evaluate(s: SudokuView, g: int)
    requires
        s.wf(),
        0 <= g < s.blocks.len(),
    ensures
        evaluate(s, g).0.wf(),
        evaluate(s, g).0.degree == s.degree,
        evaluate(s, g).0.cells.len() == s.cells.len(),
        forall|c: int|
            0 <= c < s.cells.len() ==> refines(s.cells[c], #[trigger] evaluate(s, g).0.cells[c]),
        evaluate(s, g).0.blocks.len() == s.blocks.len(),
        forall|b: int|
            0 <= b < s.blocks.len() ==> (#[trigger] evaluate(s, g).0.blocks[b]).members
                == s.blocks[b].members,
        s.dirty.remove(g as usize).subset_of(evaluate(s, g).0.dirty),
        evaluate(s, g).0.cells == s.cells ==> evaluate(s, g).0.dirty == s.dirty.remove(g as usize),
        weight(evaluate(s, g).0.cells) <= weight(s.cells),
        evaluate(s, g).0.cells != s.cells ==> weight(evaluate(s, g).0.cells) < weight(s.cells),
        s.dirty.contains(g as usize) ==> s.dirty.finite() && evaluate(s, g).0.dirty.finite() && (
        evaluate(s, g).0.cells == s.cells ==> evaluate(s, g).0.dirty.len() < s.dirty.len()),
{
    let t = evaluate(s, g).0;
    let members = s.blocks[g].members;
    let out = infer(s.cells, members, s.blocks[g].id, s.blocks[g].assigned);
    lemma_group_ok(s, g);
    lemma_infer(s.cells, members, s.blocks[g].id, s.blocks[g].assigned);
    lemma_weight(s.cells, t.cells);
    assert forall|b: int| 0 <= b < t.blocks.len() implies #[trigger] t.block_wf(b) by {
        assert(s.block_wf(b));
    }
    assert forall|c: int| 0 <= c < t.cells.len() implies #[trigger] t.cell_wf(c) by {
        assert(s.cell_wf(c));
    }
    assert forall|b: usize| #[trigger] t.dirty.contains(b) implies b < t.blocks.len() by {
        if out.marked.contains(b) {
            let c = choose|c: int|
                0 <= c < s.cells.len() && #[trigger] s.cells[c] != out.cells[c]
                    && s.cells[c].blocks.contains(b);
            assert(s.cell_wf(c));
        }
    }
    if t.cells == s.cells {
        assert(t.dirty =~= s.dirty.remove(g as usize));
    }
    if s.dirty.contains(g as usize) {
        lemma_dirty_finite(s);
        lemma_dirty_finite(t);
    }
}

/// A group of a new board lists exactly the cells that are in it, each
/// once, and all of them are cells of the grid.
pub proof fn lemma_fresh_block(d: int, b: int)
    requires
        0 < d,
        0 <= b < 3 * side(d),
        side(d) * side(d) <= usize::MAX,
    ensures
        forall|k: int|
            0 <= k < side(d) ==> 0 <= #[trigger] fresh_block(d, b).members[k] < side(d) * side(d),
        forall|j: int, k: int|
            0 <= j < k < side(d) ==> #[trigger] fresh_block(d, b).members[j]
                != #[trigger] fresh_block(d, b).members[k],
        forall|c: int|
            0 <= c < side(d) * side(d) ==> #[trigger] listed(fresh_block(d, b).members, side(d), c)
                == in_group(d, b, c),
{
    let members = fresh_block(d, b).members;
    assert forall|k: int| 0 <= k < side(d) implies 0 <= #[trigger] members[k] < side(d) * side(d)
        && members[k] == member_of(d, b, k) by {
        lemma_member(d, b, k);
    }
    assert forall|j: int, k: int| 0 <= j < k < side(d) implies #[trigger] members[j]
        != #[trigger] members[k] by {
        lemma_member(d, b, j);
        lemma_member(d, b, k);
    }
    assert forall|c: int| 0 <= c < side(d) * side(d) implies #[trigger] listed(members, side(d), c)
        == in_group(d, b, c) by {
        if listed(members, side(d), c) {
            let k = choose|k: int| 0 <= k < side(d) && k < members.len() && #[trigger] members[k] == c;
            lemma_member(d, b, k);
        }
        if in_group(d, b, c) {
            lemma_cell(d, c);
            let k = position_in(d, b, c);
            assert(members[k] == c);
        }
    }
}

/// The groups that a cell of the grid is in are its row, its column and its
/// box: three groups of the board.
pub proof fn lemma_groups_of(d: int, c: int)
    requires
        0 < d,
        0 <= c < side(d) * side(d),
        3 * side(d) <= usize::MAX,
    ensures
        groups_of(d, c) == Set::new(|b: usize| b < 3 * side(d) && in_group(d, b as int, c)),
        groups_of(d, c).finite(),
        groups_of(d, c).len() == 3,
{
    lemma_cell(d, c);
}

/// A new board is sound.
pub proof fn lemma_fresh_wf(degree: usize)
    requires
        fits(degree),
    ensures
        fresh(degree).wf(),
{
    let d = degree as int;
    let s = fresh(degree);
    assert(0 <= side(d) && (0 < side(d) ==> 0 < d)) by (nonlinear_arith)
        requires
            0 <= d,
            side(d) == d * d,
    ;
    assert forall|c: int| 0 <= c < s.cells.len() implies #[trigger] s.cell_wf(c) by {
        lemma_cell(d, c);
        lemma_groups_of(d, c);
        assert forall|b: usize| #[trigger] s.cells[c].blocks.contains(b) implies b < s.blocks.len()
            && listed(s.blocks[b as int].members, s.size(), c) by {
            lemma_fresh_block(d, b as int);
        }
    }
    assert forall|b: int| 0 <= b < s.blocks.len() implies #[trigger] s.block_wf(b) by {
        lemma_fresh_block(d, b);
        assert forall|k: int| 0 <= k < s.blocks[b].members.len() implies #[trigger] s.blocks[b].members[k]
            < s.cells.len() && s.cells[s.blocks[b].members[k] as int].blocks.contains(
            b as usize,
        ) by {
            let c = s.blocks[b].members[k] as int;
            assert(listed(s.blocks[b].members, side(d), c));
            lemma_groups_of(d, c);
        }
    }
}

/// An assignment on the grid of a symbol of the puzzle leaves a sound
/// board.
pub proof fn lemma_placed(s: SudokuView, pos: Coords, value: usize)
    requires
        s.wf(),
        s.on_grid(pos),
        value < s.size(),
    ensures
        0 <= s.index_of(pos) < s.cells.len(),
        placed(s, pos, value).wf(),
{
    let d = s.degree as int;
    let t = placed(s, pos, value);
    let idx = s.index_of(pos);
    lemma_digits(side(d), pos.x as int, pos.y as int);
    assert forall|c: int| 0 <= c < t.cells.len() implies #[trigger] t.cell_wf(c) by {
        assert(s.cell_wf(c));
    }
    assert forall|b: int| 0 <= b < t.blocks.len() implies #[trigger] t.block_wf(b) by {
        assert(s.block_wf(b));
    }
    assert forall|b: usize| #[trigger] t.dirty.contains(b) implies b < t.blocks.len() by {
        assert(s.cell_wf(idx));
    }
}

} // verus!
