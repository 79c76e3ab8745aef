//! What holds of every board, stated over the model of [`crate::puzzle`].

use crate::coords::Coords;
use crate::grid::{lemma_digits, side};
use crate::model::{clash, member, only, refines, within};
use crate::proofs::lemma_refines_trans;
use crate::puzzle::{
    evaluate, fits, fresh, lemma_evaluate, lemma_fresh_wf, lemma_groups_of, lemma_next_dirty,
    lemma_placed, next_dirty, placed, propagate, weight, SudokuView,
};
use vstd::prelude::*;

verus! {

/// A new board of degree `d` has `d * d * d * d` cells and `3 * d * d`
/// groups. Each group has `d * d` members, all different cells of the
/// board, and each cell is in exactly three groups.
pub proof fn law_new_counts(degree: usize)
    requires
        fits(degree),
    ensures
        fresh(degree).wf(),
        fresh(degree).cells.len() == degree * degree * degree * degree,
        fresh(degree).blocks.len() == 3 * degree * degree,
        forall|b: int|
            0 <= b < fresh(degree).blocks.len() ==> (#[trigger] fresh(degree).blocks[b]).members.len()
                == degree * degree,
        forall|b: int, j: int, k: int|
            0 <= b < fresh(degree).blocks.len() && 0 <= j < k < degree * degree
                ==> #[trigger] fresh(degree).blocks[b].members[j]
                != #[trigger] fresh(degree).blocks[b].members[k],
        forall|c: int|
            0 <= c < fresh(degree).cells.len() ==> (#[trigger] fresh(degree).cells[c]).blocks.finite()
                && fresh(degree).cells[c].blocks.len() == 3,
{
    let d = degree as int;
    let s = fresh(degree);
    lemma_fresh_wf(degree);
    assert(side(d) * side(d) == degree * degree * degree * degree) by (nonlinear_arith)
        requires
            side(d) == d * d,
            d == degree,
    ;
    assert(3 * side(d) == 3 * degree * degree) by (nonlinear_arith)
        requires
            side(d) == d * d,
            d == degree,
    ;
    assert(0 <= side(d) && (0 < side(d) ==> 0 < d)) by (nonlinear_arith)
        requires
            0 <= d,
            side(d) == d * d,
    ;
    assert forall|b: int, j: int, k: int|
        0 <= b < s.blocks.len() && 0 <= j < k < degree * degree implies #[trigger] s.blocks[b].members[j]
        != #[trigger] s.blocks[b].members[k] by {
        assert(s.block_wf(b));
    }
    assert forall|c: int| 0 <= c < s.cells.len() implies (#[trigger] s.cells[c]).blocks.finite()
        && s.cells[c].blocks.len() == 3 by {
        lemma_groups_of(d, c);
    }
}

/// After an assignment the cell holds the symbol, and the symbol is the
/// only one possible for it.
pub proof fn law_assign_then_read(s: SudokuView, pos: Coords, value: usize)
    requires
        s.wf(),
        s.on_grid(pos),
        value < s.size(),
    ensures
        placed(s, pos, value).wf(),
        placed(s, pos, value).cells[s.index_of(pos)].value == Some(value),
        placed(s, pos, value).cells[s.index_of(pos)].possibles == only(s.size() as nat, value),
        placed(s, pos, value).index_of(pos) == s.index_of(pos),
{
    lemma_placed(s, pos, value);
    assert(s.cell_wf(s.index_of(pos)));
}

/// An assignment of a symbol that is still possible for the cell adds no
/// possible symbol to any cell.
pub proof fn law_assign_shrinks(s: SudokuView, pos: Coords, value: usize)
    requires
        s.wf(),
        s.on_grid(pos),
        value < s.size(),
        s.cells[s.index_of(pos)].possibles[value as int],
    ensures
        placed(s, pos, value).cells.len() == s.cells.len(),
        forall|c: int|
            0 <= c < s.cells.len() ==> within(
                (#[trigger] placed(s, pos, value).cells[c]).possibles,
                s.cells[c].possibles,
            ),
{
    lemma_placed(s, pos, value);
}

/// Propagation leaves a sound board on which each cell is what it was or
/// a refinement of it: no symbol becomes possible that was not, and a cell
/// that held a symbol is unchanged.
pub proof fn law_propagate_refines(s: SudokuView)
    requires
        s.wf(),
    ensures
        propagate(s).0.wf(),
        propagate(s).0.degree == s.degree,
        propagate(s).0.cells.len() == s.cells.len(),
        forall|c: int| 0 <= c < s.cells.len() ==> refines(s.cells[c], #[trigger] propagate(s).0.cells[c]),
        propagate(s).0.blocks.len() == s.blocks.len(),
        forall|b: int|
            0 <= b < s.blocks.len() ==> (#[trigger] propagate(s).0.blocks[b]).members
                == s.blocks[b].members,
    decreases weight(s.cells), s.dirty.len(),
{
    match next_dirty(s) {
        None => {},
        Some(g) => {
            lemma_next_dirty(s);
            lemma_evaluate(s, g);
            let (t, ok) = evaluate(s, g);
            if ok {
                law_propagate_refines(t);
                let end = propagate(s).0;
                assert forall|c: int| 0 <= c < s.cells.len() implies refines(
                    s.cells[c],
                    #[trigger] end.cells[c],
                ) by {
                    lemma_refines_trans(s.cells[c], t.cells[c], end.cells[c]);
                }
            }
        },
    }
}

/// Possibility sets only shrink under propagation.
pub proof fn law_propagate_shrinks(s: SudokuView)
    requires
        s.wf(),
    ensures
        propagate(s).0.cells.len() == s.cells.len(),
        forall|c: int|
            0 <= c < s.cells.len() ==> within(
                (#[trigger] propagate(s).0.cells[c]).possibles,
                s.cells[c].possibles,
            ),
{
    law_propagate_refines(s);
}

/// Propagation that ends without a contradiction leaves no group waiting,
/// and on a board where no group waits it changes nothing.
pub proof fn law_propagate_drains(s: SudokuView)
    requires
        s.wf(),
    ensures
        propagate(s).1 ==> propagate(s).0.dirty == Set::<usize>::empty(),
        s.dirty == Set::<usize>::empty() ==> propagate(s) == (s, true),
    decreases weight(s.cells), s.dirty.len(),
{
    lemma_next_dirty(s);
    match next_dirty(s) {
        None => {},
        Some(g) => {
            lemma_evaluate(s, g);
            let (t, ok) = evaluate(s, g);
            if ok {
                law_propagate_drains(t);
            }
        },
    }
}

/// Propagation is idempotent: after it ended without a contradiction, a
/// second propagation changes nothing and ends without a contradiction.
pub proof fn law_propagate_idempotent(s: SudokuView)
    requires
        s.wf(),
        propagate(s).1,
    ensures
        propagate(propagate(s).0) == (propagate(s).0, true),
{
    law_propagate_refines(s);
    law_propagate_drains(s);
    law_propagate_drains(propagate(s).0);
}

/// While a waiting group has two members with the same symbol, propagation
/// ends with a contradiction.
pub proof fn law_clash_is_found(s: SudokuView, g: int)
    requires
        s.wf(),
        0 <= g < s.blocks.len(),
        s.dirty.contains(g as usize),
        clash(s.cells, s.blocks[g].members),
    ensures
        !propagate(s).1,
    decreases weight(s.cells), s.dirty.len(),
{
    lemma_next_dirty(s);
    match next_dirty(s) {
        None => {},
        Some(first) => {
            lemma_evaluate(s, first);
            let (t, ok) = evaluate(s, first);
            if ok {
                let members = s.blocks[g].members;
                assert(s.block_wf(g));
                let (j, k) = choose|j: int, k: int|
                    0 <= j < k < members.len() && (#[trigger] member(s.cells, members, j)).value is Some
                        && member(s.cells, members, j).value == (#[trigger] member(
                        s.cells,
                        members,
                        k,
                    )).value;
                assert(member(t.cells, members, j).value == member(t.cells, members, k).value);
                law_clash_is_found(t, g);
            }
        },
    }
}

/// Assigning one symbol to two different cells that share a group makes
/// propagation end with a contradiction.
pub proof fn law_same_symbol_twice(s: SudokuView, a: Coords, b: Coords, value: usize, g: usize)
    requires
        s.wf(),
        s.on_grid(a),
        s.on_grid(b),
        a != b,
        value < s.size(),
        s.cells[s.index_of(a)].blocks.contains(g),
        s.cells[s.index_of(b)].blocks.contains(g),
    ensures
        !propagate(placed(placed(s, a, value), b, value)).1,
{
    let d = s.degree as int;
    let first = placed(s, a, value);
    let second = placed(first, b, value);
    lemma_placed(s, a, value);
    lemma_placed(first, b, value);
    lemma_digits(side(d), a.x as int, a.y as int);
    lemma_digits(side(d), b.x as int, b.y as int);
    let ia = s.index_of(a);
    let ib = s.index_of(b);
    assert(s.cell_wf(ia));
    assert(s.cell_wf(ib));
    let members = s.blocks[g as int].members;
    let ja = choose|k: int| 0 <= k < s.size() && k < members.len() && #[trigger] members[k] == ia;
    let jb = choose|k: int| 0 <= k < s.size() && k < members.len() && #[trigger] members[k] == ib;
    assert(member(second.cells, members, ja).value == Some(value));
    assert(member(second.cells, members, jb).value == Some(value));
    law_clash_is_found(second, g as int);
}

} // verus!
