//! Propagation and the fillings of the grid: no deduction excludes a symbol
//! that a filling without repeats puts into a cell.

use crate::coords::Coords;
use crate::model::{
    candidate, cell_ok, clash, commit, commit_all, dead, determined, eliminate, group_ok, holds,
    host_count, infer, member, only, pick, population, taken, CellView,
};
use crate::proofs::{
    lemma_commit_all, lemma_first_such, lemma_population_only, lemma_population_within,
};
use crate::puzzle::{
    evaluate, lemma_evaluate, lemma_group_ok, lemma_next_dirty, lemma_placed, next_dirty, placed,
    propagate, weight, SudokuView,
};
use vstd::prelude::*;
use vstd::relations::injective_on;
use vstd::set_lib::{lemma_int_range, lemma_map_size, lemma_subset_equality, set_int_range};

verus! {

/// The symbol that a filling puts into the member at position `k`.
pub open spec fn symbol(filling: Seq<usize>, members: Seq<usize>, k: int) -> usize {
    filling[members[k] as int]
}

/// Whether a filling gives the members of a group symbols of the puzzle,
/// no two of them the same.
pub open spec fn fills(members: Seq<usize>, filling: Seq<usize>) -> bool {
    &&& forall|k: int|
        0 <= k < members.len() ==> members[k] < filling.len() && #[trigger] symbol(filling, members, k)
            < members.len()
    &&& forall|j: int, k: int|
        0 <= j < k < members.len() ==> #[trigger] symbol(filling, members, j) != #[trigger] symbol(
            filling,
            members,
            k,
        )
}

/// Whether the cells still allow a filling: each cell has the filling's
/// symbol among its possible ones.
pub open spec fn admits(cells: Seq<CellView>, filling: Seq<usize>) -> bool {
    &&& filling.len() == cells.len()
    &&& forall|c: int| 0 <= c < cells.len() ==> (#[trigger] cells[c]).possibles[filling[c] as int]
}

/// Whether a filling has no repeat in any group of the board.
pub open spec fn solves(s: SudokuView, filling: Seq<usize>) -> bool {
    forall|b: int| 0 <= b < s.blocks.len() ==> fills((#[trigger] s.blocks[b]).members, filling)
}

/// A filling of a group uses every symbol: as many members as symbols, no
/// two with the same symbol.
pub proof fn lemma_onto(members: Seq<usize>, filling: Seq<usize>, v: usize)
    requires
        fills(members, filling),
        v < members.len(),
    ensures
        exists|k: int| 0 <= k < members.len() && #[trigger] symbol(filling, members, k) == v,
{
    let n = members.len() as int;
    let positions = set_int_range(0, n);
    let put = |k: int| symbol(filling, members, k) as int;
    let used = positions.map(put);
    lemma_int_range(0, n);
    assert(injective_on(put, positions)) by {
        assert forall|j: int, k: int|
            positions.contains(j) && positions.contains(k) && #[trigger] put(j) == #[trigger] put(
                k,
            ) implies j == k by {
            if j < k {
                assert(symbol(filling, members, j) != symbol(filling, members, k));
            }
            if k < j {
                assert(symbol(filling, members, k) != symbol(filling, members, j));
            }
        }
    }
    lemma_map_size(positions, used, put);
    assert(used.subset_of(positions)) by {
        assert forall|w: int| used.contains(w) implies positions.contains(w) by {
            let k = choose|k: int| positions.contains(k) && w == put(k);
            assert(symbol(filling, members, k) < members.len());
        }
    }
    lemma_subset_equality(used, positions);
    assert(used.contains(v as int));
    let k = choose|k: int| positions.contains(k) && v as int == put(k);
    assert(symbol(filling, members, k) == v);
}

/// A set with two different bits set holds at least two bits.
pub proof fn lemma_population_two(s: Seq<bool>, v: usize, w: usize)
    requires
        v < w < s.len(),
        s[v as int],
        s[w as int],
    ensures
        population(s) >= 2,
    decreases s.len(),
{
    let rest = s.drop_last();
    if w == s.len() - 1 {
        lemma_population_only(rest.len(), v);
        lemma_population_within(only(rest.len(), v), rest);
    } else {
        lemma_population_two(rest, v, w);
    }
}

/// The hosts of a symbol among the first `upto` members are at least as
/// many as those among fewer, and a host counts.
pub proof fn lemma_host_count(
    cells: Seq<CellView>,
    members: Seq<usize>,
    v: usize,
    k: int,
    upto: int,
)
    requires
        0 <= k < upto,
        member(cells, members, k).possibles[v as int],
    ensures
        host_count(cells, members, v, k) < host_count(cells, members, v, k + 1),
        host_count(cells, members, v, k + 1) <= host_count(cells, members, v, upto),
    decreases upto - k,
{
    if k + 1 < upto {
        lemma_host_count_grows(cells, members, v, k + 1, upto);
    }
}

/// The hosts of a symbol among the first `upto` members are at least as
/// many as those among fewer.
pub proof fn lemma_host_count_grows(
    cells: Seq<CellView>,
    members: Seq<usize>,
    v: usize,
    fewer: int,
    upto: int,
)
    requires
        0 <= fewer <= upto,
    ensures
        host_count(cells, members, v, fewer) <= host_count(cells, members, v, upto),
    decreases upto - fewer,
{
    if fewer < upto {
        lemma_host_count_grows(cells, members, v, fewer, upto - 1);
    }
}

/// The member that gets a symbol is the member into which the filling puts
/// that symbol.
pub proof fn lemma_pick_sound(
    cells: Seq<CellView>,
    members: Seq<usize>,
    v: usize,
    filling: Seq<usize>,
)
    requires
        group_ok(cells, members),
        fills(members, filling),
        admits(cells, filling),
        v < members.len(),
    ensures
        pick(cells, members, v) matches Some(k) ==> 0 <= k < members.len() && symbol(
            filling,
            members,
            k,
        ) == v && candidate(cells, members, v, k),
{
    if let Some(k) = pick(cells, members, v) {
        let n = members.len() as int;
        lemma_first_such(|k: int| determined(cells, members, v, k), n);
        assert(determined(cells, members, v, k));
        let c = member(cells, members, k);
        let w = symbol(filling, members, k);
        assert(cells[members[k] as int].possibles[w as int]);
        if w != v {
            if population(c.possibles) == 1 {
                if w < v {
                    lemma_population_two(c.possibles, w, v);
                } else {
                    lemma_population_two(c.possibles, v, w);
                }
            } else {
                lemma_onto(members, filling, v);
                let j = choose|j: int|
                    0 <= j < members.len() && #[trigger] symbol(filling, members, j) == v;
                assert(cells[members[j] as int].possibles[v as int]);
                assert(j != k);
                if j < k {
                    lemma_host_count(cells, members, v, j, k);
                    lemma_host_count(cells, members, v, k, n);
                } else {
                    lemma_host_count(cells, members, v, k, j);
                    lemma_host_count(cells, members, v, j, n);
                }
            }
        }
    }
}

/// Considering a symbol keeps the filling allowed.
pub proof fn lemma_commit_sound(
    cells: Seq<CellView>,
    members: Seq<usize>,
    v: usize,
    filling: Seq<usize>,
)
    requires
        group_ok(cells, members),
        fills(members, filling),
        admits(cells, filling),
        v < members.len(),
    ensures
        admits(commit(cells, members, v), filling),
{
    lemma_pick_sound(cells, members, v, filling);
}

/// Considering the symbols below `upto` keeps the filling allowed.
pub proof fn lemma_commit_all_sound(
    cells: Seq<CellView>,
    members: Seq<usize>,
    upto: nat,
    filling: Seq<usize>,
)
    requires
        group_ok(cells, members),
        fills(members, filling),
        admits(cells, filling),
        upto <= members.len(),
    ensures
        admits(commit_all(cells, members, upto), filling),
    decreases upto,
{
    if upto > 0 {
        lemma_commit_all_sound(cells, members, (upto - 1) as nat, filling);
        lemma_commit_all(cells, members, (upto - 1) as nat);
        lemma_commit_sound(
            commit_all(cells, members, (upto - 1) as nat),
            members,
            (upto - 1) as usize,
            filling,
        );
    }
}

/// A member that holds a symbol holds the filling's symbol, so no two
/// members hold the same, and no member without a symbol loses the
/// filling's symbol when the held ones are excluded.
pub proof fn lemma_held_sound(cells: Seq<CellView>, members: Seq<usize>, filling: Seq<usize>)
    requires
        group_ok(cells, members),
        fills(members, filling),
        admits(cells, filling),
    ensures
        !clash(cells, members),
        forall|k: int|
            0 <= k < members.len() && member(cells, members, k).value is None ==> !taken(
                cells,
                members,
            )[#[trigger] symbol(filling, members, k) as int],
{
    assert forall|k: int|
        0 <= k < members.len() implies (#[trigger] member(cells, members, k)).value is None || member(
        cells,
        members,
        k,
    ).value == Some(symbol(filling, members, k)) by {
        assert(cell_ok(cells[members[k] as int], members.len()));
        assert(cells[members[k] as int].possibles[symbol(filling, members, k) as int]);
    }
    if clash(cells, members) {
        let (j, k) = choose|j: int, k: int|
            0 <= j < k < members.len() && (#[trigger] member(cells, members, j)).value is Some
                && member(cells, members, j).value == (#[trigger] member(cells, members, k)).value;
        assert(symbol(filling, members, j) != symbol(filling, members, k));
    }
    assert forall|k: int|
        0 <= k < members.len() && member(cells, members, k).value is None implies !taken(
        cells,
        members,
    )[#[trigger] symbol(filling, members, k) as int] by {
        let w = symbol(filling, members, k);
        if holds(cells, members, w) {
            let j = choose|j: int|
                0 <= j < members.len() && (#[trigger] member(cells, members, j)).value == Some(w);
            if j < k {
                assert(symbol(filling, members, j) != symbol(filling, members, k));
            }
            if k < j {
                assert(symbol(filling, members, k) != symbol(filling, members, j));
            }
        }
    }
}

/// One evaluation of a group finds no contradiction on cells that allow a
/// filling, and the cells allow it afterwards.
pub proof fn lemma_infer_sound(
    cells: Seq<CellView>,
    members: Seq<usize>,
    id: usize,
    assigned: Seq<bool>,
    filling: Seq<usize>,
)
    requires
        group_ok(cells, members),
        fills(members, filling),
        admits(cells, filling),
    ensures
        infer(cells, members, id, assigned).ok,
        admits(infer(cells, members, id, assigned).cells, filling),
{
    let n = members.len();
    lemma_held_sound(cells, members, filling);
    let committed = commit_all(cells, members, n);
    lemma_commit_all(cells, members, n);
    lemma_commit_all_sound(cells, members, n, filling);
    lemma_held_sound(committed, members, filling);
    let t = taken(committed, members);
    let doomed = |k: int| dead(member(committed, members, k), t);
    lemma_first_such(doomed, n as int);
    assert forall|k: int| 0 <= k < n implies !#[trigger] doomed(k) by {
        let c = member(committed, members, k);
        if c.value is None {
            let w = symbol(filling, members, k);
            assert(committed[members[k] as int].possibles[w as int]);
            assert(!t[w as int]);
        }
    }
    let after = eliminate(committed, members, t, n as int);
    assert forall|c: int| 0 <= c < after.len() implies (#[trigger] after[c]).possibles[filling[c] as int] by {
        assert(committed[c].possibles[filling[c] as int]);
        if exists|k: int| 0 <= k < n && #[trigger] members[k] == c {
            let k = choose|k: int| 0 <= k < n && #[trigger] members[k] == c;
            assert(symbol(filling, members, k) == filling[c]);
        }
    }
}

/// Propagation keeps every filling: on a board that allows a filling
/// without repeats in any group, propagation ends without a contradiction,
/// and the board allows the filling afterwards.
pub proof fn law_propagation_keeps_fillings(s: SudokuView, filling: Seq<usize>)
    requires
        s.wf(),
        solves(s, filling),
        admits(s.cells, filling),
    ensures
        propagate(s).1,
        admits(propagate(s).0.cells, filling),
    decreases weight(s.cells), s.dirty.len(),
{
    lemma_next_dirty(s);
    match next_dirty(s) {
        None => {},
        Some(g) => {
            lemma_evaluate(s, g);
            lemma_group_ok(s, g);
            let block = s.blocks[g];
            lemma_infer_sound(s.cells, block.members, block.id, block.assigned, filling);
            let t = evaluate(s, g).0;
            assert forall|b: int| 0 <= b < t.blocks.len() implies fills(
                (#[trigger] t.blocks[b]).members,
                filling,
            ) by {
                assert(t.blocks[b].members == s.blocks[b].members);
            }
            law_propagation_keeps_fillings(t, filling);
        },
    }
}

/// An assignment of the filling's own symbol keeps the filling allowed.
pub proof fn law_assign_keeps_filling(
    s: SudokuView,
    pos: Coords,
    value: usize,
    filling: Seq<usize>,
)
    requires
        s.wf(),
        s.on_grid(pos),
        value < s.size(),
        admits(s.cells, filling),
        filling[s.index_of(pos)] == value,
    ensures
        admits(placed(s, pos, value).cells, filling),
{
    lemma_placed(s, pos, value);
    assert(s.cell_wf(s.index_of(pos)));
}

} // verus!
