//! The mathematical model of a puzzle: what a cell, a group and a board are,
//! and what one evaluation of a group makes of the cells.

use crate::coords::Coords;
use vstd::prelude::*;

verus! {

/// A cell as contracts see it.
#[verifier::ext_equal]
pub struct CellView {
    /// Where the cell lies.
    pub pos: Coords,
    /// The symbol the cell holds, once it has one.
    pub value: Option<usize>,
    /// Bit `v` is set while symbol `v` has not been excluded.
    pub possibles: Seq<bool>,
    /// The groups the cell is a member of.
    pub blocks: Set<usize>,
}

/// A group as contracts see it.
#[verifier::ext_equal]
pub struct BlockView {
    /// The group's index on the board.
    pub id: usize,
    /// The indices of its member cells, in order.
    pub members: Seq<usize>,
    /// The symbols found among its members when it was last evaluated.
    pub assigned: Seq<bool>,
    /// The degree of the puzzle.
    pub degree: usize,
}

/// The bit set of length `n` with every bit set.
pub open spec fn full(n: nat) -> Seq<bool> {
    Seq::new(n, |i: int| true)
}

/// The bit set of length `n` with no bit set.
pub open spec fn blank(n: nat) -> Seq<bool> {
    Seq::new(n, |i: int| false)
}

/// The bit set of length `n` whose only set bit is `v`.
pub open spec fn only(n: nat, v: usize) -> Seq<bool> {
    Seq::new(n, |i: int| i == v)
}

/// The number of set bits.
pub open spec fn population(s: Seq<bool>) -> nat
    decreases s.len(),
{
    if s.len() == 0 {
        0
    } else {
        population(s.drop_last()) + if s.last() {
            1nat
        } else {
            0nat
        }
    }
}

/// Whether every bit set in `a` is set in `b`, two sets of one length.
pub open spec fn within(a: Seq<bool>, b: Seq<bool>) -> bool {
    &&& a.len() == b.len()
    &&& forall|i: int| 0 <= i < a.len() && a[i] ==> b[i]
}

/// The invariant of a cell over `n` symbols: a cell that holds a symbol has
/// exactly that symbol left.
pub open spec fn cell_ok(c: CellView, n: nat) -> bool {
    &&& c.possibles.len() == n
    &&& c.value matches Some(v) ==> v < n && c.possibles == only(n, v)
}

/// What a cell has left to lose: its possible symbols, and one more while
/// it holds no symbol.
pub open spec fn cell_weight(c: CellView) -> nat {
    population(c.possibles) + if c.value is None {
        1nat
    } else {
        0nat
    }
}

/// Whether `b` is what propagation may make of cell `a`: the same cell, with
/// no symbol possible that was not possible before, unchanged once it holds
/// a symbol, and with less left to lose if it changed at all.
pub open spec fn refines(a: CellView, b: CellView) -> bool {
    &&& b.pos == a.pos
    &&& b.blocks == a.blocks
    &&& within(b.possibles, a.possibles)
    &&& (a.value is Some ==> b == a)
    &&& cell_weight(b) <= cell_weight(a)
    &&& (b != a ==> cell_weight(b) < cell_weight(a))
}

/// The cell after it recorded group `id` as one of its own, if `listed`.
pub open spec fn joined(c: CellView, id: usize, listed: bool) -> CellView {
    if listed {
        CellView { blocks: c.blocks.insert(id), ..c }
    } else {
        c
    }
}

/// The cell after symbol `v` was written into it.
pub open spec fn fixed(c: CellView, v: usize) -> CellView {
    CellView { value: Some(v), possibles: only(c.possibles.len(), v), ..c }
}

/// The cell after the symbols in `taken` were excluded from it. A cell that
/// holds a symbol stays as it is.
pub open spec fn pruned(c: CellView, taken: Seq<bool>) -> CellView {
    if c.value is None {
        CellView {
            possibles: Seq::new(c.possibles.len(), |i: int| c.possibles[i] && !taken[i]),
            ..c
        }
    } else {
        c
    }
}

/// Whether excluding `taken` leaves a cell without a symbol nothing.
pub open spec fn dead(c: CellView, taken: Seq<bool>) -> bool {
    &&& c.value is None
    &&& forall|i: int| 0 <= i < c.possibles.len() ==> !(c.possibles[i] && !taken[i])
}

/// The least index below `upto` at which `p` holds.
pub open spec fn first_such(p: spec_fn(int) -> bool, upto: int) -> Option<int>
    decreases upto,
{
    if upto <= 0 {
        None
    } else {
        match first_such(p, upto - 1) {
            Some(k) => Some(k),
            None => if p(upto - 1) {
                Some(upto - 1)
            } else {
                None
            },
        }
    }
}

/// The cell at position `k` of a group.
pub open spec fn member(cells: Seq<CellView>, members: Seq<usize>, k: int) -> CellView {
    cells[members[k] as int]
}

/// Whether a group's members are cells of the board, each listed once, and
/// every cell of the board is a cell over as many symbols as the group has
/// members.
pub open spec fn group_ok(cells: Seq<CellView>, members: Seq<usize>) -> bool {
    &&& members.len() <= usize::MAX
    &&& forall|k: int| 0 <= k < members.len() ==> #[trigger] members[k] < cells.len()
    &&& forall|j: int, k: int|
        0 <= j < k < members.len() ==> #[trigger] members[j] != #[trigger] members[k]
    &&& forall|c: int| 0 <= c < cells.len() ==> cell_ok(#[trigger] cells[c], members.len())
}

/// Whether some member of the group holds symbol `v`.
pub open spec fn holds(cells: Seq<CellView>, members: Seq<usize>, v: usize) -> bool {
    exists|k: int| 0 <= k < members.len() && (#[trigger] member(cells, members, k)).value == Some(v)
}

/// The symbols held by members of the group.
pub open spec fn taken(cells: Seq<CellView>, members: Seq<usize>) -> Seq<bool> {
    Seq::new(members.len(), |v: int| holds(cells, members, v as usize))
}

/// Whether two members of the group hold the same symbol.
pub open spec fn clash(cells: Seq<CellView>, members: Seq<usize>) -> bool {
    exists|j: int, k: int|
        0 <= j < k < members.len() && (#[trigger] member(cells, members, j)).value is Some
            && member(cells, members, j).value == (#[trigger] member(cells, members, k)).value
}

/// Whether every member of the group holds a symbol.
pub open spec fn complete(cells: Seq<CellView>, members: Seq<usize>) -> bool {
    forall|k: int| 0 <= k < members.len() ==> (#[trigger] member(cells, members, k)).value is Some
}

/// How many of the first `upto` members could still hold symbol `v`.
pub open spec fn host_count(cells: Seq<CellView>, members: Seq<usize>, v: usize, upto: int) -> nat
    decreases upto,
{
    if upto <= 0 {
        0
    } else {
        host_count(cells, members, v, upto - 1) + if member(cells, members, upto - 1).possibles[v as int] {
            1nat
        } else {
            0nat
        }
    }
}

/// Whether the member at position `k` holds no symbol and could hold `v`.
pub open spec fn candidate(cells: Seq<CellView>, members: Seq<usize>, v: usize, k: int) -> bool {
    let c = member(cells, members, k);
    c.value is None && c.possibles[v as int]
}

/// Whether the member at position `k` is bound to symbol `v`: it holds no
/// symbol yet, `v` is possible for it, and either nothing else is possible
/// for it or no other member of the group could hold `v`.
pub open spec fn determined(cells: Seq<CellView>, members: Seq<usize>, v: usize, k: int) -> bool {
    &&& candidate(cells, members, v, k)
    &&& (population(member(cells, members, k).possibles) == 1 || host_count(
        cells,
        members,
        v,
        members.len() as int,
    ) == 1)
}

/// The position of the member that gets symbol `v`: none when a member holds
/// `v` already, else the first member bound to `v`.
pub open spec fn pick(cells: Seq<CellView>, members: Seq<usize>, v: usize) -> Option<int> {
    if holds(cells, members, v) {
        None
    } else {
        first_such(|k: int| determined(cells, members, v, k), members.len() as int)
    }
}

/// The cells after symbol `v` was considered.
pub open spec fn commit(cells: Seq<CellView>, members: Seq<usize>, v: usize) -> Seq<CellView> {
    match pick(cells, members, v) {
        Some(k) => cells.update(members[k] as int, fixed(member(cells, members, k), v)),
        None => cells,
    }
}

/// The cells after the symbols below `upto` were considered in increasing
/// order, each on the cells that the one before it left.
pub open spec fn commit_all(cells: Seq<CellView>, members: Seq<usize>, upto: nat) -> Seq<CellView>
    decreases upto,
{
    if upto == 0 {
        cells
    } else {
        commit(commit_all(cells, members, (upto - 1) as nat), members, (upto - 1) as usize)
    }
}

/// Whether cell `c` is among the first `upto` members.
pub open spec fn listed(members: Seq<usize>, upto: int, c: int) -> bool {
    exists|k: int| 0 <= k < upto && k < members.len() && #[trigger] members[k] == c
}

/// The cells after `taken` was excluded from the first `limit` members.
pub open spec fn eliminate(
    cells: Seq<CellView>,
    members: Seq<usize>,
    taken: Seq<bool>,
    limit: int,
) -> Seq<CellView> {
    Seq::new(
        cells.len(),
        |c: int|
            if listed(members, limit, c) {
                pruned(cells[c], taken)
            } else {
                cells[c]
            },
    )
}

/// The groups with a member cell that differs between `before` and `after`.
pub open spec fn touched(before: Seq<CellView>, after: Seq<CellView>) -> Set<usize> {
    Set::new(
        |b: usize|
            exists|c: int|
                0 <= c < before.len() && #[trigger] before[c] != after[c] && before[c].blocks.contains(
                    b,
                ),
    )
}

/// What one evaluation of a group yields.
#[verifier::ext_equal]
pub struct Inference {
    /// The cells of the board afterwards.
    pub cells: Seq<CellView>,
    /// The symbols held by members of the group, as the group records them.
    pub assigned: Seq<bool>,
    /// The groups to evaluate again.
    pub marked: Set<usize>,
    /// Whether no contradiction was found.
    pub ok: bool,
}

/// One evaluation of the group `id` with the given members.
///
/// Two members with the same symbol are a contradiction, and nothing
/// changes. Otherwise the symbols are considered in increasing order and
/// each goes to the first member bound to it ([`commit_all`]). Then the
/// symbols held in the group are excluded from the members that hold none,
/// in order; the first member left with nothing is a contradiction, and the
/// members after it stay as they were. Without a contradiction, every group
/// with a changed cell is marked, except this group once all its members
/// hold a symbol.
pub open spec fn infer(
    cells: Seq<CellView>,
    members: Seq<usize>,
    id: usize,
    assigned: Seq<bool>,
) -> Inference {
    if clash(cells, members) {
        Inference { cells, assigned, marked: Set::empty(), ok: false }
    } else {
        let committed = commit_all(cells, members, members.len());
        let t = taken(committed, members);
        match first_such(|k: int| dead(member(committed, members, k), t), members.len() as int) {
            Some(k) => Inference {
                cells: eliminate(committed, members, t, k + 1),
                assigned: t,
                marked: Set::empty(),
                ok: false,
            },
            None => {
                let after = eliminate(committed, members, t, members.len() as int);
                Inference {
                    cells: after,
                    assigned: t,
                    marked: if complete(after, members) {
                        touched(cells, after).remove(id)
                    } else {
                        touched(cells, after)
                    },
                    ok: true,
                }
            },
        }
    }
}

} // verus!
