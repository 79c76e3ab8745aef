//! The discipline of the waiting groups: a group that does not wait has
//! nothing to deduce, so at a fixed point no group has.

use crate::coords::Coords;
use crate::grid::side;
use crate::model::{
    clash, commit, commit_all, complete, dead, determined, eliminate, first_such, full, group_ok,
    holds, host_count, infer, listed, member, pick, population, taken, touched, CellView,
};
use crate::proofs::{
    lemma_commit_all, lemma_eliminate, lemma_first_such, lemma_first_such_agree, lemma_infer,
};
use crate::puzzle::{
    evaluate, fits, fresh, lemma_evaluate, lemma_fresh_wf, lemma_group_ok, lemma_next_dirty,
    lemma_placed, next_dirty, placed, propagate, weight, SudokuView,
};
use vstd::prelude::*;

verus! {

/// Whether two boards have the same cells at the members of a group.
pub open spec fn agree(a: Seq<CellView>, b: Seq<CellView>, members: Seq<usize>) -> bool {
    &&& a.len() == b.len()
    &&& forall|k: int|
        #![trigger member(a, members, k)]
        #![trigger member(b, members, k)]
        0 <= k < members.len() ==> member(a, members, k) == member(b, members, k)
}

/// Whether evaluating the group finds no contradiction and changes no
/// cell.
pub open spec fn settled(cells: Seq<CellView>, members: Seq<usize>) -> bool {
    &&& infer(cells, members, 0, Seq::empty()).ok
    &&& infer(cells, members, 0, Seq::empty()).cells == cells
}

/// Whether every group that does not wait is settled.
pub open spec fn quiet(s: SudokuView) -> bool {
    forall|g: int|
        0 <= g < s.blocks.len() && !s.dirty.contains(g as usize) ==> settled(
            s.cells,
            (#[trigger] s.blocks[g]).members,
        )
}

/// What an evaluation makes of the cells, and whether it finds a
/// contradiction, does not depend on the group's index or on what it had
/// recorded.
pub proof fn lemma_infer_same(
    cells: Seq<CellView>,
    members: Seq<usize>,
    id: usize,
    assigned: Seq<bool>,
)
    ensures
        infer(cells, members, id, assigned).ok == infer(cells, members, 0, Seq::empty()).ok,
        infer(cells, members, id, assigned).cells == infer(cells, members, 0, Seq::empty()).cells,
{
}

/// The hosts of a symbol are the same on boards that agree on the group.
pub proof fn lemma_host_count_local(
    a: Seq<CellView>,
    b: Seq<CellView>,
    members: Seq<usize>,
    v: usize,
    upto: int,
)
    requires
        agree(a, b, members),
        upto <= members.len(),
    ensures
        host_count(a, members, v, upto) == host_count(b, members, v, upto),
    decreases upto,
{
    if upto > 0 {
        lemma_host_count_local(a, b, members, v, upto - 1);
        assert(member(a, members, upto - 1) == member(b, members, upto - 1));
    }
}

/// Considering a symbol does the same to the members on boards that agree
/// on the group, and leaves every other cell as it is.
pub proof fn lemma_commit_local(a: Seq<CellView>, b: Seq<CellView>, members: Seq<usize>, v: usize)
    requires
        group_ok(a, members),
        group_ok(b, members),
        agree(a, b, members),
        v < members.len(),
    ensures
        agree(commit(a, members, v), commit(b, members, v), members),
        forall|c: int|
            0 <= c < a.len() && !listed(members, members.len() as int, c) ==> #[trigger] commit(
                a,
                members,
                v,
            )[c] == a[c],
{
    let n = members.len() as int;
    let bound_a = |k: int| determined(a, members, v, k);
    let bound_b = |k: int| determined(b, members, v, k);
    lemma_host_count_local(a, b, members, v, n);
    assert forall|k: int| 0 <= k < n implies #[trigger] bound_a(k) == bound_b(k) by {
        assert(member(a, members, k) == member(b, members, k));
    }
    lemma_first_such_agree(bound_a, bound_b, n);
    lemma_first_such(bound_a, n);
    assert(holds(a, members, v) == holds(b, members, v)) by {
        if holds(a, members, v) {
            let k = choose|k: int|
                0 <= k < members.len() && (#[trigger] member(a, members, k)).value == Some(v);
            assert(member(b, members, k).value == Some(v));
        }
        if holds(b, members, v) {
            let k = choose|k: int|
                0 <= k < members.len() && (#[trigger] member(b, members, k)).value == Some(v);
            assert(member(a, members, k).value == Some(v));
        }
    }
    assert(pick(a, members, v) == pick(b, members, v));
    let out_a = commit(a, members, v);
    let out_b = commit(b, members, v);
    assert forall|k: int| 0 <= k < members.len() implies member(out_a, members, k) == member(
        out_b,
        members,
        k,
    ) by {
        assert(member(a, members, k) == member(b, members, k));
        if let Some(j) = pick(a, members, v) {
            assert(member(a, members, j) == member(b, members, j));
        }
    }
    assert forall|c: int|
        0 <= c < a.len() && !listed(members, members.len() as int, c) implies #[trigger] out_a[c]
        == a[c] by {
        if let Some(j) = pick(a, members, v) {
            assert(members[j] != c);
        }
    }
}

/// Considering the symbols below `upto` does the same to the members on
/// boards that agree on the group, and leaves every other cell as it is.
pub proof fn lemma_commit_all_local(
    a: Seq<CellView>,
    b: Seq<CellView>,
    members: Seq<usize>,
    upto: nat,
)
    requires
        group_ok(a, members),
        group_ok(b, members),
        agree(a, b, members),
        upto <= members.len(),
    ensures
        agree(commit_all(a, members, upto), commit_all(b, members, upto), members),
        forall|c: int|
            0 <= c < a.len() && !listed(members, members.len() as int, c) ==> #[trigger] commit_all(
                a,
                members,
                upto,
            )[c] == a[c],
    decreases upto,
{
    if upto > 0 {
        let before = (upto - 1) as nat;
        lemma_commit_all_local(a, b, members, before);
        lemma_commit_all(a, members, before);
        lemma_commit_all(b, members, before);
        lemma_commit_local(
            commit_all(a, members, before),
            commit_all(b, members, before),
            members,
            before as usize,
        );
    }
}

/// An evaluation does the same to the members on boards that agree on the
/// group, finds a contradiction on both or on neither, and leaves every
/// other cell as it is.
pub proof fn lemma_infer_local(a: Seq<CellView>, b: Seq<CellView>, members: Seq<usize>)
    requires
        group_ok(a, members),
        group_ok(b, members),
        agree(a, b, members),
    ensures
        infer(a, members, 0, Seq::empty()).ok == infer(b, members, 0, Seq::empty()).ok,
        agree(
            infer(a, members, 0, Seq::empty()).cells,
            infer(b, members, 0, Seq::empty()).cells,
            members,
        ),
        forall|c: int|
            0 <= c < a.len() && !listed(members, members.len() as int, c) ==> #[trigger] infer(
                a,
                members,
                0,
                Seq::empty(),
            ).cells[c] == a[c],
{
    let n = members.len();
    assert(clash(a, members) == clash(b, members)) by {
        if clash(a, members) {
            let (j, k) = choose|j: int, k: int|
                0 <= j < k < members.len() && (#[trigger] member(a, members, j)).value is Some
                    && member(a, members, j).value == (#[trigger] member(a, members, k)).value;
            assert(member(b, members, j) == member(a, members, j));
            assert(member(b, members, k) == member(a, members, k));
        }
        if clash(b, members) {
            let (j, k) = choose|j: int, k: int|
                0 <= j < k < members.len() && (#[trigger] member(b, members, j)).value is Some
                    && member(b, members, j).value == (#[trigger] member(b, members, k)).value;
            assert(member(a, members, j) == member(b, members, j));
            assert(member(a, members, k) == member(b, members, k));
        }
    }
    if !clash(a, members) {
        let ca = commit_all(a, members, n);
        let cb = commit_all(b, members, n);
        lemma_commit_all_local(a, b, members, n);
        lemma_commit_all(a, members, n);
        lemma_commit_all(b, members, n);
        let ta = taken(ca, members);
        let tb = taken(cb, members);
        assert forall|v: int| 0 <= v < n implies #[trigger] ta[v] == tb[v] by {
            if ta[v] {
                let k = choose|k: int|
                    0 <= k < members.len() && (#[trigger] member(ca, members, k)).value == Some(
                        v as usize,
                    );
                assert(member(cb, members, k).value == Some(v as usize));
            }
            if tb[v] {
                let k = choose|k: int|
                    0 <= k < members.len() && (#[trigger] member(cb, members, k)).value == Some(
                        v as usize,
                    );
                assert(member(ca, members, k).value == Some(v as usize));
            }
        }
        assert(ta =~= tb);
        let doomed_a = |k: int| dead(member(ca, members, k), ta);
        let doomed_b = |k: int| dead(member(cb, members, k), tb);
        assert forall|k: int| 0 <= k < n implies #[trigger] doomed_a(k) == doomed_b(k) by {
            assert(member(ca, members, k) == member(cb, members, k));
        }
        lemma_first_such_agree(doomed_a, doomed_b, n as int);
        let limit = match first_such(doomed_a, n as int) {
            Some(k) => k + 1,
            None => n as int,
        };
        let out_a = eliminate(ca, members, ta, limit);
        let out_b = eliminate(cb, members, tb, limit);
        assert forall|k: int| 0 <= k < members.len() implies member(out_a, members, k) == member(
            out_b,
            members,
            k,
        ) by {
            assert(member(ca, members, k) == member(cb, members, k));
        }
        assert forall|c: int|
            0 <= c < a.len() && !listed(members, members.len() as int, c) implies #[trigger] out_a[c]
            == a[c] by {
            assert(ca[c] == a[c]);
            assert(!listed(members, limit, c)) by {
                lemma_first_such(doomed_a, n as int);
                if listed(members, limit, c) {
                    let k = choose|k: int|
                        0 <= k < limit && k < members.len() && #[trigger] members[k] == c;
                    assert(listed(members, members.len() as int, c));
                }
            }
        }
    }
}

/// A group that is settled on one board is settled on every board that
/// agrees with it on the group.
pub proof fn lemma_settled_local(a: Seq<CellView>, b: Seq<CellView>, members: Seq<usize>)
    requires
        group_ok(a, members),
        group_ok(b, members),
        agree(a, b, members),
        settled(a, members),
    ensures
        settled(b, members),
{
    lemma_infer_local(a, b, members);
    lemma_infer_local(b, a, members);
    lemma_infer(b, members, 0, Seq::new(members.len(), |i: int| false));
    lemma_infer_same(b, members, 0, Seq::new(members.len(), |i: int| false));
    let out = infer(b, members, 0, Seq::empty()).cells;
    assert forall|c: int| 0 <= c < b.len() implies out[c] == b[c] by {
        if listed(members, members.len() as int, c) {
            let k = choose|k: int|
                0 <= k < members.len() && k < members.len() && #[trigger] members[k] == c;
            assert(member(out, members, k) == member(
                infer(a, members, 0, Seq::empty()).cells,
                members,
                k,
            ));
            assert(member(a, members, k) == member(b, members, k));
        }
    }
    assert(out =~= b);
}

/// Considering a symbol makes no two members hold the same symbol.
pub proof fn lemma_commit_no_clash(cells: Seq<CellView>, members: Seq<usize>, v: usize)
    requires
        group_ok(cells, members),
        v < members.len(),
        !clash(cells, members),
    ensures
        !clash(commit(cells, members, v), members),
{
    let out = commit(cells, members, v);
    if clash(out, members) {
        let (i, j) = choose|i: int, j: int|
            0 <= i < j < members.len() && (#[trigger] member(out, members, i)).value is Some
                && member(out, members, i).value == (#[trigger] member(out, members, j)).value;
        match pick(cells, members, v) {
            Some(k) => {
                lemma_first_such(|k: int| determined(cells, members, v, k), members.len() as int);
                assert(determined(cells, members, v, k));
                if i != k {
                    assert(members[i] != members[k]);
                    assert(member(out, members, i) == member(cells, members, i));
                }
                if j != k {
                    assert(members[j] != members[k]);
                    assert(member(out, members, j) == member(cells, members, j));
                }
                if i == k {
                    assert(member(cells, members, j).value == Some(v));
                } else if j == k {
                    assert(member(cells, members, i).value == Some(v));
                } else {
                    assert(member(cells, members, i).value == member(cells, members, j).value);
                }
            },
            None => {},
        }
    }
}

/// Considering the symbols below `upto` makes no two members hold the same
/// symbol.
pub proof fn lemma_commit_all_no_clash(cells: Seq<CellView>, members: Seq<usize>, upto: nat)
    requires
        group_ok(cells, members),
        upto <= members.len(),
        !clash(cells, members),
    ensures
        !clash(commit_all(cells, members, upto), members),
    decreases upto,
{
    if upto > 0 {
        let before = (upto - 1) as nat;
        lemma_commit_all_no_clash(cells, members, before);
        lemma_commit_all(cells, members, before);
        lemma_commit_no_clash(commit_all(cells, members, before), members, before as usize);
    }
}

/// A group whose members all hold a symbol, no two the same, is settled.
pub proof fn lemma_complete_settled(cells: Seq<CellView>, members: Seq<usize>)
    requires
        group_ok(cells, members),
        complete(cells, members),
        !clash(cells, members),
    ensures
        settled(cells, members),
{
    let n = members.len();
    lemma_complete_commit_all(cells, members, n);
    let t = taken(cells, members);
    let doomed = |k: int| dead(member(cells, members, k), t);
    lemma_first_such(doomed, n as int);
    assert forall|k: int| 0 <= k < n implies !#[trigger] doomed(k) by {
        assert(member(cells, members, k).value is Some);
    }
    let out = eliminate(cells, members, t, n as int);
    assert forall|c: int| 0 <= c < cells.len() implies out[c] == cells[c] by {
        if listed(members, n as int, c) {
            let k = choose|k: int| 0 <= k < n && k < members.len() && #[trigger] members[k] == c;
            assert(member(cells, members, k).value is Some);
        }
    }
    assert(out =~= cells);
}

/// Where every member holds a symbol, considering symbols changes nothing.
pub proof fn lemma_complete_commit_all(cells: Seq<CellView>, members: Seq<usize>, upto: nat)
    requires
        complete(cells, members),
        upto <= members.len(),
    ensures
        commit_all(cells, members, upto) == cells,
    decreases upto,
{
    if upto > 0 {
        lemma_complete_commit_all(cells, members, (upto - 1) as nat);
        let v = (upto - 1) as usize;
        let bound = |k: int| determined(cells, members, v, k);
        lemma_first_such(bound, members.len() as int);
        if let Some(k) = first_such(bound, members.len() as int) {
            assert(member(cells, members, k).value is Some);
        }
    }
}

/// After an evaluation without a contradiction no two members hold the
/// same symbol.
pub proof fn lemma_infer_no_clash(cells: Seq<CellView>, members: Seq<usize>)
    requires
        group_ok(cells, members),
        infer(cells, members, 0, Seq::empty()).ok,
    ensures
        !clash(infer(cells, members, 0, Seq::empty()).cells, members),
{
    let n = members.len();
    let committed = commit_all(cells, members, n);
    lemma_commit_all_no_clash(cells, members, n);
    lemma_commit_all(cells, members, n);
    let t = taken(committed, members);
    let out = eliminate(committed, members, t, n as int);
    lemma_eliminate(committed, members, t, n as int);
    if clash(out, members) {
        let (i, j) = choose|i: int, j: int|
            0 <= i < j < members.len() && (#[trigger] member(out, members, i)).value is Some
                && member(out, members, i).value == (#[trigger] member(out, members, j)).value;
        assert(member(committed, members, i).value == member(out, members, i).value);
        assert(member(committed, members, j).value == member(out, members, j).value);
    }
}

/// Evaluating the first waiting group of a quiet board without a
/// contradiction leaves a quiet board.
pub proof fn lemma_evaluate_quiet(s: SudokuView, g: int)
    requires
        s.wf(),
        quiet(s),
        0 <= g < s.blocks.len(),
        evaluate(s, g).1,
    ensures
        quiet(evaluate(s, g).0),
{
    let t = evaluate(s, g).0;
    let block = s.blocks[g];
    let out = infer(s.cells, block.members, block.id, block.assigned);
    lemma_evaluate(s, g);
    lemma_group_ok(s, g);
    lemma_infer_same(s.cells, block.members, block.id, block.assigned);
    lemma_infer(s.cells, block.members, block.id, block.assigned);
    assert forall|h: int| 0 <= h < t.blocks.len() && !t.dirty.contains(h as usize) implies settled(
        t.cells,
        (#[trigger] t.blocks[h]).members,
    ) by {
        let members = s.blocks[h].members;
        assert(t.blocks[h].members == members);
        lemma_group_ok(s, h);
        lemma_group_ok(t, h);
        assert(s.block_wf(h));
        if h != g || !complete(out.cells, block.members) {
            assert(!touched(s.cells, t.cells).contains(h as usize));
            assert forall|k: int| 0 <= k < members.len() implies member(s.cells, members, k)
                == member(t.cells, members, k) by {
                let c = members[k] as int;
                assert(s.cells[c].blocks.contains(h as usize));
            }
            if h != g {
                assert(!s.dirty.contains(h as usize)) by {
                    assert(s.dirty.remove(g as usize).contains(h as usize) ==> t.dirty.contains(
                        h as usize,
                    ));
                }
                assert(settled(s.cells, s.blocks[h].members));
                lemma_settled_local(s.cells, t.cells, members);
            } else {
                lemma_infer_local(s.cells, s.cells, members);
                assert forall|c: int| 0 <= c < s.cells.len() implies t.cells[c] == s.cells[c] by {
                    if listed(members, members.len() as int, c) {
                        let k = choose|k: int|
                            0 <= k < members.len() && k < members.len() && #[trigger] members[k]
                                == c;
                        assert(member(s.cells, members, k) == member(t.cells, members, k));
                    }
                }
                assert(t.cells =~= s.cells);
            }
        } else {
            lemma_infer_no_clash(s.cells, members);
            lemma_complete_settled(t.cells, members);
        }
    }
}

/// At a fixed point that propagation reaches from a quiet board, no group
/// has anything to deduce: evaluating any group finds no contradiction and
/// changes no cell.
pub proof fn law_fixed_point_is_settled(s: SudokuView)
    requires
        s.wf(),
        quiet(s),
        propagate(s).1,
    ensures
        quiet(propagate(s).0),
        forall|g: int|
            0 <= g < s.blocks.len() ==> settled(
                propagate(s).0.cells,
                (#[trigger] propagate(s).0.blocks[g]).members,
            ),
    decreases weight(s.cells), s.dirty.len(),
{
    lemma_next_dirty(s);
    match next_dirty(s) {
        None => {},
        Some(g) => {
            lemma_evaluate(s, g);
            lemma_evaluate_quiet(s, g);
            law_fixed_point_is_settled(evaluate(s, g).0);
        },
    }
}

/// An assignment leaves a quiet board quiet: the groups of the cell wait,
/// and the other groups see no change.
pub proof fn law_assign_keeps_quiet(s: SudokuView, pos: Coords, value: usize)
    requires
        s.wf(),
        quiet(s),
        s.on_grid(pos),
        value < s.size(),
    ensures
        quiet(placed(s, pos, value)),
{
    let t = placed(s, pos, value);
    lemma_placed(s, pos, value);
    assert forall|h: int| 0 <= h < t.blocks.len() && !t.dirty.contains(h as usize) implies settled(
        t.cells,
        (#[trigger] t.blocks[h]).members,
    ) by {
        let members = s.blocks[h].members;
        lemma_group_ok(s, h);
        lemma_group_ok(t, h);
        assert(s.block_wf(h));
        assert forall|k: int| 0 <= k < members.len() implies member(s.cells, members, k) == member(
            t.cells,
            members,
            k,
        ) by {
            let c = members[k] as int;
            assert(s.cells[c].blocks.contains(h as usize));
        }
        assert(settled(s.cells, s.blocks[h].members));
        lemma_settled_local(s.cells, t.cells, members);
    }
}

/// The full set holds every bit.
pub proof fn lemma_population_full(n: nat)
    ensures
        population(full(n)) == n,
    decreases n,
{
    if n > 0 {
        assert(full(n).drop_last() == full((n - 1) as nat));
        lemma_population_full((n - 1) as nat);
    }
}

/// Where every symbol is possible for every member, each of the first
/// `upto` members is a host of each symbol.
pub proof fn lemma_host_count_full(cells: Seq<CellView>, members: Seq<usize>, v: usize, upto: int)
    requires
        v < members.len(),
        0 <= upto <= members.len(),
        forall|k: int|
            0 <= k < members.len() ==> (#[trigger] member(cells, members, k)).possibles == full(
                members.len(),
            ),
    ensures
        host_count(cells, members, v, upto) == upto,
    decreases upto,
{
    if upto > 0 {
        lemma_host_count_full(cells, members, v, upto - 1);
        assert(member(cells, members, upto - 1).possibles == full(members.len()));
    }
}

/// Where no member holds a symbol and every symbol is possible for every
/// member, considering symbols changes nothing, if there are two symbols or
/// more.
pub proof fn lemma_untouched_commit_all(cells: Seq<CellView>, members: Seq<usize>, upto: nat)
    requires
        2 <= members.len(),
        upto <= members.len(),
        forall|k: int|
            0 <= k < members.len() ==> (#[trigger] member(cells, members, k)).possibles == full(
                members.len(),
            ),
    ensures
        commit_all(cells, members, upto) == cells,
    decreases upto,
{
    if upto > 0 {
        lemma_untouched_commit_all(cells, members, (upto - 1) as nat);
        let v = (upto - 1) as usize;
        let n = members.len();
        let bound = |k: int| determined(cells, members, v, k);
        lemma_first_such(bound, n as int);
        lemma_host_count_full(cells, members, v, n as int);
        lemma_population_full(n);
        if let Some(k) = first_such(bound, n as int) {
            assert(member(cells, members, k).possibles == full(n));
        }
    }
}

/// A group in which no member holds a symbol and every symbol is possible
/// for every member is settled, if there are two symbols or more.
pub proof fn lemma_untouched_settled(cells: Seq<CellView>, members: Seq<usize>)
    requires
        group_ok(cells, members),
        2 <= members.len(),
        forall|k: int|
            0 <= k < members.len() ==> (#[trigger] member(cells, members, k)).value is None
                && member(cells, members, k).possibles == full(members.len()),
    ensures
        settled(cells, members),
{
    let n = members.len();
    lemma_untouched_commit_all(cells, members, n);
    let t = taken(cells, members);
    assert forall|v: int| 0 <= v < n implies !#[trigger] t[v] by {
        if holds(cells, members, v as usize) {
            let k = choose|k: int|
                0 <= k < members.len() && (#[trigger] member(cells, members, k)).value == Some(
                    v as usize,
                );
            assert(member(cells, members, k).value is None);
        }
    }
    let doomed = |k: int| dead(member(cells, members, k), t);
    lemma_first_such(doomed, n as int);
    assert forall|k: int| 0 <= k < n implies !#[trigger] doomed(k) by {
        let c = member(cells, members, k);
        assert(c.possibles == full(n));
        assert(c.possibles[0] && !t[0]);
    }
    let out = eliminate(cells, members, t, n as int);
    assert forall|c: int| 0 <= c < cells.len() implies out[c] == cells[c] by {
        if listed(members, n as int, c) {
            let k = choose|k: int| 0 <= k < n && k < members.len() && #[trigger] members[k] == c;
            assert(member(cells, members, k).possibles == full(n));
            assert(out[c].possibles =~= cells[c].possibles);
        }
    }
    assert(out =~= cells);
}

/// A new board is quiet, unless its degree is 1: on the board of one cell
/// the only symbol is bound to the cell from the start, and no group waits
/// to find that.
pub proof fn law_new_is_quiet(degree: usize)
    requires
        fits(degree),
        degree != 1,
    ensures
        quiet(fresh(degree)),
{
    let d = degree as int;
    let s = fresh(degree);
    lemma_fresh_wf(degree);
    assert(side(d) == 0 || side(d) >= 2) by (nonlinear_arith)
        requires
            d != 1,
            0 <= d,
            side(d) == d * d,
    ;
    assert forall|g: int| 0 <= g < s.blocks.len() implies settled(
        s.cells,
        (#[trigger] s.blocks[g]).members,
    ) by {
        lemma_group_ok(s, g);
        lemma_untouched_settled(s.cells, s.blocks[g].members);
    }
}

} // verus!
