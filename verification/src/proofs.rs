//! Lemmas about the model.

use crate::model::{
    blank, cell_ok, commit, commit_all, determined, eliminate, first_such, fixed, group_ok, holds,
    infer, listed, member, only, pick, population, pruned, refines, taken, touched, within, CellView,
};
use vstd::prelude::*;

verus! {

/// What `first_such` returns: the least index at which the predicate holds.
pub proof fn lemma_first_such(p: spec_fn(int) -> bool, upto: int)
    ensures
        first_such(p, upto) matches Some(k) ==> 0 <= k < upto && p(k) && forall|j: int|
            0 <= j < k ==> !#[trigger] p(j),
        first_such(p, upto) is None ==> forall|j: int| 0 <= j < upto ==> !#[trigger] p(j),
    decreases upto,
{
    if upto > 0 {
        lemma_first_such(p, upto - 1);
    }
}

/// Predicates that agree below `upto` have the same first index.
pub proof fn lemma_first_such_agree(p: spec_fn(int) -> bool, q: spec_fn(int) -> bool, upto: int)
    requires
        forall|k: int| 0 <= k < upto ==> #[trigger] p(k) == q(k),
    ensures
        first_such(p, upto) == first_such(q, upto),
    decreases upto,
{
    if upto > 0 {
        lemma_first_such_agree(p, q, upto - 1);
    }
}

/// An index found below `upto` is the one found below any later bound.
pub proof fn lemma_first_such_from(p: spec_fn(int) -> bool, upto: int, later: int)
    requires
        upto <= later,
        first_such(p, upto) is Some,
    ensures
        first_such(p, later) == first_such(p, upto),
    decreases later - upto,
{
    if upto < later {
        lemma_first_such_from(p, upto, later - 1);
    }
}

/// A bit set holds at most as many bits as it is long.
pub proof fn lemma_population_bound(s: Seq<bool>)
    ensures
        population(s) <= s.len(),
    decreases s.len(),
{
    if s.len() > 0 {
        lemma_population_bound(s.drop_last());
    }
}

/// The empty bit set holds no bit.
pub proof fn lemma_population_blank(n: nat)
    ensures
        population(blank(n)) == 0,
    decreases n,
{
    if n > 0 {
        assert(blank(n).drop_last() == blank((n - 1) as nat));
        lemma_population_blank((n - 1) as nat);
    }
}

/// A bit set with one bit holds one bit.
pub proof fn lemma_population_only(n: nat, v: usize)
    requires
        v < n,
    ensures
        population(only(n, v)) == 1,
    decreases n,
{
    if v == n - 1 {
        assert(only(n, v).drop_last() == blank((n - 1) as nat));
        lemma_population_blank((n - 1) as nat);
    } else {
        assert(only(n, v).drop_last() == only((n - 1) as nat, v));
        lemma_population_only((n - 1) as nat, v);
    }
}

/// A subset holds no more bits than the set, and fewer unless it is the set.
pub proof fn lemma_population_within(a: Seq<bool>, b: Seq<bool>)
    requires
        within(a, b),
    ensures
        population(a) <= population(b),
        a != b ==> population(a) < population(b),
    decreases a.len(),
{
    if a.len() > 0 {
        lemma_population_within(a.drop_last(), b.drop_last());
        if a != b {
            if a.last() == b.last() {
                assert(a.drop_last() != b.drop_last()) by {
                    if a.drop_last() == b.drop_last() {
                        assert(a =~= a.drop_last().push(a.last()));
                        assert(b =~= b.drop_last().push(b.last()));
                    }
                }
            }
        }
    } else {
        assert(a =~= b);
    }
}

/// Writing a possible symbol into a cell without one refines the cell.
pub proof fn lemma_fixed_refines(c: CellView, v: usize)
    requires
        c.value is None,
        v < c.possibles.len(),
        c.possibles[v as int],
    ensures
        refines(c, fixed(c, v)),
        cell_ok(fixed(c, v), c.possibles.len()),
        fixed(c, v) != c,
{
    let n = c.possibles.len();
    lemma_population_only(n, v);
    lemma_population_within(only(n, v), c.possibles);
}

/// Excluding symbols from a cell refines the cell.
pub proof fn lemma_pruned_refines(c: CellView, taken: Seq<bool>)
    requires
        cell_ok(c, c.possibles.len()),
    ensures
        refines(c, pruned(c, taken)),
        cell_ok(pruned(c, taken), c.possibles.len()),
{
    lemma_population_within(pruned(c, taken).possibles, c.possibles);
}

/// Refinement composes, and a change in either step is a change overall.
pub proof fn lemma_refines_trans(a: CellView, b: CellView, c: CellView)
    requires
        refines(a, b),
        refines(b, c),
    ensures
        refines(a, c),
        b != a || c != b ==> c != a,
{
}

/// What considering one symbol does: the cells stay a sound board, each
/// cell is refined, and the symbol counts as held if a member got it.
pub proof fn lemma_commit(cells: Seq<CellView>, members: Seq<usize>, v: usize)
    requires
        group_ok(cells, members),
        v < members.len(),
    ensures
        commit(cells, members, v).len() == cells.len(),
        group_ok(commit(cells, members, v), members),
        forall|c: int| 0 <= c < cells.len() ==> refines(cells[c], #[trigger] commit(cells, members, v)[c]),
        taken(commit(cells, members, v), members) == if pick(cells, members, v) is Some {
            taken(cells, members).update(v as int, true)
        } else {
            taken(cells, members)
        },
{
    let out = commit(cells, members, v);
    match pick(cells, members, v) {
        Some(k) => {
            lemma_first_such(|k: int| determined(cells, members, v, k), members.len() as int);
            let idx = members[k] as int;
            lemma_fixed_refines(cells[idx], v);
            assert forall|w: int| 0 <= w < members.len() implies #[trigger] taken(out, members)[w] == (w
                == v || taken(cells, members)[w]) by {
                if w == v {
                    assert(member(out, members, k).value == Some(v));
                } else {
                    if holds(cells, members, w as usize) {
                        let j = choose|j: int|
                            0 <= j < members.len() && (#[trigger] member(cells, members, j)).value
                                == Some(w as usize);
                        assert(member(out, members, j).value == Some(w as usize));
                    }
                    if holds(out, members, w as usize) {
                        let j = choose|j: int|
                            0 <= j < members.len() && (#[trigger] member(out, members, j)).value
                                == Some(w as usize);
                        assert(member(cells, members, j).value == Some(w as usize));
                    }
                }
            }
        },
        None => {},
    }
}

/// What considering the symbols below `upto` does: the cells stay a sound
/// board and each cell is refined.
pub proof fn lemma_commit_all(cells: Seq<CellView>, members: Seq<usize>, upto: nat)
    requires
        group_ok(cells, members),
        upto <= members.len(),
    ensures
        commit_all(cells, members, upto).len() == cells.len(),
        group_ok(commit_all(cells, members, upto), members),
        forall|c: int|
            0 <= c < cells.len() ==> refines(cells[c], #[trigger] commit_all(cells, members, upto)[c]),
    decreases upto,
{
    if upto > 0 {
        let prev = commit_all(cells, members, (upto - 1) as nat);
        lemma_commit_all(cells, members, (upto - 1) as nat);
        lemma_commit(prev, members, (upto - 1) as usize);
        let out = commit_all(cells, members, upto);
        assert forall|c: int| 0 <= c < cells.len() implies refines(cells[c], #[trigger] out[c]) by {
            lemma_refines_trans(cells[c], prev[c], out[c]);
        }
    }
}

/// What excluding the held symbols from the first `limit` members does: the
/// cells stay a sound board and each cell is refined.
pub proof fn lemma_eliminate(cells: Seq<CellView>, members: Seq<usize>, t: Seq<bool>, limit: int)
    requires
        group_ok(cells, members),
    ensures
        eliminate(cells, members, t, limit).len() == cells.len(),
        group_ok(eliminate(cells, members, t, limit), members),
        forall|c: int|
            0 <= c < cells.len() ==> refines(
                cells[c],
                #[trigger] eliminate(cells, members, t, limit)[c],
            ),
{
    let out = eliminate(cells, members, t, limit);
    assert forall|c: int| 0 <= c < cells.len() implies refines(cells[c], #[trigger] out[c])
        && cell_ok(out[c], members.len()) by {
        lemma_pruned_refines(cells[c], t);
    }
}

/// Excluding from one member more changes that member's cell alone.
pub proof fn lemma_eliminate_step(cells: Seq<CellView>, members: Seq<usize>, t: Seq<bool>, k: int)
    requires
        group_ok(cells, members),
        0 <= k < members.len(),
    ensures
        eliminate(cells, members, t, k)[members[k] as int] == cells[members[k] as int],
        eliminate(cells, members, t, k + 1) == eliminate(cells, members, t, k).update(
            members[k] as int,
            pruned(cells[members[k] as int], t),
        ),
{
    let idx = members[k] as int;
    assert(!listed(members, k, idx));
    let next = eliminate(cells, members, t, k + 1);
    let step = eliminate(cells, members, t, k).update(idx, pruned(cells[idx], t));
    assert forall|c: int| 0 <= c < cells.len() implies next[c] == step[c] by {
        assert(listed(members, k + 1, c) == (c == idx || listed(members, k, c)));
    }
}

/// A cell that comes to differ from what it was adds its groups to the
/// touched ones.
pub proof fn lemma_touched_update(
    before: Seq<CellView>,
    now: Seq<CellView>,
    idx: int,
    x: CellView,
)
    requires
        before.len() == now.len(),
        0 <= idx < before.len(),
        x != before[idx],
    ensures
        touched(before, now.update(idx, x)) == touched(before, now).union(before[idx].blocks),
{
    let next = now.update(idx, x);
    assert forall|b: usize|
        touched(before, next).contains(b) == touched(before, now).union(
            before[idx].blocks,
        ).contains(b) by {
        if touched(before, next).contains(b) {
            let c = choose|c: int|
                0 <= c < before.len() && #[trigger] before[c] != next[c] && before[c].blocks.contains(
                    b,
                );
            assert(c == idx || before[c] != now[c]);
        }
        if touched(before, now).contains(b) {
            let c = choose|c: int|
                0 <= c < before.len() && #[trigger] before[c] != now[c] && before[c].blocks.contains(
                    b,
                );
            assert(before[c] != next[c]);
        }
        if before[idx].blocks.contains(b) {
            assert(before[idx] != next[idx]);
        }
    }
}

/// Where no cell differs, no group is touched.
pub proof fn lemma_touched_none(before: Seq<CellView>)
    ensures
        touched(before, before) == Set::<usize>::empty(),
{
}

/// Excluding from no member changes nothing.
pub proof fn lemma_eliminate_none(cells: Seq<CellView>, members: Seq<usize>, t: Seq<bool>)
    ensures
        eliminate(cells, members, t, 0) == cells,
{
}

/// What one evaluation of a group does: the cells stay a sound board, each
/// cell is refined, and only groups of changed cells are marked.
pub proof fn lemma_infer(cells: Seq<CellView>, members: Seq<usize>, id: usize, assigned: Seq<bool>)
    requires
        group_ok(cells, members),
        assigned.len() == members.len(),
    ensures
        infer(cells, members, id, assigned).cells.len() == cells.len(),
        group_ok(infer(cells, members, id, assigned).cells, members),
        forall|c: int|
            0 <= c < cells.len() ==> refines(
                cells[c],
                #[trigger] infer(cells, members, id, assigned).cells[c],
            ),
        infer(cells, members, id, assigned).assigned.len() == members.len(),
        infer(cells, members, id, assigned).marked.subset_of(
            touched(cells, infer(cells, members, id, assigned).cells),
        ),
{
    let out = infer(cells, members, id, assigned);
    let committed = commit_all(cells, members, members.len());
    let t = taken(committed, members);
    lemma_commit_all(cells, members, members.len());
    assert forall|c: int| 0 <= c < cells.len() implies refines(cells[c], #[trigger] out.cells[c]) by {
        if out.cells != cells {
            let limit = choose|limit: int| out.cells == eliminate(committed, members, t, limit);
            lemma_eliminate(committed, members, t, limit);
            lemma_refines_trans(cells[c], committed[c], out.cells[c]);
        }
    }
    if out.cells != cells {
        let limit = choose|limit: int| out.cells == eliminate(committed, members, t, limit);
        lemma_eliminate(committed, members, t, limit);
    }
}

} // verus!
