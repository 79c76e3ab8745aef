//! One group of cells: a row, a column or a box.

use crate::bitset::{
    bits, bitvec_clone, bitvec_from_elem, bitvec_get, bitvec_negate, bitvec_none, bitvec_set,
    count_ones,
};
use crate::cell::{merge, views, Cell};
use crate::model::{
    blank, candidate, clash, commit_all, complete, dead, determined, eliminate, first_such, fixed,
    group_ok, holds, host_count, infer, joined, listed, member, population, pruned, refines, taken,
    touched, BlockView, Inference,
};
use crate::proofs::{
    lemma_commit, lemma_commit_all, lemma_eliminate, lemma_eliminate_none, lemma_eliminate_step,
    lemma_first_such, lemma_first_such_agree, lemma_first_such_from, lemma_pruned_refines,
    lemma_refines_trans, lemma_touched_none, lemma_touched_update,
};
use bit_vec::BitVec;
use std::collections::BTreeSet;
use vstd::prelude::*;

verus! {

/// The failure of an evaluation: the symbols on the board cannot all stay.
#[derive(Clone, Copy, Debug, PartialEq, Eq, Structural)]
pub struct Contradiction;

/// A group: its index on the board, the indices of its member cells, and
/// the symbols it found among them when it was last evaluated.
pub struct Block {
    id: usize,
    cells: Vec<usize>,
    assigned_values: BitVec,
    degree: usize,
}

impl View for Block {
    type V = BlockView;

    closed spec fn view(&self) -> BlockView {
        BlockView {
            id: self.id,
            members: self.cells@,
            assigned: bits(self.assigned_values),
            degree: self.degree,
        }
    }
}

impl Block {
    /// The invariant of a group of a puzzle of degree `d`: it has `d * d`
    /// members and records as many symbols.
    pub open spec fn wf(&self) -> bool {
        &&& self@.members.len() == self@.degree * self@.degree
        &&& self@.assigned.len() == self@.members.len()
    }

    /// What evaluating the group on the given cells yields.
    pub open spec fn outcome(&self, cells: Seq<Cell>) -> Inference {
        infer(views(cells), self@.members, self@.id, self@.assigned)
    }

    /// A group with index `id` over the cells listed in `members`, which
    /// are indices into `cells`. Each listed cell records the group as one
    /// of its own.
    pub fn create(id: usize, members: Vec<usize>, degree: usize, cells: &mut Vec<Cell>) -> (block:
        Block)
        requires
            members@.len() == degree * degree,
            forall|k: int| 0 <= k < members@.len() ==> members@[k] < old(cells)@.len(),
        ensures
            block@ == (BlockView {
                id,
                members: members@,
                assigned: blank(members@.len()),
                degree,
            }),
            block.wf(),
            final(cells)@.len() == old(cells)@.len(),
            forall|c: int|
                0 <= c < old(cells)@.len() ==> (#[trigger] final(cells)@[c])@ == joined(
                    old(cells)@[c]@,
                    id,
                    listed(members@, members@.len() as int, c),
                ),
    {
        let num = members.len();
        let mut k: usize = 0;
        while k < num
            invariant
                num == members@.len(),
                k <= num,
                cells@.len() == old(cells)@.len(),
                forall|j: int| 0 <= j < members@.len() ==> members@[j] < cells@.len(),
                forall|c: int|
                    0 <= c < cells@.len() ==> (#[trigger] cells@[c])@ == joined(
                        old(cells)@[c]@,
                        id,
                        listed(members@, k as int, c),
                    ),
            decreases num - k,
        {
            let idx = members[k];
            cells[idx].add_block(id);
            proof {
                assert forall|c: int| 0 <= c < cells@.len() implies (#[trigger] cells@[c])@ == joined(
                    old(cells)@[c]@,
                    id,
                    listed(members@, k + 1, c),
                ) by {
                    assert(listed(members@, k + 1, c) == (c == idx || listed(members@, k as int, c)));
                }
            }
            k = k + 1;
        }
        Block { id, cells: members, assigned_values: bitvec_from_elem(num, false), degree }
    }

    /// The group's index on the board.
    pub fn id(&self) -> (id: usize)
        ensures
            id == self@.id,
    {
        self.id
    }

    /// The indices of the member cells, in order.
    pub fn members(&self) -> (members: &Vec<usize>)
        ensures
            members@ == self@.members,
    {
        &self.cells
    }

    /// The symbols found among the members when the group was last
    /// evaluated.
    pub fn assigned_values(&self) -> (set: &BitVec)
        ensures
            bits(*set) == self@.assigned,
    {
        &self.assigned_values
    }

    /// The degree of the puzzle.
    pub fn degree(&self) -> (degree: usize)
        ensures
            degree == self@.degree,
    {
        self.degree
    }

    /// The symbols held by the members, or a contradiction when two members
    /// hold the same one.
    fn held(&self, cells: &Vec<Cell>) -> (r: Result<BitVec, Contradiction>)
        requires
            group_ok(views(cells@), self@.members),
        ensures
            r is Err <==> clash(views(cells@), self@.members),
            r matches Ok(t) ==> bits(t) == taken(views(cells@), self@.members),
    {
        let ghost all = views(cells@);
        let ghost members = self@.members;
        let num = self.cells.len();
        let mut found = bitvec_from_elem(num, false);
        let mut k: usize = 0;
        while k < num
            invariant
                num == members.len(),
                members == self@.members,
                all == views(cells@),
                group_ok(all, members),
                k <= num,
                bits(found).len() == num,
                forall|v: int|
                    0 <= v < num ==> (#[trigger] bits(found)[v] <==> exists|j: int|
                        0 <= j < k && (#[trigger] member(all, members, j)).value == Some(v as usize)),
                forall|i: int, j: int|
                    0 <= i < j < k ==> !((#[trigger] member(all, members, i)).value is Some
                        && member(all, members, i).value == (#[trigger] member(
                        all,
                        members,
                        j,
                    )).value),
            decreases num - k,
        {
            let idx = self.cells[k];
            match cells[idx].value() {
                Some(v) => {
                    match bitvec_get(&found, v) {
                        Some(true) => {
                            proof {
                                let j = choose|j: int|
                                    0 <= j < k && (#[trigger] member(all, members, j)).value == Some(
                                        v,
                                    );
                                assert(member(all, members, j).value == member(
                                    all,
                                    members,
                                    k as int,
                                ).value);
                            }
                            return Err(Contradiction);
                        },
                        _ => {},
                    }
                    let ghost prev = bits(found);
                    bitvec_set(&mut found, v, true);
                    proof {
                        assert forall|w: int| 0 <= w < num implies (#[trigger] bits(found)[w] <==> exists|
                            j: int,
                        |
                            0 <= j < k + 1 && (#[trigger] member(all, members, j)).value == Some(
                                w as usize,
                            )) by {
                            if w == v {
                                assert(member(all, members, k as int).value == Some(v));
                            } else if prev[w] {
                                let j = choose|j: int|
                                    0 <= j < k && (#[trigger] member(all, members, j)).value == Some(
                                        w as usize,
                                    );
                                assert(member(all, members, j).value == Some(w as usize));
                            }
                        }
                    }
                },
                None => {},
            }
            k = k + 1;
        }
        Ok(found)
    }

    /// The position of the first member bound to symbol `v`, if there is
    /// one.
    fn bound_member(&self, cells: &Vec<Cell>, v: usize) -> (r: Option<usize>)
        requires
            group_ok(views(cells@), self@.members),
            v < self@.members.len(),
        ensures
            match r {
                Some(k) => first_such(
                    |k: int| determined(views(cells@), self@.members, v, k),
                    self@.members.len() as int,
                ) == Some(k as int),
                None => first_such(
                    |k: int| determined(views(cells@), self@.members, v, k),
                    self@.members.len() as int,
                ) is None,
            },
    {
        let ghost all = views(cells@);
        let ghost members = self@.members;
        let ghost open = |k: int| candidate(all, members, v, k);
        let ghost naked = |k: int|
            candidate(all, members, v, k) && population(member(all, members, k).possibles) == 1;
        let num = self.cells.len();
        let mut hosts: usize = 0;
        let mut first_open: Option<usize> = None;
        let mut first_naked: Option<usize> = None;
        let mut k: usize = 0;
        while k < num
            invariant
                num == members.len(),
                members == self@.members,
                all == views(cells@),
                group_ok(all, members),
                v < num,
                k <= num,
                hosts == host_count(all, members, v, k as int),
                hosts <= k,
                open == |k: int| candidate(all, members, v, k),
                naked == |k: int|
                    candidate(all, members, v, k) && population(member(all, members, k).possibles)
                        == 1,
                match first_open {
                    Some(j) => first_such(open, k as int) == Some(j as int),
                    None => first_such(open, k as int) is None,
                },
                match first_naked {
                    Some(j) => first_such(naked, k as int) == Some(j as int),
                    None => first_such(naked, k as int) is None,
                },
            decreases num - k,
        {
            let idx = self.cells[k];
            let cell = &cells[idx];
            match bitvec_get(cell.possibles(), v) {
                Some(true) => {
                    hosts = hosts + 1;
                    if cell.value().is_none() {
                        if first_open.is_none() {
                            first_open = Some(k);
                        }
                        if first_naked.is_none() && count_ones(cell.possibles()) == 1 {
                            first_naked = Some(k);
                        }
                    }
                },
                _ => {},
            }
            k = k + 1;
        }
        let ghost bound = |k: int| determined(all, members, v, k);
        if hosts == 1 {
            proof {
                lemma_first_such_agree(bound, open, num as int);
            }
            first_open
        } else {
            proof {
                lemma_first_such_agree(bound, naked, num as int);
            }
            first_naked
        }
    }

    /// Considers the symbols in increasing order and writes each into the
    /// first member bound to it. `found` holds the symbols held in the
    /// group and `marked` the groups of the cells that changed, before and
    /// after.
    fn commit_singles(
        &self,
        cells: &mut Vec<Cell>,
        found: &mut BitVec,
        marked: &mut BTreeSet<usize>,
    )
        requires
            group_ok(views(old(cells)@), self@.members),
            bits(*old(found)) == taken(views(old(cells)@), self@.members),
            old(marked)@ == Set::<usize>::empty(),
        ensures
            views(final(cells)@) == commit_all(
                views(old(cells)@),
                self@.members,
                self@.members.len(),
            ),
            bits(*final(found)) == taken(views(final(cells)@), self@.members),
            final(marked)@ == touched(views(old(cells)@), views(final(cells)@)),
    {
        let ghost before = views(cells@);
        let ghost members = self@.members;
        let num = self.cells.len();
        let mut v: usize = 0;
        proof {
            lemma_touched_none(before);
        }
        while v < num
            invariant
                num == members.len(),
                members == self@.members,
                before == views(old(cells)@),
                group_ok(before, members),
                v <= num,
                views(cells@) == commit_all(before, members, v as nat),
                bits(*found) == taken(views(cells@), members),
                marked@ == touched(before, views(cells@)),
            decreases num - v,
        {
            let ghost now = views(cells@);
            proof {
                lemma_commit_all(before, members, v as nat);
                lemma_commit(now, members, v);
            }
            match bitvec_get(found, v) {
                Some(true) => {},
                _ => {
                    match self.bound_member(cells, v) {
                        Some(k) => {
                            proof {
                                lemma_first_such(
                                    |k: int| determined(now, members, v, k),
                                    num as int,
                                );
                                assert(determined(now, members, v, k as int));
                            }
                            let idx = self.cells[k];
                            assert(member(now, members, k as int) == cells@[idx as int]@);
                            let groups = cells[idx].assign(v);
                            merge(marked, &groups);
                            bitvec_set(found, v, true);
                            proof {
                                let x = fixed(now[idx as int], v);
                                lemma_touched_update(before, now, idx as int, x);
                            }
                        },
                        None => {},
                    }
                },
            }
            v = v + 1;
        }
    }

    /// Evaluates the group on the cells of the board.
    ///
    /// Two members with the same symbol are a contradiction, and nothing
    /// changes. Otherwise each symbol that no member holds goes to the first
    /// member bound to it: a member without a symbol for which nothing else
    /// is possible, or which is the only member that could hold the symbol.
    /// The symbols are taken in increasing order, each on the cells as the
    /// one before left them. The symbols then held in the group are recorded
    /// and excluded from the members without a symbol, in order; a member
    /// left with nothing is a contradiction, and the members after it stay
    /// as they were.
    ///
    /// Without a contradiction the result holds the groups to evaluate
    /// again: every group with a cell that changed, except this group once
    /// all its members hold a symbol.
    pub fn inference(&mut self, cells: &mut Vec<Cell>) -> (r: Result<BTreeSet<usize>, Contradiction>)
        requires
            old(self).wf(),
            group_ok(views(old(cells)@), old(self)@.members),
        ensures
            views(final(cells)@) == old(self).outcome(old(cells)@).cells,
            final(self)@ == (BlockView {
                assigned: old(self).outcome(old(cells)@).assigned,
                ..old(self)@
            }),
            r is Ok <==> old(self).outcome(old(cells)@).ok,
            r matches Ok(marked) ==> marked@ == old(self).outcome(old(cells)@).marked,
            final(self).wf(),
            group_ok(views(final(cells)@), final(self)@.members),
    {
        broadcast use vstd::std_specs::btree::group_btree_axioms;

        let ghost before = views(cells@);
        let ghost members = self@.members;
        let num = self.cells.len();
        let mut found = match self.held(cells) {
            Ok(found) => found,
            Err(e) => {
                return Err(e);
            },
        };
        let mut marked: BTreeSet<usize> = BTreeSet::new();
        self.commit_singles(cells, &mut found, &mut marked);
        self.assigned_values = bitvec_clone(&found);
        let ghost committed = views(cells@);
        let ghost t = bits(found);
        let ghost doomed = |k: int| dead(member(committed, members, k), t);
        proof {
            lemma_commit_all(before, members, num as nat);
            lemma_eliminate_none(committed, members, t);
        }
        let mut allowed = found;
        bitvec_negate(&mut allowed);
        let mut k: usize = 0;
        while k < num
            invariant
                num == members.len(),
                members == self@.members,
                self.cells@ == members,
                before == views(old(cells)@),
                old(self).wf(),
                self@ == (BlockView { assigned: t, ..old(self)@ }),
                !clash(before, members),
                committed == commit_all(before, members, num as nat),
                group_ok(before, members),
                group_ok(committed, members),
                before.len() == committed.len(),
                forall|c: int| 0 <= c < before.len() ==> refines(before[c], #[trigger] committed[c]),
                t == taken(committed, members),
                bits(allowed) == Seq::new(t.len(), |i: int| !t[i]),
                doomed == |k: int| dead(member(committed, members, k), t),
                k <= num,
                views(cells@) == eliminate(committed, members, t, k as int),
                first_such(doomed, k as int) is None,
                marked@ == touched(before, views(cells@)),
            decreases num - k,
        {
            let idx = self.cells[k];
            let ghost now = views(cells@);
            proof {
                lemma_eliminate_step(committed, members, t, k as int);
                lemma_eliminate(committed, members, t, k as int);
            }
            let changed = cells[idx].retain(&allowed);
            let ghost x = pruned(committed[idx as int], t);
            proof {
                assert(cells@[idx as int]@.possibles =~= x.possibles);
                assert(views(cells@) =~= now.update(idx as int, x));
            }
            if cells[idx].value().is_none() && bitvec_none(cells[idx].possibles()) {
                proof {
                    assert forall|i: int|
                        0 <= i < committed[idx as int].possibles.len() implies !(committed[idx as int].possibles[i]
                        && !t[i]) by {
                        assert(!x.possibles[i]);
                    }
                    assert(doomed(k as int));
                    lemma_first_such_from(doomed, k + 1, num as int);
                    lemma_eliminate(committed, members, t, k + 1);
                }
                return Err(Contradiction);
            }
            if changed {
                merge(&mut marked, cells[idx].blocks());
                proof {
                    lemma_pruned_refines(committed[idx as int], t);
                    lemma_refines_trans(before[idx as int], committed[idx as int], x);
                    lemma_touched_update(before, now, idx as int, x);
                }
            }
            proof {
                assert(!doomed(k as int)) by {
                    if committed[idx as int].value is None {
                        let i = choose|i: int| 0 <= i < x.possibles.len() && x.possibles[i];
                        assert(committed[idx as int].possibles[i] && !t[i]);
                    }
                }
            }
            k = k + 1;
        }
        proof {
            lemma_eliminate(committed, members, t, num as int);
        }
        if self.is_complete(cells) {
            marked.remove(&self.id);
        }
        Ok(marked)
    }

    /// Whether every member holds a symbol.
    fn is_complete(&self, cells: &Vec<Cell>) -> (r: bool)
        requires
            group_ok(views(cells@), self@.members),
        ensures
            r == complete(views(cells@), self@.members),
    {
        let ghost all = views(cells@);
        let ghost members = self@.members;
        let num = self.cells.len();
        let mut k: usize = 0;
        while k < num
            invariant
                num == members.len(),
                members == self@.members,
                all == views(cells@),
                group_ok(all, members),
                k <= num,
                forall|j: int| 0 <= j < k ==> (#[trigger] member(all, members, j)).value is Some,
            decreases num - k,
        {
            let idx = self.cells[k];
            assert(member(all, members, k as int) == cells@[idx as int]@);
            if cells[idx].value().is_none() {
                return false;
            }
            k = k + 1;
        }
        true
    }
}

} // verus!
