//! One cell of the grid.

use crate::bitset::{bits, bitvec_and, bitvec_from_elem, bitvec_negate, bitvec_set, bitvec_set_all};
use crate::coords::Coords;
use crate::model::{cell_ok, fixed, full, CellView};
use bit_vec::BitVec;
use std::collections::BTreeSet;
use vstd::prelude::*;

verus! {

/// A cell: its position, the symbol it holds if any, the symbols still
/// possible for it, and the groups it is a member of.
pub struct Cell {
    pos: Coords,
    blocks: BTreeSet<usize>,
    value: Option<usize>,
    possibles: BitVec,
}

impl View for Cell {
    type V = CellView;

    closed spec fn view(&self) -> CellView {
        CellView {
            pos: self.pos,
            value: self.value,
            possibles: bits(self.possibles),
            blocks: self.blocks@,
        }
    }
}

impl Cell {
    /// The invariant of a cell: once it holds a symbol, that symbol is the
    /// only one left in its possibility set.
    pub open spec fn wf(&self) -> bool {
        cell_ok(self@, self@.possibles.len())
    }

    /// A cell at `pos` in a puzzle of the given degree: no symbol yet, every
    /// symbol possible, member of no group.
    pub fn new(pos: Coords, degree: usize) -> (cell: Cell)
        requires
            degree * degree <= usize::MAX,
        ensures
            cell@ == (CellView {
                pos,
                value: None,
                possibles: full((degree * degree) as nat),
                blocks: Set::empty(),
            }),
            cell.wf(),
    {
        let num = degree * degree;
        Cell { pos, value: None, blocks: BTreeSet::new(), possibles: bitvec_from_elem(num, true) }
    }

    /// Writes `value` into the cell and leaves it as the only possible
    /// symbol, whatever was possible before. Returns the groups the cell is
    /// a member of, which are the ones to evaluate again.
    pub fn assign(&mut self, value: usize) -> (groups: BTreeSet<usize>)
        requires
            value < old(self)@.possibles.len(),
        ensures
            final(self)@ == fixed(old(self)@, value),
            final(self).wf(),
            groups@ == old(self)@.blocks,
    {
        self.value = Some(value);
        bitvec_set_all(&mut self.possibles);
        bitvec_negate(&mut self.possibles);
        bitvec_set(&mut self.possibles, value, true);
        self.blocks.clone()
    }

    /// Records that the cell is a member of group `block`.
    pub fn add_block(&mut self, block: usize)
        ensures
            final(self)@ == (CellView { blocks: old(self)@.blocks.insert(block), ..old(self)@ }),
    {
        broadcast use vstd::std_specs::btree::group_btree_axioms;

        self.blocks.insert(block);
    }

    /// Removes from a cell without a symbol every symbol that `allowed`
    /// lacks, and tells whether the cell changed. A cell that holds a
    /// symbol stays as it is.
    pub fn retain(&mut self, allowed: &BitVec) -> (changed: bool)
        requires
            bits(*allowed).len() == old(self)@.possibles.len(),
        ensures
            final(self)@ == if old(self)@.value is None {
                CellView {
                    possibles: Seq::new(
                        old(self)@.possibles.len(),
                        |i: int| old(self)@.possibles[i] && bits(*allowed)[i],
                    ),
                    ..old(self)@
                }
            } else {
                old(self)@
            },
            changed == (final(self)@ != old(self)@),
            old(self).wf() ==> final(self).wf(),
    {
        if self.value.is_none() {
            bitvec_and(&mut self.possibles, allowed)
        } else {
            false
        }
    }

    /// The position of the cell.
    pub fn pos(&self) -> (pos: Coords)
        ensures
            pos == self@.pos,
    {
        self.pos
    }

    /// The symbol the cell holds, if any.
    pub fn value(&self) -> (value: Option<usize>)
        ensures
            value == self@.value,
    {
        self.value
    }

    /// The symbols still possible for the cell.
    pub fn possibles(&self) -> (set: &BitVec)
        ensures
            bits(*set) == self@.possibles,
    {
        &self.possibles
    }

    /// The groups the cell is a member of.
    pub fn blocks(&self) -> (groups: &BTreeSet<usize>)
        ensures
            groups@ == self@.blocks,
    {
        &self.blocks
    }
}

/// The cells of a board as contracts see them.
pub open spec fn views(cells: Seq<Cell>) -> Seq<CellView> {
    cells.map_values(|c: Cell| c@)
}

/// Adds every element of `more` to `acc`.
pub fn merge(acc: &mut BTreeSet<usize>, more: &BTreeSet<usize>)
    ensures
        final(acc)@ == old(acc)@.union(more@),
{
    broadcast use vstd::std_specs::btree::group_btree_axioms;

    let ghost start = acc@;
    for b in it: more.iter()
        invariant
            it.seq().unref().to_set() == more@,
            acc@.subset_of(start.union(more@)),
            start.subset_of(acc@),
            forall|j: int| 0 <= j < it.index() ==> acc@.contains(*#[trigger] it.seq()[j]),
            forall|x: usize|
                more@.contains(x) ==> exists|j: int|
                    0 <= j < it.seq().len() && *#[trigger] it.seq()[j] == x,
    {
        acc.insert(*b);
    }
}

} // verus!
