use bit_vec::BitVec;
use std::collections::BTreeSet;
use sudoku::bitset::count_ones;
use sudoku::cell::merge;
use sudoku::{Block, Cell, Contradiction, Coords};

fn origin() -> Coords {
    Coords { x: 0, y: 0 }
}

fn set_of(items: &[usize]) -> BTreeSet<usize> {
    items.iter().cloned().collect()
}

fn symbols(cell: &Cell) -> Vec<usize> {
    let set = cell.possibles();
    (0..set.len()).filter(|&v| set.get(v) == Some(true)).collect()
}

fn row_of_cells(degree: usize) -> Vec<Cell> {
    let n = degree * degree;
    (0..n).map(|y| Cell::new(Coords { x: 0, y }, degree)).collect()
}

fn row_block(degree: usize, cells: &mut Vec<Cell>) -> Block {
    let n = degree * degree;
    Block::create(0, (0..n).collect(), degree, cells)
}

#[test]
fn new_cell_allows_every_symbol() {
    let cell = Cell::new(Coords { x: 2, y: 5 }, 3);
    assert_eq!(cell.pos(), Coords { x: 2, y: 5 });
    assert_eq!(cell.value(), None);
    assert_eq!(cell.possibles().len(), 9);
    assert_eq!(symbols(&cell), vec![0, 1, 2, 3, 4, 5, 6, 7, 8]);
    assert!(cell.blocks().is_empty());
}

#[test]
fn new_cell_of_degree_zero_has_no_symbol() {
    let cell = Cell::new(origin(), 0);
    assert_eq!(cell.possibles().len(), 0);
}

#[test]
fn cell_assign_collapses_to_the_symbol() {
    let mut cell = Cell::new(origin(), 2);
    cell.add_block(3);
    cell.add_block(7);
    let groups = cell.assign(2);
    assert_eq!(groups, set_of(&[3, 7]));
    assert_eq!(cell.value(), Some(2));
    assert_eq!(symbols(&cell), vec![2]);
    assert_eq!(cell.possibles().len(), 4);
}

#[test]
fn cell_assign_takes_a_symbol_that_was_excluded() {
    let mut cell = Cell::new(origin(), 2);
    let mut allowed = BitVec::from_elem(4, true);
    allowed.set(1, false);
    assert!(cell.retain(&allowed));
    assert_eq!(symbols(&cell), vec![0, 2, 3]);
    cell.assign(1);
    assert_eq!(cell.value(), Some(1));
    assert_eq!(symbols(&cell), vec![1]);
}

#[test]
fn cell_assign_takes_a_symbol_that_was_left() {
    let mut cell = Cell::new(origin(), 2);
    let mut allowed = BitVec::from_elem(4, true);
    allowed.set(1, false);
    assert!(cell.retain(&allowed));
    cell.assign(0);
    assert_eq!(cell.value(), Some(0));
    assert_eq!(symbols(&cell), vec![0]);
}

#[test]
fn cell_add_block_records_each_group_once() {
    let mut cell = Cell::new(origin(), 2);
    cell.add_block(5);
    cell.add_block(1);
    cell.add_block(5);
    let groups: Vec<usize> = cell.blocks().iter().cloned().collect();
    assert_eq!(groups, vec![1, 5]);
    assert_eq!(cell.value(), None);
    assert_eq!(symbols(&cell), vec![0, 1, 2, 3]);
}

#[test]
fn cell_retain_intersects_and_reports_change() {
    let mut cell = Cell::new(origin(), 2);
    let mut allowed = BitVec::from_elem(4, false);
    allowed.set(1, true);
    allowed.set(3, true);
    assert!(cell.retain(&allowed));
    assert_eq!(symbols(&cell), vec![1, 3]);
    assert!(!cell.retain(&allowed));
    assert_eq!(symbols(&cell), vec![1, 3]);
    let none = BitVec::from_elem(4, false);
    assert!(cell.retain(&none));
    assert_eq!(symbols(&cell), Vec::<usize>::new());
    assert!(cell.possibles().none());
}

#[test]
fn cell_retain_leaves_an_assigned_cell() {
    let mut cell = Cell::new(origin(), 2);
    cell.assign(2);
    let none = BitVec::from_elem(4, false);
    assert!(!cell.retain(&none));
    assert_eq!(cell.value(), Some(2));
    assert_eq!(symbols(&cell), vec![2]);
}

#[test]
fn count_ones_counts_set_bits() {
    assert_eq!(count_ones(&BitVec::from_elem(0, true)), 0);
    assert_eq!(count_ones(&BitVec::from_elem(9, false)), 0);
    assert_eq!(count_ones(&BitVec::from_elem(9, true)), 9);
    let mut set = BitVec::from_elem(40, false);
    set.set(0, true);
    set.set(33, true);
    set.set(39, true);
    assert_eq!(count_ones(&set), 3);
}

#[test]
fn merge_is_union() {
    let mut acc = set_of(&[1, 4]);
    merge(&mut acc, &set_of(&[0, 4, 9]));
    assert_eq!(acc, set_of(&[0, 1, 4, 9]));
    merge(&mut acc, &BTreeSet::new());
    assert_eq!(acc, set_of(&[0, 1, 4, 9]));
}

#[test]
fn block_create_registers_with_its_members() {
    let mut cells: Vec<Cell> = (0..6).map(|y| Cell::new(Coords { x: 0, y }, 2)).collect();
    let block = Block::create(7, vec![4, 1, 2, 0], 2, &mut cells);
    assert_eq!(block.id(), 7);
    assert_eq!(block.members(), &vec![4usize, 1, 2, 0]);
    assert_eq!(block.degree(), 2);
    assert_eq!(block.assigned_values().len(), 4);
    assert!(block.assigned_values().none());
    for (c, cell) in cells.iter().enumerate() {
        let expected = if c == 3 || c == 5 { set_of(&[]) } else { set_of(&[7]) };
        assert_eq!(cell.blocks(), &expected);
        assert_eq!(cell.value(), None);
        assert_eq!(symbols(cell), vec![0, 1, 2, 3]);
    }
}

#[test]
fn block_inference_without_values_changes_nothing() {
    let mut cells = row_of_cells(2);
    let mut block = row_block(2, &mut cells);
    assert_eq!(block.inference(&mut cells), Ok(BTreeSet::new()));
    for cell in cells.iter() {
        assert_eq!(cell.value(), None);
        assert_eq!(symbols(cell), vec![0, 1, 2, 3]);
    }
    assert!(block.assigned_values().none());
}

#[test]
fn block_inference_excludes_held_symbols_and_marks_groups() {
    let mut cells = row_of_cells(2);
    let mut block = row_block(2, &mut cells);
    cells[1].add_block(5);
    cells[2].add_block(6);
    cells[2].assign(3);
    let marked = block.inference(&mut cells).unwrap();
    assert_eq!(marked, set_of(&[0, 5]));
    assert_eq!(symbols(&cells[0]), vec![0, 1, 2]);
    assert_eq!(symbols(&cells[1]), vec![0, 1, 2]);
    assert_eq!(symbols(&cells[2]), vec![3]);
    assert_eq!(symbols(&cells[3]), vec![0, 1, 2]);
    let recorded: Vec<bool> = block.assigned_values().iter().collect();
    assert_eq!(recorded, vec![false, false, false, true]);
    assert_eq!(block.inference(&mut cells), Ok(BTreeSet::new()));
}

#[test]
fn block_inference_finds_duplicates_and_changes_nothing() {
    let mut cells = row_of_cells(2);
    let mut block = row_block(2, &mut cells);
    cells[0].assign(1);
    cells[3].assign(1);
    assert_eq!(block.inference(&mut cells), Err(Contradiction));
    assert_eq!(symbols(&cells[1]), vec![0, 1, 2, 3]);
    assert_eq!(symbols(&cells[2]), vec![0, 1, 2, 3]);
    assert!(block.assigned_values().none());
}

#[test]
fn block_inference_assigns_the_only_host() {
    let mut cells = row_of_cells(2);
    let mut block = row_block(2, &mut cells);
    let mut without_two = BitVec::from_elem(4, true);
    without_two.set(2, false);
    cells[0].retain(&without_two);
    cells[1].retain(&without_two);
    cells[3].retain(&without_two);
    let marked = block.inference(&mut cells).unwrap();
    assert_eq!(marked, set_of(&[0]));
    assert_eq!(cells[2].value(), Some(2));
    assert_eq!(symbols(&cells[2]), vec![2]);
    assert_eq!(symbols(&cells[0]), vec![0, 1, 3]);
    let recorded: Vec<bool> = block.assigned_values().iter().collect();
    assert_eq!(recorded, vec![false, false, true, false]);
}

#[test]
fn block_inference_assigns_a_cell_with_one_symbol_left() {
    let mut cells = row_of_cells(2);
    let mut block = row_block(2, &mut cells);
    let mut only_one = BitVec::from_elem(4, false);
    only_one.set(1, true);
    cells[2].retain(&only_one);
    let marked = block.inference(&mut cells).unwrap();
    assert_eq!(marked, set_of(&[0]));
    assert_eq!(cells[2].value(), Some(1));
    assert_eq!(symbols(&cells[0]), vec![0, 2, 3]);
    assert_eq!(symbols(&cells[1]), vec![0, 2, 3]);
    assert_eq!(symbols(&cells[3]), vec![0, 2, 3]);
}

#[test]
fn block_inference_takes_symbols_in_increasing_order() {
    let mut cells = row_of_cells(2);
    let mut block = row_block(2, &mut cells);
    let mut low = BitVec::from_elem(4, false);
    low.set(0, true);
    low.set(1, true);
    let mut high = BitVec::from_elem(4, false);
    high.set(2, true);
    high.set(3, true);
    cells[0].retain(&high);
    cells[1].retain(&high);
    cells[2].retain(&high);
    cells[3].retain(&low);
    assert_eq!(block.inference(&mut cells), Ok(set_of(&[0])));
    assert_eq!(cells[3].value(), Some(0));
    assert_eq!(symbols(&cells[3]), vec![0]);
    assert_eq!(cells[0].value(), None);
    assert_eq!(symbols(&cells[0]), vec![2, 3]);
}

#[test]
fn block_inference_gives_a_symbol_to_the_first_of_two_bound_cells() {
    let mut cells = row_of_cells(2);
    let mut block = row_block(2, &mut cells);
    let mut only_one = BitVec::from_elem(4, false);
    only_one.set(1, true);
    cells[1].retain(&only_one);
    cells[3].retain(&only_one);
    assert_eq!(block.inference(&mut cells), Err(Contradiction));
    assert_eq!(cells[1].value(), Some(1));
    assert_eq!(symbols(&cells[0]), vec![0, 2, 3]);
    assert_eq!(symbols(&cells[2]), vec![0, 2, 3]);
    assert_eq!(cells[3].value(), None);
    assert_eq!(symbols(&cells[3]), Vec::<usize>::new());
}

#[test]
fn block_inference_stops_at_the_first_dead_cell() {
    let mut cells = row_of_cells(2);
    let mut block = row_block(2, &mut cells);
    let mut only_three = BitVec::from_elem(4, false);
    only_three.set(3, true);
    cells[0].assign(3);
    cells[2].retain(&only_three);
    assert_eq!(block.inference(&mut cells), Err(Contradiction));
    assert_eq!(symbols(&cells[1]), vec![0, 1, 2]);
    assert_eq!(symbols(&cells[2]), Vec::<usize>::new());
    assert_eq!(symbols(&cells[3]), vec![0, 1, 2, 3]);
    let recorded: Vec<bool> = block.assigned_values().iter().collect();
    assert_eq!(recorded, vec![false, false, false, true]);
}

#[test]
fn block_inference_does_not_mark_itself_once_complete() {
    let mut cells = row_of_cells(2);
    let mut block = row_block(2, &mut cells);
    for cell in cells.iter_mut() {
        cell.add_block(9);
    }
    cells[0].assign(0);
    cells[1].assign(1);
    cells[2].assign(2);
    assert_eq!(block.inference(&mut cells), Ok(set_of(&[9])));
    assert_eq!(cells[3].value(), Some(3));
    let recorded: Vec<bool> = block.assigned_values().iter().collect();
    assert_eq!(recorded, vec![true, true, true, true]);
    assert_eq!(block.inference(&mut cells), Ok(BTreeSet::new()));
}
