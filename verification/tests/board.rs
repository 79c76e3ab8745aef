use std::collections::BTreeSet;
use std::cmp::Ordering;
use sudoku::{
    degree_fits, degree_of, AssignError, Contradiction, Coords, FixedPoint, Sudoku,
};

fn at(x: usize, y: usize) -> Coords {
    Coords { x, y }
}

fn possible(sudoku: &Sudoku, x: usize, y: usize) -> Vec<usize> {
    let cell = sudoku.read_cell(&at(x, y)).unwrap();
    let set = cell.possibles();
    (0..set.len()).filter(|&v| set.get(v) == Some(true)).collect()
}

fn value(sudoku: &Sudoku, x: usize, y: usize) -> Option<usize> {
    sudoku.read_cell(&at(x, y)).unwrap().value()
}

fn snapshot(sudoku: &Sudoku) -> Vec<(Option<usize>, Vec<usize>)> {
    let n = sudoku.degree() * sudoku.degree();
    let mut all = Vec::new();
    for x in 0..n {
        for y in 0..n {
            all.push((value(sudoku, x, y), possible(sudoku, x, y)));
        }
    }
    all
}

#[test]
fn it_works() {
    let mut sudoku = Sudoku::new(4);
    sudoku.solve();
}

#[test]
fn solve_leaves_the_board_alone() {
    let mut sudoku = Sudoku::new(2);
    sudoku.assign(&at(1, 2), 3).unwrap();
    let before = snapshot(&sudoku);
    let waiting = sudoku.pending().clone();
    sudoku.solve();
    assert_eq!(snapshot(&sudoku), before);
    assert_eq!(sudoku.pending(), &waiting);
}

#[test]
fn new_board_has_the_counts_of_its_degree() {
    for d in 1..=4usize {
        let sudoku = Sudoku::new(d);
        let n = d * d;
        assert_eq!(sudoku.degree(), d);
        assert_eq!(sudoku.cells().len(), d * d * d * d);
        assert_eq!(sudoku.blocks().len(), 3 * d * d);
        for block in sudoku.blocks() {
            assert_eq!(block.members().len(), n);
            let distinct: BTreeSet<usize> = block.members().iter().cloned().collect();
            assert_eq!(distinct.len(), n);
            assert_eq!(block.degree(), d);
            assert_eq!(block.assigned_values().len(), n);
            assert!(block.assigned_values().none());
        }
        for cell in sudoku.cells() {
            assert_eq!(cell.blocks().len(), 3);
            assert_eq!(cell.value(), None);
            assert_eq!(cell.possibles().len(), n);
            assert!(cell.possibles().all());
        }
        assert!(sudoku.pending().is_empty());
    }
}

#[test]
fn new_board_of_degree_zero_is_empty() {
    let mut sudoku = Sudoku::new(0);
    assert_eq!(sudoku.cells().len(), 0);
    assert_eq!(sudoku.blocks().len(), 0);
    assert_eq!(sudoku.assign(&at(0, 0), 0), Err(AssignError::NotFound));
    assert_eq!(sudoku.inference(), Ok(FixedPoint));
}

#[test]
fn new_board_of_degree_one_has_one_cell_in_three_groups() {
    let sudoku = Sudoku::new(1);
    let cell = sudoku.read_cell(&at(0, 0)).unwrap();
    let groups: Vec<usize> = cell.blocks().iter().cloned().collect();
    assert_eq!(groups, vec![0, 1, 2]);
    for block in sudoku.blocks() {
        assert_eq!(block.members(), &vec![0usize]);
    }
}

#[test]
fn groups_are_rows_then_columns_then_boxes() {
    let sudoku = Sudoku::new(2);
    let blocks = sudoku.blocks();
    for (b, block) in blocks.iter().enumerate() {
        assert_eq!(block.id(), b);
    }
    assert_eq!(blocks[0].members(), &vec![0usize, 1, 2, 3]);
    assert_eq!(blocks[3].members(), &vec![12usize, 13, 14, 15]);
    assert_eq!(blocks[4].members(), &vec![0usize, 4, 8, 12]);
    assert_eq!(blocks[5].members(), &vec![1usize, 5, 9, 13]);
    assert_eq!(blocks[8].members(), &vec![0usize, 1, 4, 5]);
    assert_eq!(blocks[9].members(), &vec![2usize, 3, 6, 7]);
    assert_eq!(blocks[10].members(), &vec![8usize, 9, 12, 13]);
    assert_eq!(blocks[11].members(), &vec![10usize, 11, 14, 15]);
}

#[test]
fn boxes_of_degree_three() {
    let sudoku = Sudoku::new(3);
    let blocks = sudoku.blocks();
    assert_eq!(blocks[18].members(), &vec![0usize, 1, 2, 9, 10, 11, 18, 19, 20]);
    assert_eq!(blocks[22].members(), &vec![30usize, 31, 32, 39, 40, 41, 48, 49, 50]);
    assert_eq!(blocks[26].members(), &vec![60usize, 61, 62, 69, 70, 71, 78, 79, 80]);
    let cell = sudoku.read_cell(&at(4, 7)).unwrap();
    let groups: Vec<usize> = cell.blocks().iter().cloned().collect();
    assert_eq!(groups, vec![4, 9 + 7, 18 + 5]);
}

#[test]
fn cells_lie_row_by_row() {
    let sudoku = Sudoku::new(2);
    for x in 0..4 {
        for y in 0..4 {
            let cell = sudoku.read_cell(&at(x, y)).unwrap();
            assert_eq!(cell.pos(), at(x, y));
            assert_eq!(sudoku.cells()[x * 4 + y].pos(), at(x, y));
        }
    }
    let cell = sudoku.read_cell(&at(2, 3)).unwrap();
    let groups: Vec<usize> = cell.blocks().iter().cloned().collect();
    assert_eq!(groups, vec![2, 4 + 3, 8 + 3]);
}

#[test]
fn each_cell_is_listed_by_the_groups_it_names() {
    let sudoku = Sudoku::new(3);
    for (c, cell) in sudoku.cells().iter().enumerate() {
        for (b, block) in sudoku.blocks().iter().enumerate() {
            assert_eq!(cell.blocks().contains(&b), block.members().contains(&c));
        }
    }
}

#[test]
fn read_cell_off_the_grid_is_none() {
    let sudoku = Sudoku::new(2);
    assert!(sudoku.read_cell(&at(4, 0)).is_none());
    assert!(sudoku.read_cell(&at(0, 4)).is_none());
    assert!(sudoku.read_cell(&at(3, 3)).is_some());
}

#[test]
fn assign_sets_value_and_leaves_one_symbol() {
    let mut sudoku = Sudoku::new(2);
    assert_eq!(sudoku.assign(&at(1, 2), 3), Ok(()));
    assert_eq!(value(&sudoku, 1, 2), Some(3));
    assert_eq!(possible(&sudoku, 1, 2), vec![3]);
    assert_eq!(value(&sudoku, 0, 0), None);
    assert_eq!(possible(&sudoku, 0, 0), vec![0, 1, 2, 3]);
}

#[test]
fn assign_marks_the_groups_of_the_cell() {
    let mut sudoku = Sudoku::new(2);
    sudoku.assign(&at(1, 2), 3).unwrap();
    let waiting: Vec<usize> = sudoku.pending().iter().cloned().collect();
    assert_eq!(waiting, vec![1, 4 + 2, 8 + 1]);
    sudoku.assign(&at(3, 2), 0).unwrap();
    let waiting: Vec<usize> = sudoku.pending().iter().cloned().collect();
    assert_eq!(waiting, vec![1, 3, 6, 9, 11]);
}

#[test]
fn assign_overwrites_whatever_was_possible() {
    let mut sudoku = Sudoku::new(2);
    sudoku.assign(&at(0, 0), 0).unwrap();
    sudoku.assign(&at(0, 0), 1).unwrap();
    assert_eq!(value(&sudoku, 0, 0), Some(1));
    assert_eq!(possible(&sudoku, 0, 0), vec![1]);
}

#[test]
fn assign_off_the_grid_is_not_found() {
    let mut sudoku = Sudoku::new(2);
    let before = snapshot(&sudoku);
    assert_eq!(sudoku.assign(&at(4, 0), 1), Err(AssignError::NotFound));
    assert_eq!(sudoku.assign(&at(0, 4), 1), Err(AssignError::NotFound));
    assert_eq!(sudoku.assign(&at(7, 9), 100), Err(AssignError::NotFound));
    assert_eq!(snapshot(&sudoku), before);
    assert!(sudoku.pending().is_empty());
}

#[test]
fn assign_of_a_foreign_symbol_is_out_of_range() {
    let mut sudoku = Sudoku::new(2);
    let before = snapshot(&sudoku);
    assert_eq!(sudoku.assign(&at(0, 0), 4), Err(AssignError::OutOfRange));
    assert_eq!(sudoku.assign(&at(3, 3), usize::MAX), Err(AssignError::OutOfRange));
    assert_eq!(snapshot(&sudoku), before);
    assert!(sudoku.pending().is_empty());
    assert_eq!(sudoku.assign(&at(3, 3), 3), Ok(()));
}

#[test]
fn propagation_on_a_new_board_is_a_fixed_point() {
    let mut sudoku = Sudoku::new(3);
    let before = snapshot(&sudoku);
    assert_eq!(sudoku.inference(), Ok(FixedPoint));
    assert_eq!(snapshot(&sudoku), before);
}

#[test]
fn first_row_assigned_excludes_along_columns_and_boxes() {
    let mut sudoku = Sudoku::new(2);
    for y in 0..4 {
        sudoku.assign(&at(0, y), y).unwrap();
    }
    assert_eq!(sudoku.inference(), Ok(FixedPoint));
    for x in 1..4 {
        assert!(!possible(&sudoku, x, 0).contains(&0));
    }
    for y in 0..4 {
        for x in 1..4 {
            assert!(!possible(&sudoku, x, y).contains(&y));
        }
    }
    assert_eq!(possible(&sudoku, 1, 0), vec![2, 3]);
    assert_eq!(possible(&sudoku, 1, 1), vec![2, 3]);
    assert_eq!(possible(&sudoku, 1, 2), vec![0, 1]);
    assert_eq!(possible(&sudoku, 1, 3), vec![0, 1]);
    assert_eq!(possible(&sudoku, 2, 0), vec![1, 2, 3]);
    assert_eq!(possible(&sudoku, 3, 3), vec![0, 1, 2]);
    assert!(sudoku.pending().is_empty());
    for y in 0..4 {
        assert_eq!(value(&sudoku, 0, y), Some(y));
        assert_eq!(possible(&sudoku, 0, y), vec![y]);
    }
    let row: Vec<bool> = sudoku.blocks()[0].assigned_values().iter().collect();
    assert_eq!(row, vec![true, true, true, true]);
    let column: Vec<bool> = sudoku.blocks()[4].assigned_values().iter().collect();
    assert_eq!(column, vec![true, false, false, false]);
    let square: Vec<bool> = sudoku.blocks()[8].assigned_values().iter().collect();
    assert_eq!(square, vec![true, true, false, false]);
}

#[test]
fn duplicate_in_a_row_is_a_contradiction() {
    let mut sudoku = Sudoku::new(2);
    sudoku.assign(&at(0, 0), 0).unwrap();
    sudoku.assign(&at(0, 1), 0).unwrap();
    assert_eq!(sudoku.inference(), Err(Contradiction));
}

#[test]
fn full_row_with_a_duplicate_is_a_contradiction() {
    let mut sudoku = Sudoku::new(2);
    sudoku.assign(&at(0, 0), 0).unwrap();
    sudoku.assign(&at(0, 1), 0).unwrap();
    sudoku.assign(&at(0, 2), 2).unwrap();
    sudoku.assign(&at(0, 3), 3).unwrap();
    assert_eq!(sudoku.inference(), Err(Contradiction));
}

#[test]
fn same_symbol_twice_in_any_shared_group_is_a_contradiction() {
    let pairs = [((0, 0), (3, 0)), ((2, 1), (2, 3)), ((2, 2), (3, 3)), ((1, 0), (0, 1))];
    for v in 0..4 {
        for &((ax, ay), (bx, by)) in pairs.iter() {
            let mut sudoku = Sudoku::new(2);
            sudoku.assign(&at(ax, ay), v).unwrap();
            sudoku.assign(&at(bx, by), v).unwrap();
            assert_eq!(sudoku.inference(), Err(Contradiction));
        }
    }
}

#[test]
fn same_symbol_twice_after_propagation_is_a_contradiction() {
    let mut sudoku = Sudoku::new(3);
    sudoku.assign(&at(4, 4), 5).unwrap();
    assert_eq!(sudoku.inference(), Ok(FixedPoint));
    sudoku.assign(&at(0, 0), 7).unwrap();
    sudoku.assign(&at(8, 0), 7).unwrap();
    assert_eq!(sudoku.inference(), Err(Contradiction));
}

#[test]
fn same_symbol_in_cells_that_share_no_group_is_no_contradiction() {
    let mut sudoku = Sudoku::new(2);
    sudoku.assign(&at(0, 0), 0).unwrap();
    sudoku.assign(&at(2, 1), 0).unwrap();
    assert_eq!(sudoku.inference(), Ok(FixedPoint));
}

#[test]
fn cell_left_with_nothing_is_a_contradiction() {
    let mut sudoku = Sudoku::new(2);
    sudoku.assign(&at(0, 0), 0).unwrap();
    sudoku.assign(&at(0, 1), 1).unwrap();
    sudoku.assign(&at(1, 3), 2).unwrap();
    sudoku.assign(&at(2, 3), 3).unwrap();
    assert_eq!(sudoku.inference(), Err(Contradiction));
}

#[test]
fn dead_cell_is_empty_and_later_members_are_untouched() {
    let mut sudoku = Sudoku::new(2);
    sudoku.assign(&at(0, 0), 0).unwrap();
    sudoku.assign(&at(0, 1), 1).unwrap();
    sudoku.assign(&at(0, 2), 2).unwrap();
    sudoku.assign(&at(3, 3), 3).unwrap();
    assert_eq!(sudoku.inference(), Err(Contradiction));
    assert_eq!(value(&sudoku, 0, 3), Some(3));
    assert_eq!(possible(&sudoku, 0, 3), vec![3]);
    let waiting: Vec<usize> = sudoku.pending().iter().cloned().collect();
    assert!(!waiting.contains(&7));
}

#[test]
fn only_host_of_a_symbol_gets_it() {
    let mut sudoku = Sudoku::new(2);
    sudoku.assign(&at(0, 0), 0).unwrap();
    sudoku.assign(&at(0, 1), 1).unwrap();
    sudoku.assign(&at(0, 2), 2).unwrap();
    assert_eq!(sudoku.inference(), Ok(FixedPoint));
    assert_eq!(value(&sudoku, 0, 3), Some(3));
    assert_eq!(possible(&sudoku, 0, 3), vec![3]);
    for x in 1..4 {
        assert!(!possible(&sudoku, x, 3).contains(&3));
    }
}

#[test]
fn cell_with_one_symbol_left_gets_it() {
    let mut sudoku = Sudoku::new(2);
    sudoku.assign(&at(0, 1), 1).unwrap();
    sudoku.assign(&at(0, 2), 2).unwrap();
    sudoku.assign(&at(3, 0), 3).unwrap();
    assert_eq!(sudoku.inference(), Ok(FixedPoint));
    assert_eq!(value(&sudoku, 0, 0), Some(0));
    assert_eq!(possible(&sudoku, 0, 0), vec![0]);
    assert_eq!(value(&sudoku, 0, 3), Some(3));
    assert!(!possible(&sudoku, 1, 0).contains(&0));
    assert!(!possible(&sudoku, 1, 1).contains(&0));
    assert!(!possible(&sudoku, 2, 0).contains(&0));
}

#[test]
fn two_cells_left_with_the_same_symbol_are_a_contradiction() {
    let mut sudoku = Sudoku::new(2);
    sudoku.assign(&at(0, 1), 1).unwrap();
    sudoku.assign(&at(2, 0), 2).unwrap();
    sudoku.assign(&at(3, 0), 3).unwrap();
    assert_eq!(sudoku.inference(), Err(Contradiction));
}

#[test]
fn propagation_is_idempotent() {
    let mut sudoku = Sudoku::new(3);
    let givens = [(0, 0, 4), (0, 4, 7), (1, 1, 2), (2, 8, 0), (4, 4, 8), (5, 3, 1), (8, 8, 6)];
    for &(x, y, v) in givens.iter() {
        sudoku.assign(&at(x, y), v).unwrap();
    }
    assert_eq!(sudoku.inference(), Ok(FixedPoint));
    assert!(sudoku.pending().is_empty());
    let before = snapshot(&sudoku);
    let recorded: Vec<Vec<bool>> =
        sudoku.blocks().iter().map(|b| b.assigned_values().iter().collect()).collect();
    assert_eq!(sudoku.inference(), Ok(FixedPoint));
    assert!(sudoku.pending().is_empty());
    assert_eq!(snapshot(&sudoku), before);
    let again: Vec<Vec<bool>> =
        sudoku.blocks().iter().map(|b| b.assigned_values().iter().collect()).collect();
    assert_eq!(again, recorded);
}

#[test]
fn possibilities_only_shrink() {
    let mut sudoku = Sudoku::new(3);
    let givens = [(0, 0, 4), (0, 4, 7), (1, 1, 2), (2, 8, 0), (4, 4, 8), (5, 3, 1), (8, 8, 6)];
    let mut last = snapshot(&sudoku);
    for &(x, y, v) in givens.iter() {
        assert!(possible(&sudoku, x, y).contains(&v));
        sudoku.assign(&at(x, y), v).unwrap();
        let now = snapshot(&sudoku);
        for (old, new) in last.iter().zip(now.iter()) {
            assert!(new.1.iter().all(|s| old.1.contains(s)));
        }
        last = now;
        assert_eq!(sudoku.inference(), Ok(FixedPoint));
        let now = snapshot(&sudoku);
        for (old, new) in last.iter().zip(now.iter()) {
            assert!(new.1.iter().all(|s| old.1.contains(s)));
            if old.0.is_some() {
                assert_eq!(old, new);
            }
        }
        last = now;
    }
}

#[test]
fn propagation_is_reproducible() {
    let givens = [(0, 0, 4), (0, 4, 7), (1, 1, 2), (2, 8, 0), (4, 4, 8), (5, 3, 1), (8, 8, 6)];
    let mut first = Sudoku::new(3);
    let mut second = Sudoku::new(3);
    for &(x, y, v) in givens.iter() {
        first.assign(&at(x, y), v).unwrap();
        second.assign(&at(x, y), v).unwrap();
    }
    assert_eq!(first.inference(), second.inference());
    assert_eq!(snapshot(&first), snapshot(&second));
}

#[test]
fn solved_grid_stays_solved() {
    let rows = [[0, 1, 2, 3], [2, 3, 0, 1], [1, 0, 3, 2], [3, 2, 1, 0]];
    let mut sudoku = Sudoku::new(2);
    for x in 0..4 {
        for y in 0..4 {
            sudoku.assign(&at(x, y), rows[x][y]).unwrap();
        }
    }
    assert_eq!(sudoku.inference(), Ok(FixedPoint));
    for x in 0..4 {
        for y in 0..4 {
            assert_eq!(value(&sudoku, x, y), Some(rows[x][y]));
        }
    }
}

#[test]
fn propagation_completes_an_easy_grid() {
    let rows = [[0, 1, 2, 3], [2, 3, 0, 1], [1, 0, 3, 2], [3, 2, 1, 0]];
    let mut sudoku = Sudoku::new(2);
    for x in 0..4 {
        for y in 0..4 {
            if (x + y) % 2 == 0 || x == 0 {
                sudoku.assign(&at(x, y), rows[x][y]).unwrap();
            }
        }
    }
    assert_eq!(sudoku.inference(), Ok(FixedPoint));
    for x in 0..4 {
        for y in 0..4 {
            assert_eq!(value(&sudoku, x, y), Some(rows[x][y]));
        }
    }
}

#[test]
fn degree_fits_for_small_degrees_only() {
    assert!(degree_fits(0));
    assert!(degree_fits(1));
    assert!(degree_fits(3));
    assert!(degree_fits(100));
    assert!(!degree_fits(usize::MAX));
    assert!(!degree_fits(1 << 20));
}

#[test]
fn degree_of_is_the_root_of_a_square() {
    assert_eq!(degree_of(0), Some(0));
    assert_eq!(degree_of(1), Some(1));
    assert_eq!(degree_of(4), Some(2));
    assert_eq!(degree_of(9), Some(3));
    assert_eq!(degree_of(16), Some(4));
    assert_eq!(degree_of(2), None);
    assert_eq!(degree_of(8), None);
    assert_eq!(degree_of(10), None);
    assert_eq!(degree_of(1 << 40), Some(1 << 20));
    assert_eq!(degree_of((1 << 40) + 1), None);
}

#[test]
fn positions_compare_by_row_then_column() {
    assert_eq!(at(0, 5).partial_cmp(&at(1, 0)), Some(Ordering::Less));
    assert_eq!(at(1, 0).partial_cmp(&at(0, 5)), Some(Ordering::Greater));
    assert_eq!(at(1, 0).partial_cmp(&at(1, 1)), Some(Ordering::Less));
    assert_eq!(at(1, 2).partial_cmp(&at(1, 1)), Some(Ordering::Greater));
    assert_eq!(at(3, 3).partial_cmp(&at(3, 3)), Some(Ordering::Equal));
    assert_eq!(at(0, 5).cmp(&at(1, 0)), Ordering::Less);
    assert_eq!(at(1, 2).cmp(&at(1, 1)), Ordering::Greater);
    assert_eq!(at(3, 3).cmp(&at(3, 3)), Ordering::Equal);
}

#[test]
fn positions_are_ordered_by_row_then_column() {
    assert!(at(0, 5) < at(1, 0));
    assert!(at(1, 0) < at(1, 1));
    assert_eq!(at(2, 3), at(2, 3));
    assert_ne!(at(2, 3), at(3, 2));
    let mut all = vec![at(1, 1), at(0, 2), at(1, 0), at(0, 0)];
    all.sort();
    assert_eq!(all, vec![at(0, 0), at(0, 2), at(1, 0), at(1, 1)]);
}

fn solved_nine() -> [[usize; 9]; 9] {
    let mut rows = [[0usize; 9]; 9];
    for x in 0..9 {
        for y in 0..9 {
            rows[x][y] = (3 * (x % 3) + x / 3 + y) % 9;
        }
    }
    rows
}

#[test]
fn solved_nine_is_a_filling_without_repeats() {
    let rows = solved_nine();
    let sudoku = Sudoku::new(3);
    for block in sudoku.blocks() {
        let symbols: BTreeSet<usize> = block.members().iter().map(|&c| rows[c / 9][c % 9]).collect();
        assert_eq!(symbols.len(), 9);
    }
}

#[test]
fn propagation_keeps_a_filling() {
    let rows = solved_nine();
    for step in [2usize, 3, 5, 7] {
        let mut sudoku = Sudoku::new(3);
        for c in (0..81).step_by(step) {
            sudoku.assign(&at(c / 9, c % 9), rows[c / 9][c % 9]).unwrap();
        }
        assert_eq!(sudoku.inference(), Ok(FixedPoint));
        for x in 0..9 {
            for y in 0..9 {
                assert!(possible(&sudoku, x, y).contains(&rows[x][y]));
                if let Some(v) = value(&sudoku, x, y) {
                    assert_eq!(v, rows[x][y]);
                }
            }
        }
    }
}

#[test]
fn groups_of_a_fixed_point_have_nothing_to_deduce() {
    let rows = solved_nine();
    let mut sudoku = Sudoku::new(3);
    for c in (0..81).step_by(4) {
        sudoku.assign(&at(c / 9, c % 9), rows[c / 9][c % 9]).unwrap();
    }
    assert_eq!(sudoku.inference(), Ok(FixedPoint));
    let before = snapshot(&sudoku);
    for x in 0..9 {
        for y in 0..9 {
            if let Some(v) = value(&sudoku, x, y) {
                sudoku.assign(&at(x, y), v).unwrap();
            }
        }
    }
    assert_eq!(snapshot(&sudoku), before);
    assert!(!sudoku.pending().is_empty());
    assert_eq!(sudoku.inference(), Ok(FixedPoint));
    assert_eq!(snapshot(&sudoku), before);
}

#[test]
fn board_of_one_cell_deduces_nothing_until_a_group_waits() {
    let mut sudoku = Sudoku::new(1);
    assert_eq!(sudoku.inference(), Ok(FixedPoint));
    assert_eq!(value(&sudoku, 0, 0), None);
    assert_eq!(possible(&sudoku, 0, 0), vec![0]);
    assert_eq!(sudoku.assign(&at(0, 0), 0), Ok(()));
    assert_eq!(sudoku.inference(), Ok(FixedPoint));
    assert_eq!(value(&sudoku, 0, 0), Some(0));
}
