use rustdoku::grid::{Cell, Grid, ParseError};
use rustdoku::topology::peers;

const PUZZLE: &str =
    "060000300400700000000000080000008012500600000000000050082000700000500600000010000";

#[test]
fn fast_grid_peers() {
    let table = peers(0);
    assert_eq!(
        table,
        [1, 2, 3, 4, 5, 6, 7, 8, 9, 18, 27, 36, 45, 54, 63, 72, 10, 11, 19, 20]
    );
}

#[test]
fn grid_peers() {
    let table = Grid::new().get_peers(0);
    assert_eq!(
        table,
        [1, 2, 3, 4, 5, 6, 7, 8, 9, 18, 27, 36, 45, 54, 63, 72, 10, 11, 19, 20]
    );
}

#[test]
fn peer_count() {
    let grid = Grid::new();
    let peers = grid.get_peers(0);
    assert_eq!(peers.len(), 20);
    let mut distinct = peers.to_vec();
    distinct.sort();
    distinct.dedup();
    assert_eq!(distinct.len(), 20);
    assert!(!peers.contains(&0));
}

#[test]
fn error_digit() {
    let result = Grid::parse(
        "a60000300400700000000000080000008012500600000000000050082000700000500600000010000",
    );
    assert!(result.is_err());
    assert_eq!(result.err().unwrap(), ParseError::InvalidDigit('a', 0))
}

#[test]
fn error_invalid() {
    let result = Grid::parse(
        "660000300400700000000000080000008012500600000000000050082000700000500600000010000",
    );
    assert!(result.is_err());
    assert_eq!(result.err().unwrap(), ParseError::InvalidSudoku(1))
}

#[test]
fn every_cell_has_twenty_symmetric_peers() {
    for a in 0..81 {
        let table = peers(a);
        let mut sorted = table.to_vec();
        sorted.sort();
        sorted.dedup();
        assert_eq!(sorted.len(), 20);
        for b in table {
            assert!(b < 81);
            assert_ne!(a, b);
            assert!(peers(b).contains(&a));
        }
    }
}

#[test]
fn parse_then_text_round_trips() {
    let texts = [
        PUZZLE,
        "530070000600195000098000060800060003400803001700020006060000280000419005000080079",
        "961845327458723169237169584796358412524691873813274956182436795379582641645917238",
        "000000000000000000000000000000000000000000000000000000000000000000000000000000000",
    ];
    for text in texts {
        let grid = Grid::parse(text).unwrap();
        assert_eq!(grid.to_string(), text);
    }
}

#[test]
fn parse_freezes_the_givens() {
    let grid = Grid::parse(PUZZLE).unwrap();
    assert_eq!(grid.givens(), 17);
    assert!(grid.frozen(1));
    assert!(!grid.frozen(0));
    assert_eq!(grid.get(1), 6);
    assert_eq!(grid.get(0), 0);
    assert!(grid.is_valid());
    assert!(!grid.is_complete());
}

#[test]
fn parse_short_text_leaves_cells_empty() {
    let grid = Grid::parse("123").unwrap();
    assert_eq!(grid.get(2), 3);
    assert_eq!(grid.get(3), 0);
    assert_eq!(grid.givens(), 3);
}

#[test]
fn parse_rejects_a_column_repeat() {
    let mut text = String::from("1");
    for _ in 1..9 {
        text.push('0');
    }
    text.push('1');
    let result = Grid::parse(&text);
    assert_eq!(result.err().unwrap(), ParseError::InvalidSudoku(9));
}

#[test]
fn parse_rejects_a_cell_left_without_candidates() {
    // Cell 0 is empty; row 0 holds 1..8 and column 0 holds 9.
    let mut text = String::from("012345678");
    text.push('9');
    let result = Grid::parse(&text);
    assert_eq!(result.err().unwrap(), ParseError::InvalidSudoku(9));
}

#[test]
fn equal_values_make_equal_grids() {
    let a = Grid::parse(PUZZLE).unwrap();
    let mut b = Grid::new();
    for i in 0..81 {
        b.set(i, a.get(i), false);
    }
    assert!(a == b);
    assert_eq!(a.is_valid(), b.is_valid());
    assert_eq!(a.is_complete(), b.is_complete());
    assert_ne!(a.givens(), b.givens());
    b.set(0, 9, false);
    assert!(a != b);
}

#[test]
fn set_on_frozen_cell_does_nothing() {
    let mut grid = Grid::parse(PUZZLE).unwrap();
    assert!(!grid.set(1, 5, false));
    assert!(!grid.set(1, 5, true));
    assert_eq!(grid.get(1), 6);
}

#[test]
fn checked_set_propagates_candidates() {
    let mut grid = Grid::new();
    assert!(grid.set(0, 5, true));
    assert_eq!(grid.get(0), 5);
    assert_eq!(grid.candidates(0).count(), 0);
    assert!(!grid.candidates(1).get(4));
    assert!(!grid.candidates(9).get(4));
    assert!(!grid.candidates(10).get(4));
    assert!(grid.candidates(40).get(4));
    assert_eq!(grid.candidates(1).count(), 8);
}

#[test]
fn checked_set_reports_a_peer_collision() {
    let mut grid = Grid::new();
    assert!(grid.set(0, 5, true));
    assert!(!grid.set(8, 5, true));
    assert_eq!(grid.get(8), 5);
    assert!(!grid.is_valid());
}

#[test]
fn unchecked_set_resets_candidates() {
    let mut grid = Grid::new();
    assert!(grid.set(3, 7, false));
    assert_eq!(grid.candidates(3).count(), 0);
    assert!(grid.set(3, 0, false));
    assert_eq!(grid.candidates(3).count(), 9);
}

#[test]
fn clearing_a_cell_recomputes_its_candidates() {
    let mut grid = Grid::new();
    assert!(grid.set(1, 2, true));
    assert!(grid.set(9, 3, true));
    assert!(grid.set(0, 4, true));
    assert!(grid.set(0, 0, true));
    let c = grid.candidates(0);
    assert_eq!(c.count(), 7);
    assert!(!c.get(1));
    assert!(!c.get(2));
    assert!(c.get(3));
}

#[test]
fn update_candidates_clears_a_digit_from_peers() {
    let mut grid = Grid::new();
    assert!(grid.set(40, 9, false));
    assert!(grid.update_candidates(40));
    assert!(!grid.candidates(36).get(8));
    assert!(!grid.candidates(4).get(8));
    assert!(grid.candidates(0).get(8));
}

#[test]
fn candidates_mut_edits_notes() {
    let mut grid = Grid::new();
    grid.candidates_mut(5).unset(3);
    assert!(!grid.candidates(5).get(3));
    assert_eq!(grid.candidates(5).count(), 8);
    assert_eq!(grid.get(5), 0);
}

#[test]
fn freeze_and_givens() {
    let mut grid = Grid::new();
    assert_eq!(grid.givens(), 0);
    grid.freeze(10);
    grid.freeze(20);
    assert_eq!(grid.givens(), 2);
    assert!(grid.frozen(10));
    assert!(!grid.set(10, 1, false));
}

#[test]
fn cells_lists_values() {
    let grid = Grid::parse(PUZZLE).unwrap();
    let values = grid.cells();
    assert_eq!(values[1], 6);
    assert_eq!(values[6], 3);
    assert_eq!(values.iter().filter(|v| **v != 0).count(), 17);
}

#[test]
fn rows_columns_and_boxes() {
    let grid = Grid::new();
    assert_eq!(grid.get_row(1), [9, 10, 11, 12, 13, 14, 15, 16, 17]);
    assert_eq!(grid.get_column(2), [2, 11, 20, 29, 38, 47, 56, 65, 74]);
    assert_eq!(grid.get_box(4), [30, 31, 32, 39, 40, 41, 48, 49, 50]);
}

#[test]
fn cell_accessors() {
    let mut cell = Cell::new(0);
    assert_eq!(cell.value(), 0);
    assert_eq!(cell.candidates().count(), 9);
    assert!(!cell.frozen());
    cell.freeze();
    assert!(cell.frozen());
    cell.thaw();
    assert!(!cell.frozen());
    cell.candidates_mut().unset(0);
    assert_eq!(cell.candidates().count(), 8);
    let filled = Cell::new(4);
    assert_eq!(filled.value(), 4);
    assert!(filled.candidates().none());
    let grid = Grid::parse(PUZZLE).unwrap();
    assert_eq!(grid.cell(1).value(), 6);
    assert!(grid.cell(1).frozen());
}

#[test]
fn empty_grid_text_is_zeros() {
    assert_eq!(Grid::new().to_string(), "0".repeat(81));
    assert!(Grid::default() == Grid::new());
}

#[test]
fn pretty_draws_boxes() {
    let grid = Grid::parse(PUZZLE).unwrap();
    let expected = "+-------+-------+-------+\n\
| 0 6 0 | 0 0 0 | 3 0 0 |\n\
| 4 0 0 | 7 0 0 | 0 0 0 |\n\
| 0 0 0 | 0 0 0 | 0 8 0 |\n\
+-------+-------+-------+\n\
| 0 0 0 | 0 0 8 | 0 1 2 |\n\
| 5 0 0 | 6 0 0 | 0 0 0 |\n\
| 0 0 0 | 0 0 0 | 0 5 0 |\n\
+-------+-------+-------+\n\
| 0 8 2 | 0 0 0 | 7 0 0 |\n\
| 0 0 0 | 5 0 0 | 6 0 0 |\n\
| 0 0 0 | 0 1 0 | 0 0 0 |\n\
+-------+-------+-------+";
    assert_eq!(grid.pretty(), expected);
}

#[test]
fn update_candidates_keeps_a_cell_frozen() {
    let mut grid = Grid::parse("5").unwrap();
    assert!(grid.frozen(0));
    assert!(grid.update_candidates(0));
    assert!(grid.frozen(0));
    assert_eq!(grid.get(0), 5);
    assert!(!grid.candidates(1).get(4));
}

#[test]
fn clearing_a_cell_whose_peers_hold_every_digit_succeeds() {
    let mut grid = Grid::new();
    for c in 1..9 {
        assert!(grid.set(c, c as u8, false));
    }
    assert!(grid.set(9, 9, false));
    assert!(grid.set(0, 5, false));
    assert!(grid.set(0, 0, true));
    assert_eq!(grid.get(0), 0);
    assert_eq!(grid.candidates(0).count(), 0);
    assert!(grid.candidates(0).none());
}
