use rustdoku::fast::{brute_force, FastGrid};

#[test]
fn brute_force_test() {
    let grid = FastGrid::parse(
        "060000300400700000000000080000008012500600000000000050082000700000500600000010000",
    )
    .unwrap();
    let complete_grid = FastGrid::parse(
        "961845327458723169237169584796358412524691873813274956182436795379582641645917238",
    )
    .unwrap();
    let grid = brute_force(grid).unwrap();
    assert!(
        grid == complete_grid,
        "grid = {}, complete_grid = {}",
        grid.to_string(),
        complete_grid.to_string()
    )
}

#[test]
fn fast_set_makes_a_new_grid() {
    let grid = FastGrid::new();
    let next = grid.set(0, 5).unwrap();
    assert_eq!(next.cells[0].value, 5);
    assert_eq!(grid.cells[0].value, 0);
    assert!(!next.cells[1].candidates.get(4));
    assert!(next.cells[40].candidates.get(4));
    let cleared = next.set(0, 0).unwrap();
    assert_eq!(cleared.cells[0].value, 0);
    assert_eq!(cleared.cells[0].candidates.count(), 9);
}

#[test]
fn fast_set_refuses_frozen_cells() {
    let grid = FastGrid::parse("5").unwrap();
    assert!(grid.cells[0].frozen);
    assert!(grid.set(0, 3).is_none());
}

#[test]
fn fast_parse_rejects_non_digits() {
    assert!(FastGrid::parse("12x").is_none());
}

#[test]
fn fast_grid_checks() {
    let grid = FastGrid::parse(
        "961845327458723169237169584796358412524691873813274956182436795379582641645917238",
    )
    .unwrap();
    assert!(grid.is_complete());
    assert!(grid.is_valid());
    let empty = FastGrid::new();
    assert!(!empty.is_complete());
    assert!(empty.is_valid());
    assert_eq!(empty.to_string(), "0".repeat(81));
    let clash = FastGrid::new().set(0, 4).unwrap();
    assert!(clash.cells[0].value == 4);
    assert!(clash.is_valid());
}

#[test]
fn brute_force_fills_a_near_complete_grid() {
    let grid = FastGrid::parse(
        "530070000600195000098000060800060003400803001700020006060000280000419005000080079",
    )
    .unwrap();
    let solved = brute_force(grid).unwrap();
    assert_eq!(
        solved.to_string(),
        "534678912672195348198342567859761423426853791713924856961537284287419635345286179"
    );
}
