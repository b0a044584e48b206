use common::grid::GridCell;
use common::proto::CellState;
use common::version::{const_parse_u16, parse_u16, Version};

#[test]
fn version_packs_major_and_minor() {
    let version = Version::new(3, 17);
    assert_eq!(version.into_raw(), 3 * 64 + 17);
    assert_eq!(version.major(), 3);
    assert_eq!(version.minor(), 17);
    assert_eq!(Version::from_raw(0xFFFF).major(), 1023);
    assert_eq!(Version::from_raw(0xFFFF).minor(), 63);
    assert!(Version::new(1, 0) > Version::new(0, 63));
}

#[test]
fn cell_state_reads_back() {
    let state = CellState::from_grid_cell(&GridCell { dots: 3, owner: 5, capacity: 4 });
    assert_eq!(state.owner(), Some(5));
    assert_eq!(state.count(), 3);
    let empty = CellState::from_grid_cell(&GridCell { dots: 1, owner: 0, capacity: 2 });
    assert_eq!(empty.owner(), None);
    assert_eq!(empty.count(), 1);
}

#[test]
fn numbers_are_read_in_any_base_up_to_36() {
    assert_eq!(parse_u16("0", 10), Some(0));
    assert_eq!(parse_u16("", 10), Some(0));
    assert_eq!(parse_u16("65535", 10), Some(65535));
    assert_eq!(parse_u16("65536", 10), None);
    assert_eq!(parse_u16("0065535", 10), Some(65535));
    assert_eq!(parse_u16("ffff", 16), Some(65535));
    assert_eq!(parse_u16("FfFf", 16), Some(65535));
    assert_eq!(parse_u16("10000", 16), None);
    assert_eq!(parse_u16("zz", 36), Some(35 * 36 + 35));
    assert_eq!(parse_u16("101", 2), Some(5));
    assert_eq!(parse_u16("102", 2), None);
    assert_eq!(parse_u16("1g", 16), None);
    assert_eq!(parse_u16("-1", 10), None);
    assert_eq!(parse_u16("1", 1), None);
    assert_eq!(parse_u16("1", 37), None);
    assert_eq!(const_parse_u16("17", 10), 17);
    assert_eq!(const_parse_u16("17", 8), 15);
}
