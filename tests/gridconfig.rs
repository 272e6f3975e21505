use street_index::gridconfig::{cell_positions, number_to_alphabet_value};
use street_index::{
    Bbox, DeduplicatedRoads, FinalizedGridPositon, Grid, GridConfig, GridError, GridPosition,
    InputStreetValue, Millimeter, StreetName, StreetNameRect,
};

fn mm(v: i32) -> Millimeter {
    Millimeter::from_whole(v)
}

fn page() -> Bbox {
    Bbox { width: mm(290), height: mm(210) }
}

fn cells(size: i32) -> GridConfig {
    GridConfig { cell_height: mm(size), cell_width: mm(size) }
}

fn rect(name: &str, x: i32, y: i32, w: i32, h: i32) -> StreetNameRect {
    StreetNameRect {
        street_name: String::from(name),
        x_from_left: mm(x),
        y_from_top: mm(y),
        width: mm(w),
        height: mm(h),
    }
}

fn pos(column: &str, row: usize) -> GridPosition {
    GridPosition { column: String::from(column), row }
}

#[test]
fn test_number_to_alphabet_value() {
    assert_eq!(number_to_alphabet_value(0), String::from("A"));
    assert_eq!(number_to_alphabet_value(1), String::from("B"));
    assert_eq!(number_to_alphabet_value(6), String::from("G"));
    assert_eq!(number_to_alphabet_value(26), String::from("AA"));
    assert_eq!(number_to_alphabet_value(27), String::from("AB"));
    assert_eq!(number_to_alphabet_value(225), String::from("HR"));
}

#[test]
fn label_of_last_single_letter_and_beyond() {
    assert_eq!(number_to_alphabet_value(25), String::from("Z"));
    assert_eq!(number_to_alphabet_value(51), String::from("AZ"));
    assert_eq!(number_to_alphabet_value(52), String::from("BA"));
    assert_eq!(number_to_alphabet_value(701), String::from("ZZ"));
    assert_eq!(number_to_alphabet_value(702), String::from("AAA"));
    assert_eq!(number_to_alphabet_value(80000), String::from("DNHY"));
}

#[test]
fn labels_distinct_and_ordered_up_to_a_large_index() {
    let mut previous = number_to_alphabet_value(0);
    for n in 1..=100000usize {
        let label = number_to_alphabet_value(n);
        assert_ne!(label, previous);
        assert!(
            previous.len() < label.len() || (previous.len() == label.len() && previous < label),
            "label {} is not after {}",
            label,
            previous
        );
        previous = label;
    }
}

#[test]
fn largest_index_is_not_truncated() {
    let label = number_to_alphabet_value(usize::MAX);
    assert!(label.chars().all(|c| c.is_ascii_uppercase()));
    if usize::MAX as u64 == u64::MAX {
        assert_eq!(label, String::from("GKGWBYLWRXTLPP"));
    }
}

#[test]
fn rect_inside_one_cell_gives_one_position() {
    let r = cell_positions(&rect("Mill Lane", 22, 41, 10, 5), &cells(20)).unwrap();
    assert_eq!(r, vec![pos("B", 3)]);
}

#[test]
fn rect_across_two_columns_gives_two_positions_in_one_row() {
    let r = cell_positions(&rect("High Street", 15, 5, 10, 4), &cells(20)).unwrap();
    assert_eq!(r, vec![pos("A", 1), pos("B", 1)]);
}

#[test]
fn rect_across_two_rows_gives_two_positions_in_one_column() {
    let r = cell_positions(&rect("Station Road", 45, 18, 4, 6), &cells(20)).unwrap();
    assert_eq!(r, vec![pos("C", 1), pos("C", 2)]);
}

#[test]
fn rect_across_both_gives_four_corners() {
    let r = cell_positions(&rect("Long Avenue", 15, 15, 50, 30), &cells(20)).unwrap();
    assert_eq!(r, vec![pos("A", 1), pos("A", 3), pos("D", 1), pos("D", 3)]);
}

#[test]
fn rect_on_a_cell_edge_belongs_to_the_next_cell() {
    let r = cell_positions(&rect("Edge Street", 0, 0, 20, 0), &cells(20)).unwrap();
    assert_eq!(r, vec![pos("A", 1), pos("B", 1)]);
}

#[test]
fn fractional_millimetres_are_exact() {
    let r = StreetNameRect {
        street_name: String::from("Narrow Way"),
        x_from_left: Millimeter(19_999),
        y_from_top: Millimeter(0),
        width: Millimeter(1),
        height: Millimeter(500),
    };
    assert_eq!(cell_positions(&r, &cells(20)).unwrap(), vec![pos("A", 1), pos("B", 1)]);
}

#[test]
fn zero_cell_size_is_refused() {
    let config = GridConfig { cell_height: mm(20), cell_width: mm(0) };
    assert_eq!(Grid::new(page(), config).err(), Some(GridError::ConfigError));
    let config = GridConfig { cell_height: mm(-5), cell_width: mm(20) };
    assert_eq!(Grid::new(page(), config).err(), Some(GridError::ConfigError));
    assert_eq!(
        cell_positions(&rect("Any Road", 1, 1, 1, 1), &config),
        Err(GridError::ConfigError)
    );
}

#[test]
fn negative_geometry_is_refused() {
    let mut grid = Grid::new(page(), cells(20)).unwrap();
    assert_eq!(grid.insert_street(rect("Back Lane", -1, 0, 5, 5)), Err(GridError::GeometryError));
    assert_eq!(grid.insert_street(rect("Back Lane", 0, -1, 5, 5)), Err(GridError::GeometryError));
    assert_eq!(grid.insert_street(rect("Back Lane", 0, 0, -5, 5)), Err(GridError::GeometryError));
    assert_eq!(grid.insert_street(rect("Back Lane", 0, 0, 5, -5)), Err(GridError::GeometryError));
    assert!(grid.street_names().is_empty());
}

#[test]
fn insert_records_one_entry_per_corner() {
    let mut grid = Grid::new(page(), cells(50)).unwrap();
    assert_eq!(grid.insert_street(rect("Valley View Road", 10, 160, 80, 20)), Ok(()));
    assert_eq!(grid.insert_street(rect("Mill Lane", 120, 10, 10, 5)), Ok(()));
    let name = |s: &str| StreetName(String::from(s));
    assert_eq!(
        grid.street_names(),
        vec![
            InputStreetValue { street_name: name("Valley View Road"), position: pos("A", 4) },
            InputStreetValue { street_name: name("Valley View Road"), position: pos("B", 4) },
            InputStreetValue { street_name: name("Mill Lane"), position: pos("C", 1) },
        ]
    );
}

#[test]
fn canterbury_road_end_to_end() {
    let mut grid = Grid::new(page(), cells(20)).unwrap();
    grid.insert_street(rect("Canterbury Road", 30, 30, 50, 8)).unwrap();
    let entries = grid.street_names();
    let positions: Vec<String> = entries.iter().map(|e| e.position.to_string()).collect();
    assert_eq!(positions, vec![String::from("B2"), String::from("E2")]);
    let (processed, unprocessed) = DeduplicatedRoads::from_streets(&entries).process();
    assert_eq!(processed.processed.len(), 1);
    assert_eq!(processed.processed[0].name, StreetName(String::from("Canterbury Road")));
    assert!(matches!(processed.processed[0].position, FinalizedGridPositon::TwoRect(_, _)));
    assert_eq!(processed.processed[0].position.to_string(), String::from("B2-E2"));
    assert!(unprocessed.unprocessed.is_empty());
    assert_eq!(processed.to_csv(), String::from("Canterbury Road\tB2-E2"));
}

#[test]
fn grid_keeps_page_and_cells() {
    let grid = Grid::new(page(), cells(50)).unwrap();
    assert_eq!(grid.bbox, page());
    assert_eq!(grid.config, cells(50));
    assert_eq!(Millimeter::from_whole(7), Millimeter(7000));
}
