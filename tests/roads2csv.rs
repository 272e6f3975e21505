use street_index::{
    DeduplicatedRoads, FinalizedGridPositon, GridPosition, InputStreetValue, ProcessedRoad,
    ProcessedRoadNames, StreetName, UnprocessedRoad, UnprocessedRoadNames,
};

fn pos(column: &str, row: usize) -> GridPosition {
    GridPosition { column: String::from(column), row }
}

fn entry(name: &str, column: &str, row: usize) -> InputStreetValue {
    InputStreetValue { street_name: StreetName(String::from(name)), position: pos(column, row) }
}

#[test]
fn test_deduplicate_streets() {
    let input = [
        entry("Valley View Road", "A", 4),
        entry("Valley View Road", "A", 5),
        entry("Valley View Road", "B", 6),
    ];

    // "Valley View Road" -> ["A4", "A5", "B6"]
    let output_expected = vec![(
        StreetName(String::from("Valley View Road")),
        vec![pos("A", 4), pos("A", 5), pos("B", 6)],
    )];

    assert_eq!(
        DeduplicatedRoads::from_streets(&input),
        DeduplicatedRoads { roads: output_expected }
    );
}

#[test]
fn test_format_street() {
    let street_grid_1 = pos("A", 9);
    let street_grid_2 = pos("I", 5);

    let road_pos_1 = FinalizedGridPositon::TwoRect(street_grid_1.clone(), street_grid_2);
    assert_eq!(street_grid_1.to_string(), String::from("A9"));
    assert_eq!(road_pos_1.to_string(), String::from("A9-I5"));
}

#[test]
fn single_cell_reference_text() {
    assert_eq!(FinalizedGridPositon::SingleRect(pos("AB", 12)).to_string(), String::from("AB12"));
    assert_eq!(pos("Z", 1234567).to_string(), String::from("Z1234567"));
    assert_eq!(pos("C", 10).to_string(), String::from("C10"));
}

#[test]
fn dedup_collapses_repeats_and_sorts() {
    let input = [
        entry("Mill Lane", "B", 2),
        entry("High Street", "AA", 1),
        entry("Mill Lane", "B", 2),
        entry("High Street", "Z", 3),
        entry("High Street", "Z", 1),
        entry("Mill Lane", "A", 7),
    ];
    let expected = vec![
        (
            StreetName(String::from("High Street")),
            vec![pos("Z", 1), pos("Z", 3), pos("AA", 1)],
        ),
        (StreetName(String::from("Mill Lane")), vec![pos("A", 7), pos("B", 2)]),
    ];
    assert_eq!(DeduplicatedRoads::from_streets(&input).roads, expected);
}

#[test]
fn dedup_of_no_entries_is_empty() {
    assert!(DeduplicatedRoads::from_streets(&[]).roads.is_empty());
}

#[test]
fn dedup_names_in_lexicographic_order() {
    let input = [entry("Oak", "A", 1), entry("Oak Lane", "A", 1), entry("Birch", "A", 1)];
    let names: Vec<String> = DeduplicatedRoads::from_streets(&input)
        .roads
        .into_iter()
        .map(|(n, _)| n.0)
        .collect();
    assert_eq!(names, vec![String::from("Birch"), String::from("Oak"), String::from("Oak Lane")]);
}

#[test]
fn dedup_ignores_input_order() {
    let input = vec![
        entry("Mill Lane", "B", 2),
        entry("High Street", "AA", 1),
        entry("Mill Lane", "C", 2),
        entry("High Street", "Z", 3),
        entry("Station Road", "D", 4),
    ];
    let mut reversed = input.clone();
    reversed.reverse();
    let mut rotated = input.clone();
    rotated.rotate_left(2);
    let a = DeduplicatedRoads::from_streets(&input);
    assert_eq!(a, DeduplicatedRoads::from_streets(&reversed));
    assert_eq!(a, DeduplicatedRoads::from_streets(&rotated));
}

#[test]
fn classification_boundaries() {
    let input = [
        entry("One Cell Road", "A", 1),
        entry("Two Cell Road", "A", 1),
        entry("Two Cell Road", "B", 1),
        entry("Three Cell Road", "A", 1),
        entry("Three Cell Road", "A", 2),
        entry("Three Cell Road", "B", 1),
    ];
    let (processed, unprocessed) = DeduplicatedRoads::from_streets(&input).process();
    assert_eq!(processed.processed.len(), 2);
    assert_eq!(processed.processed[0].name, StreetName(String::from("One Cell Road")));
    assert!(matches!(processed.processed[0].position, FinalizedGridPositon::SingleRect(_)));
    assert_eq!(processed.processed[1].name, StreetName(String::from("Two Cell Road")));
    assert!(matches!(processed.processed[1].position, FinalizedGridPositon::TwoRect(_, _)));
    assert_eq!(unprocessed.unprocessed.len(), 1);
    assert_eq!(unprocessed.unprocessed[0].name, StreetName(String::from("Three Cell Road")));
    assert_eq!(unprocessed.unprocessed[0].positions, vec![pos("A", 1), pos("A", 2), pos("B", 1)]);
}

#[test]
fn street_without_positions_is_dropped() {
    let roads = DeduplicatedRoads {
        roads: vec![
            (StreetName(String::from("Empty Road")), vec![]),
            (StreetName(String::from("Full Road")), vec![pos("C", 3)]),
        ],
    };
    let (processed, unprocessed) = roads.process();
    assert_eq!(processed.processed.len(), 1);
    assert_eq!(processed.processed[0].name, StreetName(String::from("Full Road")));
    assert!(unprocessed.unprocessed.is_empty());
}

#[test]
fn pair_keeps_sorted_order() {
    let input = [entry("Bridge Street", "I", 5), entry("Bridge Street", "A", 9)];
    let (processed, _) = DeduplicatedRoads::from_streets(&input).process();
    assert_eq!(processed.processed[0].position.to_string(), String::from("A9-I5"));
}

#[test]
fn processed_csv_text() {
    let names = ProcessedRoadNames {
        processed: vec![
            ProcessedRoad {
                name: StreetName(String::from("Bridge Street")),
                position: FinalizedGridPositon::TwoRect(pos("A", 9), pos("I", 5)),
            },
            ProcessedRoad {
                name: StreetName(String::from("Mill Lane")),
                position: FinalizedGridPositon::SingleRect(pos("B", 2)),
            },
        ],
    };
    assert_eq!(names.to_csv(), String::from("Bridge Street\tA9-I5\r\nMill Lane\tB2"));
    assert_eq!(ProcessedRoadNames { processed: vec![] }.to_csv(), String::new());
}

#[test]
fn unprocessed_csv_text() {
    let names = UnprocessedRoadNames {
        unprocessed: vec![
            UnprocessedRoad {
                name: StreetName(String::from("Ring Road")),
                positions: vec![pos("A", 1), pos("A", 2), pos("B", 1)],
            },
            UnprocessedRoad {
                name: StreetName(String::from("Loop")),
                positions: vec![pos("C", 3), pos("D", 3), pos("D", 14)],
            },
        ],
    };
    assert_eq!(names.to_csv(), String::from("Ring Road\tA1\tA2\tB1\r\nLoop\tC3\tD3\tD14"));
}

#[test]
fn position_order_and_equality() {
    assert!(pos("Z", 9).less_than(&pos("AA", 1)));
    assert!(pos("A", 2).less_than(&pos("B", 1)));
    assert!(pos("B", 1).less_than(&pos("B", 2)));
    assert!(!pos("B", 2).less_than(&pos("B", 2)));
    assert!(pos("B", 2).same_as(&pos("B", 2)));
    assert!(!pos("B", 2).same_as(&pos("B", 3)));
}
