use election_import::lookup::PairMap;
use election_import::results::build_sheet_plan;
use election_import::error::ImportError;

fn row(cells: &[&str]) -> Vec<String> {
    cells.iter().map(|c| c.to_string()).collect()
}

fn header_row(names: &[&str]) -> Vec<String> {
    let mut cells = vec![String::new(); 8];
    for n in names {
        cells.push(n.to_string());
    }
    cells
}

fn data_row(county: &str, precinct: &str, votes: &[&str]) -> Vec<String> {
    let mut cells = vec![String::new(); 8];
    cells[0] = county.to_string();
    cells[1] = precinct.to_string();
    for v in votes {
        cells.push(v.to_string());
    }
    cells
}

fn one_precinct_map() -> PairMap<usize> {
    let mut pmap = PairMap::new();
    pmap.set("Wayne".to_string(), "P1".to_string(), 0);
    pmap
}

#[test]
fn blank_header_column_inherits_the_office() {
    let sheet = vec![
        header_row(&["Governor", ""]),
        header_row(&["Alice", "Bob"]),
        row(&[]),
        row(&[]),
        data_row("Wayne", "P1", &["5", "7"]),
    ];
    let plan = build_sheet_plan(&sheet, &one_precinct_map(), &"gov".to_string()).unwrap();
    assert_eq!(plan.offices, vec!["Governor".to_string()]);
    assert_eq!(plan.columns.len(), 2);
    assert!(plan.columns[0].new_office);
    assert!(!plan.columns[1].new_office);
    let a = plan.columns[0].candidate.as_ref().unwrap();
    let b = plan.columns[1].candidate.as_ref().unwrap();
    assert_eq!(a.name, "Alice");
    assert_eq!(b.name, "Bob");
    assert_eq!(a.office, Some(0));
    assert_eq!(b.office, Some(0));
    assert_eq!(a.results.len(), 1);
    assert_eq!(a.results[0].votes, "5");
    assert_eq!(a.results[0].precinct, 0);
    assert_eq!(b.results[0].votes, "7");
}

#[test]
fn zero_vote_cells_produce_no_result() {
    let sheet = vec![
        header_row(&["Governor"]),
        header_row(&["Alice"]),
        row(&[]),
        row(&[]),
        data_row("Wayne", "P1", &["0"]),
    ];
    let plan = build_sheet_plan(&sheet, &one_precinct_map(), &"gov".to_string()).unwrap();
    let a = plan.columns[0].candidate.as_ref().unwrap();
    assert!(a.results.is_empty());
}

#[test]
fn write_in_candidates_produce_no_candidate_and_no_results() {
    let sheet = vec![
        header_row(&["Governor", ""]),
        header_row(&["Alice", "Scattered (WI)*"]),
        row(&[]),
        row(&[]),
        data_row("Wayne", "P1", &["5", "9"]),
    ];
    let plan = build_sheet_plan(&sheet, &one_precinct_map(), &"gov".to_string()).unwrap();
    assert!(plan.columns[0].candidate.is_some());
    assert!(plan.columns[1].candidate.is_none());
}

#[test]
fn header_names_are_trimmed() {
    let sheet = vec![
        header_row(&["  Governor  "]),
        header_row(&["Alice"]),
        row(&[]),
        row(&[]),
        data_row("Wayne", "P1", &["5"]),
    ];
    let plan = build_sheet_plan(&sheet, &one_precinct_map(), &"gov".to_string()).unwrap();
    assert_eq!(plan.offices, vec!["Governor".to_string()]);
}

#[test]
fn candidate_before_any_office_has_no_office() {
    let sheet = vec![
        header_row(&["", "Governor"]),
        header_row(&["Early", "Alice"]),
        row(&[]),
        row(&[]),
        data_row("Wayne", "P1", &["1", "2"]),
    ];
    let plan = build_sheet_plan(&sheet, &one_precinct_map(), &"gov".to_string()).unwrap();
    let early = plan.columns[0].candidate.as_ref().unwrap();
    let alice = plan.columns[1].candidate.as_ref().unwrap();
    assert_eq!(early.office, None);
    assert_eq!(alice.office, Some(0));
}

#[test]
fn unknown_precinct_in_results_fails_with_sheet_and_row() {
    let sheet = vec![
        header_row(&["Governor"]),
        header_row(&["Alice"]),
        row(&[]),
        row(&[]),
        data_row("Wayne", "Nowhere", &["5"]),
    ];
    let err = build_sheet_plan(&sheet, &one_precinct_map(), &"gov".to_string()).unwrap_err();
    match err {
        ImportError::Resolution { sheet, row, value } => {
            assert_eq!(sheet, "gov");
            assert_eq!(row, 4);
            assert_eq!(value, "Nowhere");
        }
        other => panic!("expected Resolution, got {:?}", other),
    }
}

#[test]
fn zero_vote_cell_skips_the_precinct_lookup() {
    // The original never resolves a precinct for a "0" cell, so an
    // unknown precinct with only zero votes does not fail.
    let sheet = vec![
        header_row(&["Governor"]),
        header_row(&["Alice"]),
        row(&[]),
        row(&[]),
        data_row("Wayne", "Nowhere", &["0"]),
    ];
    let plan = build_sheet_plan(&sheet, &one_precinct_map(), &"gov".to_string()).unwrap();
    let a = plan.columns[0].candidate.as_ref().unwrap();
    assert!(a.results.is_empty());
}
