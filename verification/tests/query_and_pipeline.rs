use election_import::pipeline::build_import_plan;
use election_import::query::{ElectionResult, municipality_summary, sum_votes};
use election_import::error::Log;

fn row(cells: &[&str]) -> Vec<String> {
    cells.iter().map(|c| c.to_string()).collect()
}

fn sheet(rows: &[&[&str]]) -> Vec<Vec<String>> {
    rows.iter().map(|r| row(r)).collect()
}

fn result(name: &str, votes: usize) -> ElectionResult {
    ElectionResult { name: name.to_string(), votes }
}

#[test]
fn sum_votes_adds_exactly() {
    let rs = vec![result("Alice", 120), result("Bob", 45), result("Cara", 0)];
    assert_eq!(sum_votes(&rs), Some(165));
    assert_eq!(sum_votes(&Vec::new()), Some(0));
}

#[test]
fn sum_votes_reports_unrepresentable_totals() {
    let rs = vec![result("Alice", usize::MAX), result("Bob", 1)];
    assert_eq!(sum_votes(&rs), None);
}

#[test]
fn municipality_summary_groups_by_fips() {
    let rows = vec![result("Alice", 10), result("Bob", 7), result("Alice", 3)];
    let keys = vec!["100".to_string(), "100".to_string(), "200".to_string()];
    let m = municipality_summary(
        &"Alpha".to_string(),
        &"100".to_string(),
        &rows,
        &keys,
    )
    .unwrap()
    .unwrap();
    assert_eq!(m.name, "Alpha");
    assert_eq!(m.fips, "100");
    assert_eq!(m.election.total_votes, 17);
    assert_eq!(m.election.candidates.len(), 2);
    assert_eq!(m.election.candidates[0].name, "Alice");
    assert_eq!(m.election.candidates[1].name, "Bob");
}

#[test]
fn municipality_summary_skips_keys_without_rows() {
    let rows = vec![result("Alice", 10)];
    let keys = vec!["100".to_string()];
    let none = municipality_summary(
        &"Beta".to_string(),
        &"200".to_string(),
        &rows,
        &keys,
    )
    .unwrap();
    assert!(none.is_none());
}

#[test]
fn full_plan_from_small_workbooks() {
    let counties = sheet(&[&["W", "Wayne"]]);
    let codes = sheet(&[
        &["Alpha", "city/village", "W", "100"],
        &["Beta", "township", "W", "200"],
    ]);
    let precincts = sheet(&[
        &["Wayne", "P1", "100", "200"],
        &["Wayne", "P2", "200"],
    ]);
    let first_cell = "November 5, 2024, Wayne County Official Results".to_string();
    let gov = vec![
        {
            let mut h = vec![String::new(); 8];
            h.push("Governor".to_string());
            h
        },
        {
            let mut h = vec![String::new(); 8];
            h.push("Alice".to_string());
            h
        },
        row(&[]),
        row(&[]),
        {
            let mut d = vec![String::new(); 8];
            d[0] = "Wayne".to_string();
            d[1] = "P1".to_string();
            d.push("42".to_string());
            d
        },
    ];
    let plan = build_import_plan(
        &counties,
        &codes,
        &precincts,
        &first_cell,
        &vec![("gov".to_string(), gov)],
    )
    .unwrap();
    assert_eq!(plan.election_name, "2024 Wayne County");
    assert_eq!(plan.date.iso_string(), "2024-11-05");
    assert_eq!(plan.county_names, vec!["Wayne".to_string()]);
    assert_eq!(plan.partition.municipalities.len(), 1);
    let m = &plan.partition.municipalities[0];
    assert_eq!(m.fips_string(), "100,200");
    assert_eq!(m.name, "Alpha / Beta");
    assert_eq!(plan.n_precincts, 2);
    assert_eq!(plan.sheets.len(), 1);
    let sp = &plan.sheets[0];
    assert_eq!(sp.offices, vec!["Governor".to_string()]);
    let cand = sp.columns[0].candidate.as_ref().unwrap();
    assert_eq!(cand.name, "Alice");
    assert_eq!(cand.results.len(), 1);
    assert_eq!(cand.results[0].votes, "42");
    assert_eq!(cand.results[0].precinct, 0);
}

#[test]
fn log_carries_its_severity() {
    let warning: Log<String> = Log::Warning("two precincts".to_string());
    match warning {
        Log::Warning(text) => assert_eq!(text, "two precincts"),
        _ => panic!("expected a warning"),
    }
}

#[test]
fn full_plan_reports_the_first_unresolvable_result_cell() {
    let counties = sheet(&[&["W", "Wayne"]]);
    let codes = sheet(&[&["Alpha", "city/village", "W", "100"]]);
    let precincts = sheet(&[&["Wayne", "P1", "100"]]);
    let first_cell = "November 5, 2024, Wayne County Official Results".to_string();
    let gov = vec![
        {
            let mut h = vec![String::new(); 8];
            h.push("Governor".to_string());
            h
        },
        {
            let mut h = vec![String::new(); 8];
            h.push("Alice".to_string());
            h
        },
        row(&[]),
        row(&[]),
        {
            // row 4: resolvable zero-vote cell, skipped without a lookup
            let mut d = vec![String::new(); 8];
            d[0] = "Wayne".to_string();
            d[1] = "P1".to_string();
            d.push("0".to_string());
            d
        },
        {
            // row 5: the first surviving cell naming an uncataloged precinct
            let mut d = vec![String::new(); 8];
            d[0] = "Wayne".to_string();
            d[1] = "P9".to_string();
            d.push("7".to_string());
            d
        },
    ];
    let err = match build_import_plan(
        &counties,
        &codes,
        &precincts,
        &first_cell,
        &vec![("gov".to_string(), gov)],
    ) {
        Ok(_) => panic!("expected the import to fail"),
        Err(e) => e,
    };
    match err {
        election_import::error::ImportError::Resolution { sheet, row, value } => {
            assert_eq!(sheet, "gov");
            assert_eq!(row, 5);
            assert_eq!(value, "P9");
        },
        other => panic!("unexpected error {:?}", other),
    }
}
