use election_import::catalog::build_catalog;
use election_import::entities::MunicipalType;
use election_import::error::ImportError;

fn row(cells: &[&str]) -> Vec<String> {
    cells.iter().map(|c| c.to_string()).collect()
}

fn sheet(rows: &[&[&str]]) -> Vec<Vec<String>> {
    rows.iter().map(|r| row(r)).collect()
}

fn counties_one() -> Vec<Vec<String>> {
    sheet(&[&["W", "Wayne"]])
}

fn base_municipalities() -> Vec<Vec<String>> {
    sheet(&[
        &["Alpha", "city/village", "W", "100"],
        &["Beta", "township", "W", "200"],
        &["Gamma", "township", "W", "300"],
    ])
}

fn resolve(precincts: Vec<Vec<String>>) -> election_import::partition::FinalPartition {
    let mut cat = build_catalog(&counties_one(), &base_municipalities()).expect("catalog");
    cat.resolve_rows(&precincts).expect("resolve");
    cat.finalize()
}

#[test]
fn two_single_code_rows_stay_separate() {
    let part = resolve(sheet(&[&["Wayne", "P1", "100"], &["Wayne", "P2", "200"]]));
    assert_eq!(part.municipalities.len(), 2);
    let a = &part.municipalities[0];
    let b = &part.municipalities[1];
    assert_eq!(a.fips_string(), "100");
    assert_eq!(b.fips_string(), "200");
    assert_eq!(a.name, "Alpha");
    assert_eq!(b.name, "Beta");
    assert!(a.mtype == MunicipalType::City);
    assert!(b.mtype == MunicipalType::Township);
    assert_eq!(a.precincts.len(), 1);
    assert_eq!(b.precincts.len(), 1);
    assert_eq!(a.precincts[0].name, "P1");
    assert_eq!(b.precincts[0].name, "P2");
}

#[test]
fn split_row_then_single_row_share_one_mixed_municipality() {
    let part = resolve(sheet(&[&["Wayne", "P1", "100", "200"], &["Wayne", "P2", "200"]]));
    assert_eq!(part.municipalities.len(), 1);
    let m = &part.municipalities[0];
    assert_eq!(m.fips_string(), "100,200");
    assert_eq!(m.name, "Alpha / Beta");
    assert!(m.mtype == MunicipalType::Mixed);
    assert_eq!(m.precincts.len(), 2);
    let mut names: Vec<&str> = m.precincts.iter().map(|p| p.name.as_str()).collect();
    names.sort();
    assert_eq!(names, vec!["P1", "P2"]);
    let mut merged: Vec<&str> = m.merged_from.iter().map(|s| s.as_str()).collect();
    merged.sort();
    assert_eq!(merged, vec!["100", "200"]);
}

#[test]
fn overlapping_split_rows_merge_transitively_in_either_order() {
    let forward = resolve(sheet(&[
        &["Wayne", "P1", "100", "200"],
        &["Wayne", "P2", "200", "300"],
    ]));
    let backward = resolve(sheet(&[
        &["Wayne", "P2", "200", "300"],
        &["Wayne", "P1", "100", "200"],
    ]));
    for part in [&forward, &backward] {
        assert_eq!(part.municipalities.len(), 1);
        let m = &part.municipalities[0];
        assert_eq!(m.fips_string(), "100,200,300");
        assert!(m.mtype == MunicipalType::Mixed);
        assert_eq!(m.precincts.len(), 2);
    }
}

#[test]
fn zero_precinct_township_is_filtered_with_warning() {
    let part = resolve(sheet(&[&["Wayne", "P1", "100"]]));
    assert_eq!(part.municipalities.len(), 1);
    assert_eq!(part.municipalities[0].fips_string(), "100");
    let mut filtered = part.filtered.clone();
    filtered.sort();
    assert_eq!(filtered, vec!["200".to_string(), "300".to_string()]);
    assert_eq!(part.warnings.len(), 2);
    let mut warned: Vec<&str> = part.warnings.iter().map(|w| w.name.as_str()).collect();
    warned.sort();
    assert_eq!(warned, vec!["Beta", "Gamma"]);
}

#[test]
fn zero_precinct_city_is_filtered_silently() {
    let part = resolve(sheet(&[&["Wayne", "P1", "200"]]));
    assert!(part.filtered.contains(&"100".to_string()));
    assert!(part.warnings.iter().all(|w| w.name != "Alpha"));
    assert_eq!(part.warnings.len(), 1);
    assert_eq!(part.warnings[0].name, "Gamma");
}

#[test]
fn merge_log_records_absorbed_codes_and_canonical() {
    let part = resolve(sheet(&[&["Wayne", "P1", "200", "100"]]));
    assert_eq!(part.merge_log.len(), 1);
    assert_eq!(part.merge_log[0].absorbed, "100,200");
    assert_eq!(part.merge_log[0].canonical, "100");
}

#[test]
fn unknown_municipal_type_fails() {
    let bad = sheet(&[&["Alpha", "hamlet", "W", "100"]]);
    match build_catalog(&counties_one(), &bad) {
        Err(ImportError::UnknownType { row, value }) => {
            assert_eq!(row, 0);
            assert_eq!(value, "hamlet");
        }
        other => panic!("expected UnknownType, got {:?}", other.map(|_| ())),
    }
}

#[test]
fn unknown_county_abbreviation_fails() {
    let bad = sheet(&[&["Alpha", "city/village", "X", "100"]]);
    match build_catalog(&counties_one(), &bad) {
        Err(ImportError::Resolution { sheet, row, value }) => {
            assert_eq!(sheet, "municipal-codes");
            assert_eq!(row, 0);
            assert_eq!(value, "X");
        }
        other => panic!("expected Resolution, got {:?}", other.map(|_| ())),
    }
}

#[test]
fn unresolved_fips_code_fails() {
    let mut cat = build_catalog(&counties_one(), &base_municipalities()).unwrap();
    let err = cat
        .resolve_rows(&sheet(&[&["Wayne", "P1", "999"]]))
        .unwrap_err();
    match err {
        ImportError::UnresolvedMunicipality { row, fips } => {
            assert_eq!(row, 0);
            assert_eq!(fips, "999");
        }
        other => panic!("expected UnresolvedMunicipality, got {:?}", other),
    }
}

#[test]
fn precinct_without_codes_fails() {
    let mut cat = build_catalog(&counties_one(), &base_municipalities()).unwrap();
    let err = cat
        .resolve_rows(&sheet(&[&["Wayne", "P1", "", "100"]]))
        .unwrap_err();
    match err {
        ImportError::UnassignedPrecinct { row, precinct, county } => {
            assert_eq!(row, 0);
            assert_eq!(precinct, "P1");
            assert_eq!(county, "Wayne");
        }
        other => panic!("expected UnassignedPrecinct, got {:?}", other),
    }
}

#[test]
fn unknown_precinct_county_fails() {
    let mut cat = build_catalog(&counties_one(), &base_municipalities()).unwrap();
    let err = cat
        .resolve_rows(&sheet(&[&["Oakland", "P1", "100"]]))
        .unwrap_err();
    match err {
        ImportError::Resolution { sheet, row, value } => {
            assert_eq!(sheet, "precincts");
            assert_eq!(row, 0);
            assert_eq!(value, "Oakland");
        }
        other => panic!("expected Resolution, got {:?}", other),
    }
}

#[test]
fn missing_county_cells_fail() {
    let bad = sheet(&[&["W"]]);
    match build_catalog(&bad, &base_municipalities()) {
        Err(ImportError::Resolution { sheet, row, .. }) => {
            assert_eq!(sheet, "counties");
            assert_eq!(row, 0);
        }
        other => panic!("expected Resolution, got {:?}", other.map(|_| ())),
    }
}

#[test]
fn later_split_absorbs_an_earlier_merge_product() {
    // 100,200 merge first; a later row referencing 100 resolves to the
    // merge product, so 300 joins the same municipality.
    let part = resolve(sheet(&[
        &["Wayne", "P1", "100", "200"],
        &["Wayne", "P2", "100", "300"],
    ]));
    assert_eq!(part.municipalities.len(), 1);
    let m = &part.municipalities[0];
    assert_eq!(m.fips_string(), "100,200,300");
    assert_eq!(m.precincts.len(), 2);
}
