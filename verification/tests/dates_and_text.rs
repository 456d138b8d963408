use election_import::dates::{extract_date_and_remainder, strip_official_suffix, election_name};
use election_import::error::ImportError;
use election_import::text::{
    str_lt, str_eq, str_ends_with, find_char, find_sub, trim_spaces, join_with, u64_dec_string,
    i64_dec_string, sorted_insert, vec_contains_str,
};
use election_import::shapes::{TwoKeyMap, classify_shape_name};

#[test]
fn official_results_cell_yields_date_and_name() {
    let (date, remainder) =
        extract_date_and_remainder("November 5, 2024, Wayne County Official Results").unwrap();
    assert_eq!(date.year, 2024);
    assert_eq!(date.month, 11);
    assert_eq!(date.day, 5);
    assert_eq!(date.iso_string(), "2024-11-05");
    let title = strip_official_suffix(&remainder);
    assert_eq!(title, "Wayne County");
    let name = election_name(date.year, &title);
    assert_eq!(name, "2024 Wayne County");
}

#[test]
fn text_without_comma_fails_the_date_parse() {
    match extract_date_and_remainder("no date here") {
        Err(ImportError::DateFormat) => {}
        other => panic!("expected DateFormat, got {:?}", other.map(|_| ())),
    }
}

#[test]
fn malformed_leading_text_fails_the_date_parse() {
    match extract_date_and_remainder("Pizza 99, 20XY, Results") {
        Err(ImportError::DateFormat) => {}
        other => panic!("expected DateFormat, got {:?}", other.map(|_| ())),
    }
}

#[test]
fn title_without_official_suffix_is_only_trimmed() {
    assert_eq!(strip_official_suffix("  Wayne County  "), "Wayne County");
}

#[test]
fn lexicographic_order_on_strings() {
    assert!(str_lt("100", "200"));
    assert!(!str_lt("200", "100"));
    assert!(str_lt("10", "100"));
    assert!(!str_lt("abc", "abc"));
    assert!(str_eq("abc", "abc"));
    assert!(!str_eq("abc", "abd"));
}

#[test]
fn suffix_and_search_helpers() {
    assert!(str_ends_with("Scattered (WI)*", "(WI)*"));
    assert!(!str_ends_with("Alice", "(WI)*"));
    assert_eq!(find_char("November 5, 2024", ','), Some(10));
    assert_eq!(find_char("no comma", ','), None);
    assert_eq!(find_sub("Wayne County Official Results", "Official"), Some(13));
    assert_eq!(find_sub("Wayne County", "Official"), None);
}

#[test]
fn trimming_and_joining() {
    assert_eq!(trim_spaces(" \t hello \r\n"), "hello");
    assert_eq!(trim_spaces("   "), "");
    let parts = vec!["Alpha".to_string(), "Beta".to_string(), "Gamma".to_string()];
    assert_eq!(join_with(&parts, " / "), "Alpha / Beta / Gamma");
    assert_eq!(join_with(&vec!["100".to_string()], ","), "100");
    assert_eq!(join_with(&Vec::new(), ","), "");
}

#[test]
fn decimal_rendering() {
    assert_eq!(u64_dec_string(0), "0");
    assert_eq!(u64_dec_string(2024), "2024");
    assert_eq!(u64_dec_string(1000007), "1000007");
    assert_eq!(i64_dec_string(-45), "-45");
    assert_eq!(i64_dec_string(7), "7");
}

#[test]
fn sorted_insert_keeps_order_and_drops_duplicates() {
    let mut v = vec!["200".to_string()];
    sorted_insert(&mut v, "100".to_string());
    assert_eq!(v, vec!["100", "200"]);
    sorted_insert(&mut v, "300".to_string());
    assert_eq!(v, vec!["100", "200", "300"]);
    sorted_insert(&mut v, "200".to_string());
    assert_eq!(v, vec!["100", "200", "300"]);
    assert!(vec_contains_str(&v, "200"));
    assert!(!vec_contains_str(&v, "250"));
}

#[test]
fn two_key_map_orders_by_both_keys() {
    let mut m: TwoKeyMap<String, String, String, String> = TwoKeyMap::new();
    m.insert("Wayne".into(), "B".into(), "2".into(), "township".into());
    m.insert("Allegan".into(), "Z".into(), "1".into(), "city/village".into());
    m.insert("Wayne".into(), "A".into(), "3".into(), "township".into());
    let ordered = m.iter_ordered();
    let keys: Vec<(String, String)> = ordered.into_iter().map(|e| (e.0, e.1)).collect();
    assert_eq!(
        keys,
        vec![
            ("Allegan".to_string(), "Z".to_string()),
            ("Wayne".to_string(), "A".to_string()),
            ("Wayne".to_string(), "B".to_string()),
        ]
    );
}

#[test]
fn shape_names_classify_by_suffix() {
    let (name, kind) = classify_shape_name("Canton (Township)");
    assert_eq!(name, "Canton");
    assert_eq!(kind, "township");
    let (name, kind) = classify_shape_name("Dearborn (City)");
    assert_eq!(name, "Dearborn");
    assert_eq!(kind, "city/village");
}

#[test]
fn two_key_map_sort_is_stable_and_repeatable() {
    let mut m: TwoKeyMap<String, String, String, String> = TwoKeyMap::new();
    m.insert("Wayne".into(), "A".into(), "first".into(), "township".into());
    m.insert("Allegan".into(), "Z".into(), "1".into(), "city/village".into());
    m.insert("Wayne".into(), "A".into(), "second".into(), "township".into());
    let once = m.iter_ordered();
    // entries with equal keys keep their insertion order
    assert_eq!(once[0].2, "1");
    assert_eq!(once[1].2, "first");
    assert_eq!(once[2].2, "second");
    // the map is untouched: a second traversal yields the same sequence
    let twice = m.iter_ordered();
    assert_eq!(once, twice);
}
