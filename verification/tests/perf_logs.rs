use lian_world::storage::perf_log::{
    is_perf_log_name, logs_to_remove, name_less, perf_log_file_name, sort_names,
};

fn strings(v: &[&str]) -> Vec<String> {
    v.iter().map(|s| s.to_string()).collect()
}

#[test]
fn names_compare_like_strings() {
    assert!(name_less("perf_1.json", "perf_2.json"));
    assert!(!name_less("perf_2.json", "perf_1.json"));
    assert!(name_less("perf_1", "perf_1.json"));
    assert!(!name_less("abc", "abc"));
    assert!(name_less("", "a"));
    assert!(name_less("Z", "a"));
}

#[test]
fn sort_names_matches_std_sort() {
    let names = strings(&["perf_3.json", "b", "perf_1.json", "a", "perf_2.json", "a"]);
    let mut expected = names.clone();
    expected.sort();
    assert_eq!(sort_names(&names), expected);
    assert!(sort_names(&Vec::new()).is_empty());
}

#[test]
fn log_names_are_recognised() {
    assert!(is_perf_log_name("perf_20240101120000.json"));
    assert!(is_perf_log_name("perf_.json"));
    assert!(!is_perf_log_name("perf.json"));
    assert!(!is_perf_log_name("perf_1.txt"));
    assert!(!is_perf_log_name("notes_perf_1.json"));
    assert!(!is_perf_log_name("json"));
}

#[test]
fn log_file_name_drops_separators() {
    assert_eq!(perf_log_file_name("2024-01-02 03:04:05"), "perf_20240102030405.json");
    assert_eq!(perf_log_file_name("1700000000"), "perf_1700000000.json");
    assert!(is_perf_log_name(&perf_log_file_name("x y")));
}

#[test]
fn oldest_logs_are_removed_first() {
    let names = strings(&["perf_3.json", "readme.txt", "perf_1.json", "perf_4.json", "perf_2.json"]);
    assert_eq!(logs_to_remove(&names, 2), strings(&["perf_1.json", "perf_2.json"]));
    assert_eq!(logs_to_remove(&names, 3), strings(&["perf_1.json"]));
    assert!(logs_to_remove(&names, 4).is_empty());
    assert!(logs_to_remove(&names, 0).is_empty());
}
