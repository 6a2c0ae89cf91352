use kvs::{log_path, parse_log_name, sorted_log_gens};

#[test]
fn log_path_joins_directory_and_name() {
    assert_eq!(log_path("/tmp/store", 12), "/tmp/store/12.log");
    assert_eq!(log_path("/tmp/store/", 3), "/tmp/store/3.log");
    assert_eq!(log_path("", 0), "0.log");
    assert_eq!(log_path("d", u64::MAX), "d/18446744073709551615.log");
}

#[test]
fn parse_log_name_reads_generations() {
    assert_eq!(parse_log_name("7.log"), Some(7));
    assert_eq!(parse_log_name("+7.log"), Some(7));
    assert_eq!(parse_log_name("007.log"), Some(7));
    assert_eq!(parse_log_name("18446744073709551615.log"), Some(u64::MAX));
    assert_eq!(parse_log_name("18446744073709551616.log"), None);
    assert_eq!(parse_log_name("a.log"), None);
    assert_eq!(parse_log_name("7.txt"), None);
    assert_eq!(parse_log_name(".log"), None);
    assert_eq!(parse_log_name("+.log"), None);
    assert_eq!(parse_log_name("-1.log"), None);
}

#[test]
fn sorted_log_gens_sorts_and_filters() {
    let names: Vec<String> = ["10.log", "2.log", "notes.txt", "1.log", "02.log", "x.log"]
        .iter()
        .map(|s| s.to_string())
        .collect();
    assert_eq!(sorted_log_gens(&names), vec![1, 2, 10]);
    assert_eq!(sorted_log_gens(&Vec::new()), Vec::<u64>::new());
}
