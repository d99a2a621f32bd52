use csvgen::csv_truncate;

fn five() -> Vec<String> {
    vec!["a", "b", "c", "d", "e"].into_iter().map(|s| s.to_string()).collect()
}

#[test]
fn keep_three_of_five() {
    assert_eq!(csv_truncate(&five(), 3), vec!["a", "b", "c"]);
}

#[test]
fn keep_ten_of_five_gives_all_five() {
    assert_eq!(csv_truncate(&five(), 10), five());
    assert_eq!(csv_truncate(&five(), u64::MAX), five());
}

#[test]
fn keep_none_or_exactly_all() {
    assert_eq!(csv_truncate(&five(), 0), Vec::<String>::new());
    assert_eq!(csv_truncate(&five(), 5), five());
    assert_eq!(csv_truncate(&Vec::new(), 3), Vec::<String>::new());
}
