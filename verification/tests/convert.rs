use csvgen::convert::{convert_char, convert_line};
use csvgen::csv_to_tsv;

#[test]
fn decimal_points_become_commas_and_commas_become_tabs() {
    assert_eq!(convert_line("1.5,2.3"), "1,5\t2,3");
    assert_eq!(csv_to_tsv(&vec!["1.5,2.3".to_string()]), vec!["1,5\t2,3".to_string()]);
}

#[test]
fn other_characters_stay() {
    assert_eq!(convert_char('.'), ',');
    assert_eq!(convert_char(','), '\t');
    assert_eq!(convert_char('\t'), '\t');
    assert_eq!(convert_char('a'), 'a');
    assert_eq!(convert_char(';'), ';');
    assert_eq!(convert_char('é'), 'é');
    assert_eq!(convert_line("name;värde 12"), "name;värde 12");
    assert_eq!(convert_line(""), "");
    assert_eq!(convert_line("...,,,"), ",,,\t\t\t");
}

#[test]
fn lines_are_converted_one_by_one() {
    let lines = vec!["a,b".to_string(), String::new(), "0.5".to_string(), "x".to_string()];
    assert_eq!(
        csv_to_tsv(&lines),
        vec!["a\tb".to_string(), String::new(), "0,5".to_string(), "x".to_string()]
    );
    assert_eq!(csv_to_tsv(&Vec::new()), Vec::<String>::new());
}
