use csvgen::text::{chars_of, string_of};
use csvgen::CsvError;

#[test]
fn each_error_has_its_sentence() {
    assert_eq!(CsvError::Format.message(), "Wrong format inserted");
    assert_eq!(
        CsvError::NotAMultiple.message(),
        "Original sampling is not a multiple of final sampling"
    );
    assert_eq!(
        CsvError::FinalGreaterOrEqual.message(),
        "New sampling is equal or greater than the original sampling"
    );
    assert_eq!(CsvError::Number.message(), "number too large to fit in target type");
    assert_eq!(CsvError::Pattern.message(), "Directive pattern not accepted");
}

#[test]
fn the_number_error_reads_as_the_standard_one() {
    let standard = "99999999999999999999".parse::<u64>().unwrap_err();
    assert_eq!(CsvError::Number.message(), standard.to_string());
}

#[test]
fn strings_and_characters_go_both_ways() {
    assert_eq!(chars_of("a+é"), vec!['a', '+', 'é']);
    assert_eq!(chars_of(""), Vec::<char>::new());
    let chars = chars_of("/12.5,3/");
    assert_eq!(string_of(&chars, 1, 5), "12.5");
    assert_eq!(string_of(&chars, 3, 3), "");
    assert_eq!(string_of(&chars, 0, chars.len()), "/12.5,3/");
}
