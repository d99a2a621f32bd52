use csvgen::sampling::sampling_stride;
use csvgen::{sampling_conversion, CsvError};

fn numbered(n: usize) -> Vec<String> {
    (0..n).map(|i| format!("line {}", i)).collect()
}

#[test]
fn stride_three_keeps_lines_zero_three_six_of_nine() {
    let lines = numbered(9);
    assert_eq!(sampling_stride(10, 30), Ok(3));
    assert_eq!(
        sampling_conversion(10, 30, &lines),
        Ok(vec!["line 0".to_string(), "line 3".to_string(), "line 6".to_string()])
    );
}

#[test]
fn equal_intervals_are_refused() {
    assert_eq!(sampling_stride(10, 10), Err(CsvError::FinalGreaterOrEqual));
    assert_eq!(sampling_conversion(10, 10, &numbered(4)), Err(CsvError::FinalGreaterOrEqual));
    assert_eq!(sampling_conversion(1, 1, &numbered(0)), Err(CsvError::FinalGreaterOrEqual));
}

#[test]
fn an_interval_that_is_no_multiple_is_refused() {
    assert_eq!(sampling_stride(10, 25), Err(CsvError::NotAMultiple));
    assert_eq!(sampling_conversion(10, 25, &numbered(4)), Err(CsvError::NotAMultiple));
    assert_eq!(sampling_conversion(3, 10, &numbered(4)), Err(CsvError::NotAMultiple));
}

#[test]
fn a_smaller_final_interval_is_refused_as_no_multiple() {
    assert_eq!(sampling_conversion(10, 5, &numbered(4)), Err(CsvError::NotAMultiple));
    assert_eq!(sampling_conversion(30, 10, &numbered(4)), Err(CsvError::NotAMultiple));
}

#[test]
fn a_final_interval_of_zero_is_refused_as_not_greater() {
    assert_eq!(sampling_conversion(10, 0, &numbered(4)), Err(CsvError::FinalGreaterOrEqual));
}

#[test]
fn the_first_line_is_always_kept() {
    assert_eq!(sampling_conversion(1, 100, &numbered(1)), Ok(vec!["line 0".to_string()]));
    assert_eq!(sampling_conversion(1, 100, &numbered(100)), Ok(vec!["line 0".to_string()]));
    assert_eq!(
        sampling_conversion(1, 100, &numbered(101)),
        Ok(vec!["line 0".to_string(), "line 100".to_string()])
    );
    assert_eq!(sampling_conversion(5, 10, &numbered(0)), Ok(vec![]));
}

#[test]
fn kept_lines_are_those_at_multiples_of_the_stride() {
    for (original, target, n) in [(1u64, 2u64, 7usize), (2, 8, 17), (5, 35, 50), (1, u64::MAX, 3)] {
        let lines = numbered(n);
        let stride = target / original;
        let expected: Vec<String> = lines
            .iter()
            .enumerate()
            .filter(|(i, _)| *i as u64 % stride == 0)
            .map(|(_, line)| line.clone())
            .collect();
        assert_eq!(sampling_conversion(original, target, &lines), Ok(expected));
    }
}
