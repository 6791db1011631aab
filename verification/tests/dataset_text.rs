use sgd_linreg::dataset::{load_csv, parse_row, split_cells, Row};
use sgd_linreg::error::DataError;

fn row(features: &[&str], target: &str) -> Row {
    Row {
        features: features.iter().map(|f| f.as_bytes().to_vec()).collect(),
        target: target.as_bytes().to_vec(),
    }
}

fn cells_of(line: &str) -> Vec<String> {
    split_cells(line.as_bytes())
        .into_iter()
        .map(|cell| String::from_utf8(cell).unwrap())
        .collect()
}

#[test]
fn cells_are_cut_at_commas_and_trimmed() {
    assert_eq!(cells_of("1, 2 ,\t3\r"), vec!["1", "2", "3"]);
}

#[test]
fn line_without_comma_is_one_cell() {
    assert_eq!(cells_of("  12  "), vec!["12"]);
    assert_eq!(cells_of(""), vec![""]);
}

#[test]
fn empty_cells_are_kept() {
    assert_eq!(cells_of("1,,2"), vec!["1", "", "2"]);
    assert_eq!(cells_of(","), vec!["", ""]);
    assert_eq!(cells_of("1,"), vec!["1", ""]);
    assert_eq!(cells_of(",1"), vec!["", "1"]);
}

#[test]
fn row_has_features_and_a_target() {
    assert_eq!(parse_row(b"1.5,2,-3e2"), Some(row(&["1.5", "2"], "-3e2")));
}

#[test]
fn row_of_two_cells_has_one_feature() {
    assert_eq!(parse_row(b"4,5"), Some(row(&["4"], "5")));
}

#[test]
fn row_is_read_without_the_blanks_around_its_cells() {
    assert_eq!(parse_row(b" 1 ,\t2 , 3 \r"), Some(row(&["1", "2"], "3")));
}

#[test]
fn single_value_is_no_row() {
    assert_eq!(parse_row(b"5"), None);
}

#[test]
fn blank_line_is_no_row() {
    assert_eq!(parse_row(b""), None);
    assert_eq!(parse_row(b"   "), None);
}

#[test]
fn text_that_is_no_number_is_no_row() {
    assert_eq!(parse_row(b"1,abc,3"), None);
    assert_eq!(parse_row(b"x,1"), None);
    assert_eq!(parse_row(b"1,y"), None);
}

#[test]
fn empty_cell_is_no_row() {
    assert_eq!(parse_row(b"1,,3"), None);
    assert_eq!(parse_row(b"1,2,"), None);
    assert_eq!(parse_row(b",1,2"), None);
}

#[test]
fn number_with_a_blank_within_is_no_row() {
    assert_eq!(parse_row(b"1 2,3"), None);
}

#[test]
fn dataset_is_read_row_by_row() {
    let text = b"1,2,3\n4,5,6\n";
    assert_eq!(
        load_csv(text),
        Ok(vec![row(&["1", "2"], "3"), row(&["4", "5"], "6")])
    );
}

#[test]
fn last_line_needs_no_line_feed() {
    assert_eq!(
        load_csv(b"1,2\n3,4"),
        Ok(vec![row(&["1"], "2"), row(&["3"], "4")])
    );
}

#[test]
fn empty_text_is_an_empty_dataset() {
    assert_eq!(load_csv(b""), Ok(vec![]));
}

#[test]
fn text_of_blank_lines_is_an_empty_dataset() {
    assert_eq!(load_csv(b"\n\n   \n\t\r\n"), Ok(vec![]));
}

#[test]
fn blank_lines_are_passed_over() {
    let text = b"\n1,2\n\n   \n3,4\n\n";
    assert_eq!(
        load_csv(text),
        Ok(vec![row(&["1"], "2"), row(&["3"], "4")])
    );
}

#[test]
fn carriage_returns_before_line_feeds_are_dropped() {
    let text = b"1.0,2.0\r\n3.0,4.0\r\n";
    assert_eq!(
        load_csv(text),
        Ok(vec![row(&["1.0"], "2.0"), row(&["3.0"], "4.0")])
    );
}

#[test]
fn rows_may_differ_in_length() {
    assert_eq!(
        load_csv(b"1,2,3\n4,5\n"),
        Ok(vec![row(&["1", "2"], "3"), row(&["4"], "5")])
    );
}

#[test]
fn numbers_keep_their_spelling() {
    assert_eq!(
        load_csv(b"+1.50, 1E3 ,-.5e-2,inf\n"),
        Ok(vec![row(&["+1.50", "1E3", "-.5e-2"], "inf")])
    );
}

#[test]
fn line_with_one_value_is_malformed() {
    assert_eq!(
        load_csv(b"1,2\n3\n4,5\n"),
        Err(DataError::MalformedRow { line: 2 })
    );
}

#[test]
fn line_with_other_text_is_malformed() {
    assert_eq!(
        load_csv(b"x1,x2,y\n1,2,3\n"),
        Err(DataError::MalformedRow { line: 1 })
    );
}

#[test]
fn first_malformed_line_is_reported() {
    assert_eq!(
        load_csv(b"1,2\n\n3,4\n5,oops\n6\n"),
        Err(DataError::MalformedRow { line: 4 })
    );
}

#[test]
fn blank_lines_count_as_lines() {
    assert_eq!(
        load_csv(b"\n\n\n1\n"),
        Err(DataError::MalformedRow { line: 4 })
    );
}

#[test]
fn malformed_last_line_without_line_feed_is_reported() {
    assert_eq!(
        load_csv(b"1,2\n3,"),
        Err(DataError::MalformedRow { line: 2 })
    );
}

#[test]
fn text_that_is_not_ascii_is_malformed() {
    assert_eq!(
        load_csv("1,2\n３,4\n".as_bytes()),
        Err(DataError::MalformedRow { line: 2 })
    );
}
