use phystech_radar::parse::{parse_bytes, ParseError};
use phystech_radar::parse_input;
use phystech_radar::SIZE;

fn full_text() -> String {
    let mut text = String::new();
    for i in 0..SIZE {
        let cells: Vec<&str> =
            (0..SIZE).map(|j| if j > i && (i + j) % 3 == 0 { "1" } else { "0" }).collect();
        text += &cells.join(",");
        text += "\n";
    }
    let weights: Vec<String> = (0..SIZE).map(|i| format!("{}.5", i)).collect();
    text += &weights.join(",");
    text += "\n";
    text
}

#[test]
fn full_text_is_read() {
    let text = full_text();
    let (matrix, spans) = parse_input(&text).ok().unwrap();
    for i in 0..SIZE {
        for j in 0..SIZE {
            let (low, high) = if i < j { (i, j) } else { (j, i) };
            assert_eq!(matrix.get(i, j), i == j || (low + high) % 3 == 0);
        }
    }
    assert_eq!(spans.len(), SIZE);
    let fields: Vec<&str> = spans.iter().map(|&(a, b)| &text[a..b]).collect();
    assert_eq!(fields[0], "0.5");
    assert_eq!(fields[9], "9.5");
    assert_eq!(fields[27], "27.5");
}

#[test]
fn short_text_is_read() {
    let text = "0,1,0\n0,0,1\n5,6";
    let (matrix, spans) = parse_input(text).ok().unwrap();
    assert!(matrix.get(0, 1));
    assert!(matrix.get(1, 0));
    assert!(!matrix.get(0, 2));
    assert!(matrix.get(1, 2));
    assert!(matrix.get(2, 1));
    assert!(matrix.get(2, 2));
    assert!(!matrix.get(2, 3));
    assert_eq!(spans, vec![(12, 13), (14, 15)]);
}

#[test]
fn empty_text_is_refused() {
    assert_eq!(parse_input("").err(), Some(ParseError::Empty));
    assert_eq!(parse_bytes(&[]).err(), Some(ParseError::Empty));
}

#[test]
fn bad_cell_is_refused() {
    assert_eq!(parse_input("0,x\n1").err(), Some(ParseError::BadCell { line: 0, field: 1 }));
    assert_eq!(parse_input("0,1,0\n0,0,11\n").err(), Some(ParseError::BadCell { line: 1, field: 2 }));
    assert_eq!(parse_input("0,1,\n").err(), Some(ParseError::BadCell { line: 0, field: 2 }));
    assert_eq!(parse_input("0,1, 0\n").err(), Some(ParseError::BadCell { line: 0, field: 2 }));
}

#[test]
fn first_bad_cell_is_named() {
    assert_eq!(parse_input("0,1,a,b\n0,0,c\n").err(), Some(ParseError::BadCell { line: 0, field: 2 }));
    assert_eq!(parse_input("0,1,1\n0,0,c,d\n").err(), Some(ParseError::BadCell { line: 1, field: 2 }));
}

#[test]
fn field_beyond_the_last_column_is_refused() {
    let wide = vec!["0"; 29].join(",");
    assert_eq!(parse_input(&wide).err(), Some(ParseError::BadCell { line: 0, field: 28 }));
    let fits = vec!["0"; 28].join(",");
    assert!(parse_input(&fits).is_ok());
}

#[test]
fn fields_left_of_the_diagonal_are_not_read() {
    let (matrix, _) = parse_input("zz,1\nq,,1\n?,?,?\n").ok().unwrap();
    assert!(matrix.get(0, 1));
    assert!(matrix.get(1, 2));
    assert!(!matrix.get(0, 2));
}

#[test]
fn diagonal_is_forced() {
    let (matrix, _) = parse_input("0,0\n0,0\n").ok().unwrap();
    assert!(matrix.get(0, 0));
    assert!(matrix.get(1, 1));
    assert!(!matrix.get(0, 1));
}

#[test]
fn carriage_return_before_newline_is_dropped() {
    let text = "0,1\r\n0,0\r\n1.5,2.5\r\n";
    let (matrix, spans) = parse_input(text).ok().unwrap();
    assert!(matrix.get(0, 1));
    let fields: Vec<&str> = spans.iter().map(|&(a, b)| &text[a..b]).collect();
    assert_eq!(fields, vec!["1.5", "2.5"]);
}

#[test]
fn carriage_return_at_the_end_of_the_text_stays() {
    assert_eq!(parse_input("0,1\r").err(), Some(ParseError::BadCell { line: 0, field: 1 }));
    let text = "0,1\n7,8\r";
    let (_, spans) = parse_input(text).ok().unwrap();
    let fields: Vec<&str> = spans.iter().map(|&(a, b)| &text[a..b]).collect();
    assert_eq!(fields, vec!["7", "8\r"]);
}

#[test]
fn last_line_gives_the_weight_fields() {
    let text = "0,1\n 1.25 ,,1\n";
    let (_, spans) = parse_input(text).ok().unwrap();
    let fields: Vec<&str> = spans.iter().map(|&(a, b)| &text[a..b]).collect();
    assert_eq!(fields, vec![" 1.25 ", "", "1"]);
}

#[test]
fn last_line_is_read_as_a_row_too() {
    assert_eq!(parse_input("0,1\n 1.25 ,,3\n").err(), Some(ParseError::BadCell { line: 1, field: 2 }));
}

#[test]
fn single_newline_is_one_empty_line() {
    let (matrix, spans) = parse_input("\n").ok().unwrap();
    assert!(matrix.get(0, 0));
    assert!(!matrix.get(0, 1));
    assert_eq!(spans, vec![(0, 0)]);
}

#[test]
fn lines_after_the_rows_are_skipped() {
    let mut text = String::new();
    for _ in 0..SIZE {
        text += "0\n";
    }
    text += "junk,junk\n";
    text += "1,2,3";
    let (_, spans) = parse_input(&text).ok().unwrap();
    let fields: Vec<&str> = spans.iter().map(|&(a, b)| &text[a..b]).collect();
    assert_eq!(fields, vec!["1", "2", "3"]);
}
