use tsp_solver::error::TSPError;
use tsp_solver::output::{candidate_name, generate_unique_filename, OUTPUT_CANDIDATES};
use tsp_solver::parser::{kept_lines, parse_number, tokens_of, InputParser};

fn parse(input: &str) -> Result<(Vec<String>, Vec<Vec<i64>>), TSPError> {
    let mut parser = InputParser::new();
    parser.parse(input)
}

fn chars(s: &str) -> Vec<char> {
    s.chars().collect()
}

#[test]
fn test_matrix_format() {
    let input = "A B C\n0 10 15\n10 0 20\n15 20 0";
    let mut parser = InputParser::new();
    let (cities, matrix) = parser.parse(input).unwrap();
    assert_eq!(cities, vec!["A", "B", "C"]);
    assert_eq!(matrix[0], vec![0, 10, 15]);
    assert_eq!(matrix[1], vec![10, 0, 20]);
    assert_eq!(matrix[2], vec![15, 20, 0]);
}

#[test]
fn test_list_format() {
    let input = "A\nB\nC\n0 10 15\n10 0 20\n15 20 0";
    let mut parser = InputParser::new();
    let (cities, matrix) = parser.parse(input).unwrap();
    assert_eq!(cities, vec!["A", "B", "C"]);
    assert_eq!(matrix[0], vec![0, 10, 15]);
}

#[test]
fn test_with_comments() {
    let input = "# TSP Input\nA B C\n# Distance matrix\n0 10 15\n10 0 20\n15 20 0";
    let mut parser = InputParser::new();
    let (cities, matrix) = parser.parse(input).unwrap();
    assert_eq!(cities.len(), 3);
    assert_eq!(matrix.len(), 3);
}

#[test]
fn list_names_keep_inner_spaces() {
    let (cities, matrix) = parse("Boston\n  New York \r\n\n0 4\n4 0\n").unwrap();
    assert_eq!(cities, vec!["Boston", "New York"]);
    assert_eq!(matrix, vec![vec![0, 4], vec![4, 0]]);
}

#[test]
fn round_trip_of_matrix_layout() {
    let cities: Vec<String> = vec!["P".into(), "Q".into(), "R".into(), "S".into()];
    let matrix: Vec<Vec<i64>> =
        vec![vec![0, 5, 12, 7], vec![5, 0, 3, 9], vec![12, 3, 0, 1], vec![7, 9, 1, 0]];
    let mut text = cities.join(" ");
    for row in &matrix {
        text.push('\n');
        text.push_str(&row.iter().map(|v| v.to_string()).collect::<Vec<_>>().join(" "));
    }
    assert_eq!(parse(&text), Ok((cities, matrix)));
}

#[test]
fn empty_input_is_refused() {
    assert_eq!(parse(""), Err(TSPError::EmptyInput));
    assert_eq!(parse("\n  \n# only a comment\n"), Err(TSPError::EmptyInput));
}

#[test]
fn layout_faults_are_refused() {
    assert_eq!(parse("A B C"), Err(TSPError::MalformedLayout));
    assert_eq!(parse("A\nB\nC"), Err(TSPError::MalformedLayout));
    assert_eq!(parse("0 1\n1 0"), Err(TSPError::MalformedLayout));
}

#[test]
fn bad_rows_are_refused() {
    assert_eq!(parse("A B\n0 x\n1 0"), Err(TSPError::InvalidNumber { row: 1 }));
    assert_eq!(
        parse("A B\n0 1\n1 0 2"),
        Err(TSPError::DimensionMismatch { in_row: Some(2), found: 3, expected: 2 })
    );
    assert_eq!(
        parse("A B\n0 1"),
        Err(TSPError::DimensionMismatch { in_row: None, found: 1, expected: 2 })
    );
    assert_eq!(
        parse("A\nB\n0 1\n1 0\nextra line"),
        Err(TSPError::DimensionMismatch { in_row: None, found: 3, expected: 2 })
    );
    assert_eq!(
        parse("A B\n0 1\n1 0\n5 5"),
        Err(TSPError::DimensionMismatch { in_row: None, found: 3, expected: 2 })
    );
    assert_eq!(parse("A B\nx 1\n1 0 7"), Err(TSPError::InvalidNumber { row: 1 }));
    assert_eq!(parse("A B\n0 1 2\n1 x"), Err(TSPError::DimensionMismatch { in_row: Some(1), found: 3, expected: 2 }));
}

#[test]
fn numbers_are_read_exactly() {
    assert_eq!(parse_number(&chars("0")), Some(0));
    assert_eq!(parse_number(&chars("+42")), Some(42));
    assert_eq!(parse_number(&chars("-17")), Some(-17));
    assert_eq!(parse_number(&chars("9223372036854775807")), Some(i64::MAX));
    assert_eq!(parse_number(&chars("-9223372036854775808")), Some(i64::MIN));
    assert_eq!(parse_number(&chars("9223372036854775808")), None);
    assert_eq!(parse_number(&chars("123456789012345678901234567890")), None);
    assert_eq!(parse_number(&chars("-")), None);
    assert_eq!(parse_number(&chars("1.5")), None);
    assert_eq!(parse_number(&chars("")), None);
}

#[test]
fn output_names_are_numbered() {
    assert_eq!(candidate_name("tour", 0), "output/tour.png");
    assert_eq!(candidate_name("tour", 1), "output/tour_1.png");
    assert_eq!(candidate_name("tour", 9999), "output/tour_9999.png");
}

#[test]
fn tokens_split_on_unicode_white_space() {
    let toks = tokens_of(&chars(" a\u{3000}bc\t d\u{a0}"));
    assert_eq!(toks, vec![chars("a"), chars("bc"), chars("d")]);
    for c in [' ', '\t', '\u{85}', '\u{a0}', '\u{2009}', '\u{3000}'] {
        assert!(c.is_whitespace());
        assert_eq!(tokens_of(&vec!['x', c, 'y']).len(), 2);
    }
    assert_eq!(tokens_of(&vec!['x', '\u{200b}', 'y']).len(), 1);
}

#[test]
fn indented_comments_and_blank_lines_are_dropped() {
    let lines = kept_lines(&chars("  # note\n\n   \n  A  B \r\n#x\n1 2"));
    assert_eq!(lines.len(), 2);
    assert_eq!(lines[0].text, chars("A  B"));
    assert_eq!(lines[0].tokens, vec![chars("A"), chars("B")]);
    assert_eq!(lines[1].text, chars("1 2"));
}

#[test]
fn missing_output_directory_is_reported() {
    let taken = vec![false; OUTPUT_CANDIDATES];
    assert_eq!(
        generate_unique_filename("tour", false, &taken),
        Err(TSPError::FileNotFound("output".to_string()))
    );
}

#[test]
fn first_free_output_name_is_chosen() {
    let mut taken = vec![false; OUTPUT_CANDIDATES];
    assert_eq!(generate_unique_filename("tour", true, &taken), Ok("output/tour.png".to_string()));
    taken[0] = true;
    taken[1] = true;
    taken[2] = true;
    taken[5] = true;
    assert_eq!(generate_unique_filename("tour", true, &taken), Ok("output/tour_3.png".to_string()));
    let mut all_but_last = vec![true; OUTPUT_CANDIDATES];
    all_but_last[9999] = false;
    assert_eq!(
        generate_unique_filename("tour", true, &all_but_last),
        Ok("output/tour_9999.png".to_string())
    );
}

#[test]
fn all_output_names_taken_is_an_error() {
    let taken = vec![true; OUTPUT_CANDIDATES];
    assert_eq!(generate_unique_filename("tour", true, &taken), Err(TSPError::TooManyOutputAttempts));
}
