use casting::map_format::{
    map_line_is_readable, map_lines_are_readable, parse_map_line, parse_map_lines,
    parse_usize_token, split_at_separators, PointTokens, Span,
};

fn text<'a>(line: &'a [u8], span: Span) -> &'a [u8] {
    &line[span.start..span.end]
}

fn whole(line: &[u8]) -> Span {
    Span { start: 0, end: line.len() }
}

#[test]
fn split_keeps_empty_pieces() {
    let line = b" 12  3 ";
    let spans = split_at_separators(line);
    let pieces: Vec<&[u8]> = spans.iter().map(|s| text(line, *s)).collect();
    let expected: Vec<&[u8]> = vec![b"", b"12", b"", b"3", b""];
    assert_eq!(pieces, expected);
}

#[test]
fn split_of_empty_line_is_one_empty_piece() {
    let spans = split_at_separators(b"");
    assert_eq!(spans, vec![Span { start: 0, end: 0 }]);
}

#[test]
fn split_matches_str_split() {
    let line = "4 1.5 -2 3e1  x";
    let spans = split_at_separators(line.as_bytes());
    let ours: Vec<&str> = spans.iter().map(|s| &line[s.start..s.end]).collect();
    let std: Vec<&str> = line.split(" ").collect();
    assert_eq!(ours, std);
}

#[test]
fn usize_tokens_read_as_str_parse_does() {
    let cases: Vec<&str> = vec![
        "0", "7", "+7", "007", "-7", "+", "", " 7", "7a", "18446744073709551615",
        "18446744073709551616", "99999999999999999999", "+18446744073709551615",
    ];
    for case in cases {
        let b = case.as_bytes();
        let ours = parse_usize_token(b, whole(b));
        let std = case.parse::<usize>().ok();
        assert_eq!(ours, std, "token {:?}", case);
    }
}

#[test]
fn usize_token_inside_a_line() {
    let line = b"ab+42cd";
    assert_eq!(parse_usize_token(line, Span { start: 2, end: 5 }), Some(42));
    assert_eq!(parse_usize_token(line, Span { start: 1, end: 5 }), None);
}

#[test]
fn line_with_all_declared_points() {
    let line = b"2 10 20 30.5 -40";
    assert!(map_line_is_readable(line));
    let points = parse_map_line(line);
    assert_eq!(points.len(), 2);
    assert_eq!(text(line, points[0].x), b"10");
    assert_eq!(text(line, points[0].y), b"20");
    assert_eq!(text(line, points[1].x), b"30.5");
    assert_eq!(text(line, points[1].y), b"-40");
}

#[test]
fn reading_stops_at_an_empty_x_token() {
    // tokens: "3", "10", "20", "", "" : the second point's x token is empty
    let line = b"3 10 20  ";
    assert!(map_line_is_readable(line));
    let points = parse_map_line(line);
    assert_eq!(
        points,
        vec![PointTokens { x: Span { start: 2, end: 4 }, y: Span { start: 5, end: 7 } }]
    );
}

#[test]
fn extra_tokens_after_the_declared_points_are_ignored() {
    let line = b"1 5 6 7 8";
    let points = parse_map_line(line);
    assert_eq!(points.len(), 1);
    assert_eq!(text(line, points[0].y), b"6");
}

#[test]
fn zero_points() {
    let line = b"0";
    assert!(map_line_is_readable(line));
    assert!(parse_map_line(line).is_empty());
}

#[test]
fn missing_tokens_make_a_line_unreadable() {
    // the second point has no tokens at all
    assert!(!map_line_is_readable(b"2 10 20"));
    // the first point has no y token
    assert!(!map_line_is_readable(b"1 10"));
    // the stopping pair must be there to be looked at: token 4 is missing
    assert!(!map_line_is_readable(b"2 1 2 "));
}

#[test]
fn a_bad_count_makes_a_line_unreadable() {
    assert!(!map_line_is_readable(b"x 1 2"));
    assert!(!map_line_is_readable(b""));
    assert!(!map_line_is_readable(b"-1 1 2"));
    assert!(!map_line_is_readable(b" 1 1 2"));
    // the count plus one must fit
    assert!(!map_line_is_readable(b"18446744073709551615 1 2"));
}

#[test]
fn lines_are_read_in_order() {
    let lines: Vec<Vec<u8>> = vec![b"1 1 2".to_vec(), b"0".to_vec(), b"2 3 4 5 6".to_vec()];
    assert!(map_lines_are_readable(&lines));
    let meshes = parse_map_lines(&lines);
    let lens: Vec<usize> = meshes.iter().map(|m| m.len()).collect();
    assert_eq!(lens, vec![1, 0, 2]);
    assert_eq!(text(&lines[2], meshes[2][1].x), b"5");
}

#[test]
fn one_bad_line_is_reported() {
    let lines: Vec<Vec<u8>> = vec![b"1 1 2".to_vec(), b"1 1".to_vec()];
    assert!(!map_lines_are_readable(&lines));
}
