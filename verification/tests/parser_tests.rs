use interference_generator::cell::Cell;
use interference_generator::parser::{
    cell, format_section, link, link_line, number, parse_neos_output, path_block, path_header,
    skip_until_path,
};

#[test]
fn test_number() {
    assert_eq!(number(b"123", 0), Some((3, 123)));
    assert_eq!(number(b"7abc", 0), Some((1, 7)));
    assert_eq!(number(b"abc", 0), None);
}

#[test]
fn test_cell() {
    let result = cell(b"(7,5)", 0);
    println!("Cell parse result: {:?}", result);
    assert_eq!(result, Some((5, Cell::new(7, 5))));
}

#[test]
fn test_link() {
    let result = link(b"(7,5) -> (8,5)", 0);
    println!("Link parse result: {:?}", result);
    assert!(result.is_some());
}

#[test]
fn test_link_line() {
    let result = link_line(b" (7,5) -> (8,5)\n", 0);
    println!("Link line parse result: {:?}", result);
    assert!(result.is_some());
}

#[test]
fn test_path_header() {
    let result = path_header(b"--- Path 1 ---\n", 0);
    println!("Path header parse result: {:?}", result);
    assert!(result.is_some());
}

#[test]
fn test_simple_path() {
    let input = b"--- Path 1 ---\n (7,5) -> (8,5)\n (8,5) -> (9,5)\n";
    let result = path_block(input, 0);
    println!("Path block parse result: {:?}", result);
    assert!(result.is_some());
}

#[test]
fn number_values() {
    // The value must match the digits exactly, and the run must be maximal.
    assert_eq!(number(b"2147483647,", 0), Some((10, 2147483647)));
    // A digit run that overflows the 31-bit parse fails the number.
    assert_eq!(number(b"2147483648", 0), None);
    assert_eq!(number(b"(42)", 1), Some((3, 42)));
}

#[test]
fn cell_rejects_malformed() {
    assert_eq!(cell(b"(7,5", 0), None);
    assert_eq!(cell(b"7,5)", 0), None);
    assert_eq!(cell(b"(7 5)", 0), None);
    assert_eq!(cell(b"()", 0), None);
}

#[test]
fn link_line_requires_terminator() {
    // End of input counts as a terminator.
    assert!(link_line(b"(1,2) -> (2,2)", 0).is_some());
    // Trailing garbage on the line does not.
    assert!(link_line(b"(1,2) -> (2,2) junk\n", 0).is_none());
}

#[test]
fn header_requires_closing_dashes_and_newline() {
    assert!(path_header(b"--- Path 12 ---\r\n", 0).is_some());
    assert!(path_header(b"--- Path ---\n", 0).is_none());
    assert!(path_header(b"--- Path 1 ---", 0).is_none());
    assert!(path_header(b"--- Path 1 --\n", 0).is_none());
}

#[test]
fn block_stops_at_first_bad_line() {
    let input = b"--- Path 1 ---\n(1,1) -> (2,1)\nnot an edge\n(9,9) -> (9,8)\n";
    let (_, links) = path_block(input, 0).unwrap();
    assert_eq!(links, vec![(Cell::new(1, 1), Cell::new(2, 1))]);
}

#[test]
fn block_with_zero_edges() {
    let (_, links) = path_block(b"--- Path 3 ---\nprose follows\n", 0).unwrap();
    assert!(links.is_empty());
}

#[test]
fn skip_finds_first_header() {
    assert_eq!(skip_until_path(b"noise\n--- Path 1 ---\n", 0), Some(6));
    assert_eq!(skip_until_path(b"no header here", 0), None);
}

#[test]
fn output_scans_sections_and_ignores_noise() {
    let text = "log log\n--- Path 1 ---\n(1,1) -> (2,2)\nmore noise\n--- Path 2 ---\n(5,5) -> (6,5)\ntrailing";
    let sections = parse_neos_output(text).unwrap();
    assert_eq!(sections.len(), 2);
    assert_eq!(sections[0], vec![(Cell::new(1, 1), Cell::new(2, 2))]);
    assert_eq!(sections[1], vec![(Cell::new(5, 5), Cell::new(6, 5))]);
}

#[test]
fn output_without_sections_is_empty() {
    assert_eq!(parse_neos_output("just prose\n").unwrap().len(), 0);
    assert_eq!(parse_neos_output("").unwrap().len(), 0);
}

#[test]
fn output_fails_on_broken_header() {
    // A found header tag that does not continue as a header line fails
    // the whole scan.
    assert!(parse_neos_output("--- Path x ---\n").is_none());
    assert!(parse_neos_output("--- Path 1 ---").is_none());
}

#[test]
fn format_then_parse_round_trip() {
    let links = vec![
        (Cell::new(2, 2), Cell::new(3, 2)),
        (Cell::new(3, 2), Cell::new(3, 3)),
        (Cell::new(3, 3), Cell::new(4, 4)),
    ];
    let bytes = format_section(1, &links);
    let text = String::from_utf8(bytes).unwrap();
    assert_eq!(text, "--- Path 1 ---\n(2,2) -> (3,2)\n(3,2) -> (3,3)\n(3,3) -> (4,4)\n");
    let sections = parse_neos_output(&text).unwrap();
    assert_eq!(sections, vec![links]);
}

#[test]
fn format_empty_section_round_trip() {
    let links: Vec<(Cell, Cell)> = Vec::new();
    let text = String::from_utf8(format_section(7, &links)).unwrap();
    assert_eq!(text, "--- Path 7 ---\n");
    let sections = parse_neos_output(&text).unwrap();
    assert_eq!(sections, vec![links]);
}
