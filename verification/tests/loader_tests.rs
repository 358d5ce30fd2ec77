use social_graph::loader::{
    load_graph_from_lines, parse_edge_line, parse_number, ParseError, ParsedLine,
};

#[test]
fn a_line_of_two_numbers_is_an_edge() {
    assert_eq!(parse_edge_line(b"1 2"), ParsedLine::Edge(1, 2));
    assert_eq!(parse_edge_line(b"  10\t20  \r"), ParsedLine::Edge(10, 20));
    assert_eq!(parse_edge_line(b"007 8"), ParsedLine::Edge(7, 8));
    assert_eq!(parse_edge_line(b"+1 2"), ParsedLine::Edge(1, 2));
    assert_eq!(parse_edge_line(b"0 0"), ParsedLine::Edge(0, 0));
}

#[test]
fn a_line_without_two_tokens_is_skipped() {
    assert_eq!(parse_edge_line(b""), ParsedLine::Skipped);
    assert_eq!(parse_edge_line(b"   "), ParsedLine::Skipped);
    assert_eq!(parse_edge_line(b"12"), ParsedLine::Skipped);
    assert_eq!(parse_edge_line(b"1 2 3"), ParsedLine::Skipped);
    assert_eq!(parse_edge_line(b"#comment"), ParsedLine::Skipped);
    assert_eq!(parse_edge_line(b"a b c"), ParsedLine::Skipped);
}

#[test]
fn two_tokens_that_are_not_numbers_are_an_error() {
    assert_eq!(parse_edge_line(b"a b"), ParsedLine::BadNumber);
    assert_eq!(parse_edge_line(b"1 b"), ParsedLine::BadNumber);
    assert_eq!(parse_edge_line(b"a 2"), ParsedLine::BadNumber);
    assert_eq!(parse_edge_line(b"1 -2"), ParsedLine::BadNumber);
    assert_eq!(parse_edge_line(b"1.5 2"), ParsedLine::BadNumber);
    assert_eq!(parse_edge_line(b"+ 2"), ParsedLine::BadNumber);
}

#[test]
fn numbers_end_at_the_machine_word() {
    assert_eq!(parse_number(&b"18446744073709551615".to_vec()), Some(usize::MAX));
    assert_eq!(parse_number(&b"18446744073709551616".to_vec()), None);
    assert_eq!(parse_number(&b"99999999999999999999999".to_vec()), None);
    assert_eq!(parse_number(&b"0".to_vec()), Some(0));
    assert_eq!(parse_number(&b"+42".to_vec()), Some(42));
    assert_eq!(parse_number(&b"".to_vec()), None);
    assert_eq!(parse_number(&b"+".to_vec()), None);
    assert_eq!(parse_number(&b"4+2".to_vec()), None);
    assert_eq!(
        parse_edge_line(b"18446744073709551615 18446744073709551616"),
        ParsedLine::BadNumber
    );
}

#[test]
fn parsing_agrees_with_the_standard_library() {
    for text in ["0", "1", "+7", "0012", "12a", "-3", "", "+", "184467440737095516150", " 5"] {
        assert_eq!(parse_number(&text.as_bytes().to_vec()), text.parse::<usize>().ok());
    }
}

#[test]
fn lines_build_the_graph_in_order() {
    let lines = vec![
        b"0 1".to_vec(),
        b"".to_vec(),
        b"1 2".to_vec(),
        b"only".to_vec(),
        b"2 0".to_vec(),
        b"0 1".to_vec(),
    ];
    let graph = load_graph_from_lines(&lines).unwrap();
    assert_eq!(graph.num_nodes(), 3);
    assert_eq!(graph.adj_list.get(&0), Some(&vec![1, 2, 1]));
    assert_eq!(graph.adj_list.get(&1), Some(&vec![0, 2, 0]));
    assert_eq!(graph.adj_list.get(&2), Some(&vec![1, 0]));
}

#[test]
fn no_lines_build_the_empty_graph() {
    let graph = load_graph_from_lines(&vec![]).unwrap();
    assert_eq!(graph.num_nodes(), 0);
}

#[test]
fn the_error_names_the_first_bad_line() {
    let lines = vec![b"0 1".to_vec(), b"x".to_vec(), b"1 y".to_vec(), b"z w".to_vec()];
    match load_graph_from_lines(&lines) {
        Ok(_) => panic!("a bad number was accepted"),
        Err(error) => assert_eq!(error, ParseError { line: 2 }),
    }
}
