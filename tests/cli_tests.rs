use ry::{
    output_lines, parse_print_mode, select_documents, DocIndexError, Node, PrintMode, VisitedNode,
};

#[test]
fn print_modes_are_read_from_short_names() {
    assert_eq!(parse_print_mode("v"), PrintMode::Value);
    assert_eq!(parse_print_mode("p"), PrintMode::Path);
    assert_eq!(parse_print_mode("pv"), PrintMode::ValueAndPath);
    assert_eq!(parse_print_mode("vp"), PrintMode::ValueAndPath);
    assert_eq!(parse_print_mode("x"), PrintMode::Value);
}

#[test]
fn documents_are_selected_by_index() {
    assert_eq!(select_documents(0, None), Err(DocIndexError::NoDocuments));
    assert_eq!(select_documents(3, None), Ok((0, 3)));
    assert_eq!(select_documents(3, Some("*")), Ok((0, 3)));
    assert_eq!(select_documents(3, Some("1")), Ok((1, 2)));
    assert_eq!(select_documents(3, Some("3")), Err(DocIndexError::OutOfRange(3)));
    assert_eq!(select_documents(3, Some("one")), Err(DocIndexError::BadIndex));
}

#[test]
fn output_lines_follow_the_print_mode() {
    let a = Node::Str("cat".to_string());
    let b = Node::Mapping(vec![(Node::Str("k".to_string()), Node::Integer(7))]);
    let visited = vec![
        VisitedNode { yml: &a, path: "x.y".to_string() },
        VisitedNode { yml: &b, path: "z[0]".to_string() },
    ];
    assert_eq!(output_lines(&visited, PrintMode::Value, false, false), vec!["cat", "k: 7"]);
    assert_eq!(output_lines(&visited, PrintMode::Path, false, true), vec!["- x.y", "- z[0]"]);
    assert_eq!(
        output_lines(&visited, PrintMode::ValueAndPath, false, false),
        vec!["x.y: cat", "z[0]: k: 7"]
    );
    assert_eq!(output_lines(&visited, PrintMode::Value, true, false), vec!["3", "1"]);
    assert_eq!(output_lines(&visited, PrintMode::ValueAndPath, true, false), vec!["x.y: 3", "z[0]: 1"]);
    assert_eq!(output_lines(&visited, PrintMode::Value, true, true), vec!["2"]);
}
