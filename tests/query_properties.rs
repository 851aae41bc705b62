use ry::{convert_single_node, parse_path, traverse, Node, TraverseError, VisitedNode};

fn leaf(s: &str) -> Node {
    Node::Str(s.to_string())
}

fn map_of(entries: Vec<(&str, Node)>) -> Node {
    Node::Mapping(entries.into_iter().map(|(k, v)| (leaf(k), v)).collect())
}

fn query<'a>(doc: &'a Node, expr: &str) -> Result<Vec<VisitedNode<'a>>, TraverseError> {
    let segs = parse_path(expr).unwrap();
    let mut visited = Vec::new();
    traverse(doc, "", &segs, String::new(), false, &mut visited)?;
    Ok(visited)
}

fn texts(visited: &[VisitedNode]) -> Vec<String> {
    visited.iter().map(|v| convert_single_node(v.yml)).collect()
}

fn paths(visited: &[VisitedNode]) -> Vec<String> {
    visited.iter().map(|v| v.path.clone()).collect()
}

#[test]
fn key_chain_yields_the_one_scalar_at_its_path() {
    let doc = map_of(vec![
        ("x", leaf("other")),
        ("k1", map_of(vec![("k2", map_of(vec![("k3", Node::Integer(9))])), ("k", leaf("no"))])),
    ]);
    let visited = query(&doc, "k1.k2.k3").unwrap();
    assert_eq!(visited.len(), 1);
    assert_eq!(visited[0].yml, &Node::Integer(9));
    assert_eq!(visited[0].path, "k1.k2.k3");
}

#[test]
fn quoting_keeps_dots_inside_one_segment() {
    assert_eq!(parse_path("a.\"x.y\".b").unwrap(), vec!["a", "x.y", "b"]);
}

#[test]
fn wildcard_prefix_keeps_insertion_order() {
    let doc = map_of(vec![
        ("item_b", leaf("1")),
        ("thing_c", leaf("2")),
        ("item_d", leaf("3")),
    ]);
    let visited = query(&doc, "item*").unwrap();
    assert_eq!(paths(&visited), vec!["item_b", "item_d"]);
    assert_eq!(texts(&visited), vec!["1", "3"]);
}

#[test]
fn array_index_in_and_out_of_range() {
    let doc = map_of(vec![(
        "a",
        map_of(vec![(
            "b",
            Node::Sequence(vec![Node::Integer(1), Node::Integer(2), Node::Integer(3)]),
        )]),
    )]);
    let visited = query(&doc, "a.b[1]").unwrap();
    assert_eq!(visited.len(), 1);
    assert_eq!(visited[0].yml, &Node::Integer(2));
    assert_eq!(query(&doc, "a.b[5]").unwrap().len(), 0);
}

#[test]
fn deep_wildcard_finds_every_depth_once() {
    // c at three depths below a; the splat stands for at least one key
    let doc = map_of(vec![(
        "a",
        map_of(vec![
            ("c", leaf("zero")),
            ("x", map_of(vec![("c", leaf("one"))])),
            ("y", map_of(vec![("z", map_of(vec![("c", leaf("two"))]))])),
            ("w", Node::Sequence(vec![map_of(vec![("v", map_of(vec![("c", leaf("three"))]))])])),
        ]),
    )]);
    let visited = query(&doc, "a.**.c").unwrap();
    assert_eq!(texts(&visited), vec!["one", "two", "three"]);
    assert_eq!(paths(&visited), vec!["a.x.c", "a.y.z.c", "a.w[0].v.c"]);
    let all = query(&doc, "a.**").unwrap();
    assert_eq!(texts(&all), vec!["zero", "one", "two", "three"]);
}

#[test]
fn child_filters_on_values_and_sub_paths() {
    let doc = map_of(vec![(
        "animals",
        Node::Sequence(vec![leaf("cats"), leaf("dog"), leaf("cheetah")]),
    )]);
    assert_eq!(texts(&query(&doc, "animals(.==c*)").unwrap()), vec!["cats", "cheetah"]);
    assert_eq!(texts(&query(&doc, "animals(.==cat)").unwrap()), Vec::<String>::new());
    let element = |d: &str, c: &str| map_of(vec![("b", map_of(vec![("d", leaf(d))])), ("c", leaf(c))]);
    let doc = map_of(vec![(
        "a",
        Node::Sequence(vec![element("catalog", "one"), element("dog", "two"), element("cat", "three")]),
    )]);
    let visited = query(&doc, "a.(b.d==cat*).c").unwrap();
    assert_eq!(texts(&visited), vec!["one", "three"]);
    assert_eq!(paths(&visited), vec!["a[0].c", "a[2].c"]);
}

#[test]
fn malformed_expressions_are_rejected() {
    assert!(parse_path("a.foo[1.bar").unwrap_err().message().contains("no closing array character"));
    assert!(parse_path("a.)b.c)").unwrap_err().message().contains("closing paren character before opening"));
}

#[test]
fn running_a_query_twice_gives_the_same_matches() {
    let doc = map_of(vec![
        ("a", Node::Sequence(vec![leaf("p"), map_of(vec![("q", leaf("r"))])])),
        ("b", leaf("s")),
    ]);
    let first = query(&doc, "**").unwrap();
    let second = query(&doc, "**").unwrap();
    assert_eq!(paths(&first), paths(&second));
    assert_eq!(texts(&first), texts(&second));
    assert_eq!(paths(&first), vec!["a[0]", "a[1].q", "b"]);
}

#[test]
fn evaluation_errors_are_reported() {
    let doc = Node::Mapping(vec![(Node::Integer(1), leaf("x"))]);
    assert!(matches!(query(&doc, "a"), Err(TraverseError::NonStringKey)));
    let doc = map_of(vec![("a", Node::Sequence(vec![leaf("x")]))]);
    assert!(matches!(query(&doc, "a[x]"), Err(TraverseError::Parse(_))));
    assert!(matches!(query(&doc, "a(.=x)"), Err(TraverseError::Parse(_))));
    // matches found before the fault stay in the list
    let doc = map_of(vec![("a", leaf("x")), ("b", Node::Mapping(vec![(Node::Null, leaf("y"))]))]);
    let segs = parse_path("*.z").unwrap();
    let mut visited = Vec::new();
    let r = traverse(&doc, "", &segs, String::new(), false, &mut visited);
    assert!(matches!(r, Err(TraverseError::NonStringKey)));
}

#[test]
fn bad_values_are_skipped() {
    let doc = map_of(vec![("a", Node::BadValue), ("b", leaf("ok"))]);
    let visited = query(&doc, "*").unwrap();
    assert_eq!(paths(&visited), vec!["b"]);
}

#[test]
fn trailing_splat_returns_scalars_not_structures() {
    let doc = map_of(vec![("a", map_of(vec![("b", map_of(vec![("c", leaf("x"))]))]))]);
    let visited = query(&doc, "a.**").unwrap();
    assert_eq!(paths(&visited), vec!["a.b.c"]);
    assert_eq!(texts(&visited), vec!["x"]);
}

#[test]
fn mapping_child_filter_compares_rendered_values() {
    let doc = map_of(vec![(
        "m",
        map_of(vec![("x", Node::Integer(12)), ("y", Node::Integer(21)), ("z", map_of(vec![("k", leaf("1"))]))]),
    )]);
    let visited = query(&doc, "m(.==1*)").unwrap();
    assert_eq!(paths(&visited), vec!["m.x"]);
}

#[test]
fn bare_star_selects_every_element() {
    let doc = map_of(vec![("a", Node::Sequence(vec![Node::Integer(1), Node::Integer(2)]))]);
    let visited = query(&doc, "a.*").unwrap();
    assert_eq!(paths(&visited), vec!["a[0]", "a[1]"]);
    assert_eq!(texts(&visited), vec!["1", "2"]);
}

#[test]
fn star_filter_keeps_every_mapping_value_and_element() {
    let doc = map_of(vec![("m", map_of(vec![("x", leaf("1")), ("y", map_of(vec![("k", leaf("v"))]))]))]);
    let visited = query(&doc, "m(*)").unwrap();
    assert_eq!(paths(&visited), vec!["m.x", "m.y"]);
    let doc = map_of(vec![("s", Node::Sequence(vec![leaf("p"), leaf("q")]))]);
    assert_eq!(paths(&query(&doc, "s(*)").unwrap()), vec!["s[0]", "s[1]"]);
}

#[test]
fn quoted_keys_keep_special_characters() {
    assert_eq!(
        parse_path("\"a[0]\".\"(x)\".\"p.q\".\"\"").unwrap(),
        vec!["a[0]", "(x)", "p.q", ""]
    );
}

#[test]
fn splat_after_a_key_chain_lists_each_scalar_once() {
    let doc = map_of(vec![(
        "a",
        map_of(vec![(
            "b",
            Node::Sequence(vec![leaf("x"), map_of(vec![("c", leaf("y")), ("d", Node::BadValue)])]),
        )]),
    )]);
    let visited = query(&doc, "a.b.**").unwrap();
    assert_eq!(paths(&visited), vec!["a.b[0]", "a.b[1].c"]);
    assert_eq!(texts(&visited), vec!["x", "y"]);
}
