use ry::{convert_single_node, traverse, Node, VisitedNode};

fn text(s: &str) -> Node {
    Node::Str(s.to_string())
}

fn mapping(entries: Vec<(&str, Node)>) -> Node {
    Node::Mapping(entries.into_iter().map(|(k, v)| (text(k), v)).collect())
}

fn segments(segs: &[&str]) -> Vec<String> {
    segs.iter().map(|s| s.to_string()).collect()
}

fn run<'a>(doc: &'a Node, segs: &[&str]) -> Vec<VisitedNode<'a>> {
    let mut visited = Vec::<VisitedNode>::new();
    traverse(doc, "", &segments(segs), String::new(), false, &mut visited).unwrap();
    visited
}

fn rendered(v: &VisitedNode) -> String {
    convert_single_node(v.yml)
}

// a: {b: {c: 2}}
fn abc_doc() -> Node {
    mapping(vec![("a", mapping(vec![("b", mapping(vec![("c", Node::Integer(2))]))]))])
}

// a: {b: [1, 2, 3]}
fn array_doc() -> Node {
    mapping(vec![(
        "a",
        mapping(vec![(
            "b",
            Node::Sequence(vec![Node::Integer(1), Node::Integer(2), Node::Integer(3)]),
        )]),
    )])
}

// a: {b: [1, 2, {c: d}]}
fn array_after_index_doc() -> Node {
    mapping(vec![(
        "a",
        mapping(vec![(
            "b",
            Node::Sequence(vec![
                Node::Integer(1),
                Node::Integer(2),
                mapping(vec![("c", text("d"))]),
            ]),
        )]),
    )])
}

// a: {item_b: {f: 1}, thing_c: {f: 2}, item_d: {f: 3}, thing_e: {f: 4}}
fn prefix_doc() -> Node {
    mapping(vec![(
        "a",
        mapping(vec![
            ("item_b", mapping(vec![("f", Node::Integer(1))])),
            ("thing_c", mapping(vec![("f", Node::Integer(2))])),
            ("item_d", mapping(vec![("f", Node::Integer(3))])),
            ("thing_e", mapping(vec![("f", Node::Integer(4))])),
        ]),
    )])
}

fn filter_element(c: &str, d: &str, ba: &str) -> Node {
    mapping(vec![("b", mapping(vec![("c", text(c)), ("d", text(d))])), ("ba", text(ba))])
}

fn filter_doc() -> Node {
    mapping(vec![(
        "a",
        Node::Sequence(vec![
            filter_element("thing0", "leopard", "fast"),
            filter_element("thing1", "cat", "meowy"),
            filter_element("thing2", "caterpillar", "icky"),
            filter_element("thing3", "cat", "also meowy"),
        ]),
    )])
}

fn splat_doc() -> Node {
    mapping(vec![(
        "a",
        mapping(vec![
            (
                "b1",
                mapping(vec![
                    ("c", mapping(vec![("c", text("thing1"))])),
                    ("d", text("cat cat")),
                ]),
            ),
            ("b2", mapping(vec![("c", text("thing2")), ("d", text("dog dog"))])),
            (
                "b3",
                mapping(vec![(
                    "d",
                    Node::Sequence(vec![
                        mapping(vec![(
                            "f",
                            mapping(vec![("c", text("thing3")), ("d", text("beep"))]),
                        )]),
                        mapping(vec![(
                            "f",
                            mapping(vec![(
                                "g",
                                mapping(vec![("c", text("thing4")), ("d", text("boop"))]),
                            )]),
                        )]),
                        mapping(vec![("d", text("mooo"))]),
                    ]),
                )]),
            ),
        ]),
    )])
}

fn animals_array_doc() -> Node {
    mapping(vec![(
        "animals",
        Node::Sequence(vec![text("cats"), text("dog"), text("cheetah")]),
    )])
}

fn animals_map_doc() -> Node {
    mapping(vec![(
        "animals",
        mapping(vec![
            ("cats", text("yes")),
            ("dogs", text("yessiree")),
            ("lions", text("nope")),
            ("cheetas", mapping(vec![("but", text("yes"))])),
        ]),
    )])
}

fn check_leaf(visited: &[VisitedNode], expected: &str) {
    assert_eq!(visited.len(), 1);
    assert_eq!(rendered(&visited[0]), expected);
}

#[test]
fn integration_test_traverse_test_traverse_leaf() {
    let doc = abc_doc();
    check_leaf(&run(&doc, &["a", "b", "c"]), "2");
}

#[test]
fn integration_tests_test_traverse_leaf() {
    let doc = abc_doc();
    let visited = run(&doc, &["a", "b", "c"]);
    check_leaf(&visited, "2");
    assert_eq!(visited[0].path, "a.b.c");
}

#[test]
fn integration_test_traverse_test_traverse_non_leaf() {
    let doc = abc_doc();
    check_leaf(&run(&doc, &["a", "b"]), "c: 2");
}

#[test]
fn integration_tests_test_traverse_non_leaf() {
    let doc = abc_doc();
    check_leaf(&run(&doc, &["a", "b"]), "c: 2");
}

#[test]
fn integration_test_traverse_test_traverse_with_quoted_key() {
    let doc = mapping(vec![("a", mapping(vec![("foo.bar", mapping(vec![("c", Node::Integer(2))]))]))]);
    check_leaf(&run(&doc, &["a", "foo.bar", "c"]), "2");
}

#[test]
fn integration_tests_test_traverse_with_quoted_key() {
    let doc = mapping(vec![("a", mapping(vec![("foo.bar", mapping(vec![("c", Node::Integer(2))]))]))]);
    let visited = run(&doc, &["a", "foo.bar", "c"]);
    check_leaf(&visited, "2");
    assert_eq!(visited[0].path, "a.foo.bar.c");
}

#[test]
fn integration_test_traverse_test_traverse_array() {
    let doc = array_doc();
    check_leaf(&run(&doc, &["a", "b", "[1]"]), "2");
}

#[test]
fn integration_tests_test_traverse_array() {
    let doc = array_doc();
    let visited = run(&doc, &["a", "b", "[1]"]);
    check_leaf(&visited, "2");
    assert_eq!(visited[0].path, "a.b[1]");
}

#[test]
fn integration_test_traverse_test_traverse_array_wildcard() {
    let doc = array_doc();
    let visited = run(&doc, &["a", "b", "[*]"]);
    assert_eq!(visited.len(), 3);
    assert_eq!(rendered(&visited[0]), "1");
    assert_eq!(rendered(&visited[1]), "2");
    assert_eq!(rendered(&visited[2]), "3");
}

#[test]
fn integration_tests_test_traverse_array_wildcard() {
    let doc = array_doc();
    let visited = run(&doc, &["a", "b", "[*]"]);
    assert_eq!(visited.len(), 3);
    assert_eq!(rendered(&visited[0]), "1");
    assert_eq!(rendered(&visited[1]), "2");
    assert_eq!(rendered(&visited[2]), "3");
    assert_eq!(visited[2].path, "a.b[2]");
}

#[test]
fn integration_test_traverse_test_traverse_array_after_index() {
    let doc = array_after_index_doc();
    check_leaf(&run(&doc, &["a", "b", "[*]", "c"]), "d");
}

#[test]
fn integration_tests_test_traverse_array_after_index() {
    let doc = array_after_index_doc();
    let visited = run(&doc, &["a", "b", "[*]", "c"]);
    check_leaf(&visited, "d");
    assert_eq!(visited[0].path, "a.b[2].c");
}

#[test]
fn integration_test_traverse_test_traverse_hash_prefix_match() {
    let doc = prefix_doc();
    let visited = run(&doc, &["a", "item*", "f"]);
    assert_eq!(visited.len(), 2);
    assert_eq!(rendered(&visited[0]), "1");
    assert_eq!(rendered(&visited[1]), "3");
}

#[test]
fn integration_tests_test_traverse_hash_prefix_match() {
    let doc = prefix_doc();
    let visited = run(&doc, &["a", "item*", "f"]);
    assert_eq!(visited.len(), 2);
    assert_eq!(rendered(&visited[0]), "1");
    assert_eq!(rendered(&visited[1]), "3");
    assert_eq!(visited[0].path, "a.item_b.f");
    assert_eq!(visited[1].path, "a.item_d.f");
}

#[test]
fn integration_test_traverse_test_traverse_hash_wildcard() {
    let doc = prefix_doc();
    let visited = run(&doc, &["a", "*", "f"]);
    assert_eq!(visited.len(), 4);
    assert_eq!(rendered(&visited[0]), "1");
    assert_eq!(rendered(&visited[1]), "2");
    assert_eq!(rendered(&visited[2]), "3");
    assert_eq!(rendered(&visited[3]), "4");
}

#[test]
fn integration_tests_test_traverse_hash_wildcard() {
    let doc = prefix_doc();
    let visited = run(&doc, &["a", "*", "f"]);
    assert_eq!(visited.len(), 4);
    assert_eq!(rendered(&visited[0]), "1");
    assert_eq!(rendered(&visited[1]), "2");
    assert_eq!(rendered(&visited[2]), "3");
    assert_eq!(rendered(&visited[3]), "4");
}

#[test]
fn integration_test_traverse_test_child_array_filtering() {
    let doc = filter_doc();
    let visited = run(&doc, &["a", "(b.d==cat)", "b", "c"]);
    assert_eq!(visited.len(), 2);
    assert_eq!(rendered(&visited[0]), "thing1");
    assert_eq!(rendered(&visited[1]), "thing3");
}

#[test]
fn integration_tests_test_child_array_filtering() {
    let doc = filter_doc();
    let visited = run(&doc, &["a", "(b.d==cat)", "b", "c"]);
    assert_eq!(visited.len(), 2);
    assert_eq!(rendered(&visited[0]), "thing1");
    assert_eq!(rendered(&visited[1]), "thing3");
    assert_eq!(visited[1].path, "a[3].b.c");
}

#[test]
fn integration_test_traverse_test_child_array_filtering_with_wildcard() {
    let doc = filter_doc();
    let visited = run(&doc, &["a", "(b.d==cat*)", "b", "c"]);
    assert_eq!(visited.len(), 3);
    assert_eq!(rendered(&visited[0]), "thing1");
    assert_eq!(rendered(&visited[1]), "thing2");
    assert_eq!(rendered(&visited[2]), "thing3");
}

#[test]
fn integration_tests_test_child_array_filtering_with_wildcard() {
    let doc = filter_doc();
    let visited = run(&doc, &["a", "(b.d==cat*)", "b", "c"]);
    assert_eq!(visited.len(), 3);
    assert_eq!(rendered(&visited[0]), "thing1");
    assert_eq!(rendered(&visited[1]), "thing2");
    assert_eq!(rendered(&visited[2]), "thing3");
}

#[test]
fn integration_test_traverse_test_handle_splat() {
    let doc = splat_doc();
    let visited = run(&doc, &["a", "**", "c"]);
    assert_eq!(visited.len(), 5);
    assert_eq!(rendered(&visited[0]), "thing1");
    assert_eq!(rendered(&visited[1]), "c: thing1");
    assert_eq!(rendered(&visited[2]), "thing2");
    assert_eq!(rendered(&visited[3]), "thing3");
    assert_eq!(rendered(&visited[4]), "thing4");
}

#[test]
fn integration_tests_test_handle_splat() {
    let doc = splat_doc();
    let visited = run(&doc, &["a", "**", "c"]);
    assert_eq!(visited.len(), 5);
    assert_eq!(rendered(&visited[0]), "thing1");
    assert_eq!(rendered(&visited[1]), "c: thing1");
    assert_eq!(rendered(&visited[2]), "thing2");
    assert_eq!(rendered(&visited[3]), "thing3");
    assert_eq!(rendered(&visited[4]), "thing4");
    assert_eq!(visited[0].path, "a.b1.c.c");
    assert_eq!(visited[1].path, "a.b1.c");
    assert_eq!(visited[3].path, "a.b3.d[0].f.c");
    assert_eq!(visited[4].path, "a.b3.d[1].f.g.c");
}

fn check_splat_ending(visited: &[VisitedNode]) {
    let expected = [
        "thing1", "cat cat", "thing2", "dog dog", "thing3", "beep", "thing4", "boop", "mooo",
    ];
    assert_eq!(visited.len(), 9);
    for (v, e) in visited.iter().zip(expected.iter()) {
        assert_eq!(rendered(v), *e);
    }
}

#[test]
fn integration_test_traverse_test_handle_splat_ending() {
    let doc = splat_doc();
    check_splat_ending(&run(&doc, &["a", "**"]));
}

#[test]
fn integration_tests_test_handle_splat_ending() {
    let doc = splat_doc();
    let visited = run(&doc, &["a", "**"]);
    check_splat_ending(&visited);
    assert_eq!(visited[8].path, "a.b3.d[2].d");
}

#[test]
fn integration_test_traverse_test_handle_child_value_filter_array() {
    let doc = animals_array_doc();
    let visited = run(&doc, &["animals", "(.==c*)"]);
    assert_eq!(visited.len(), 2);
    assert_eq!(rendered(&visited[0]), "cats");
    assert_eq!(rendered(&visited[1]), "cheetah");
}

#[test]
fn integration_tests_test_handle_child_value_filter_array() {
    let doc = animals_array_doc();
    let visited = run(&doc, &["animals", "(.==c*)"]);
    assert_eq!(visited.len(), 2);
    assert_eq!(rendered(&visited[0]), "cats");
    assert_eq!(rendered(&visited[1]), "cheetah");
    assert_eq!(visited[1].path, "animals[2]");
}

#[test]
fn integration_test_traverse_test_handle_child_value_filter_map() {
    let doc = animals_map_doc();
    let visited = run(&doc, &["animals", "(.==yes*)"]);
    assert_eq!(visited.len(), 2);
    assert_eq!(rendered(&visited[0]), "yes");
    assert_eq!(rendered(&visited[1]), "yessiree");
}

#[test]
fn integration_tests_test_handle_child_value_filter_map() {
    let doc = animals_map_doc();
    let visited = run(&doc, &["animals", "(.==yes*)"]);
    assert_eq!(visited.len(), 2);
    assert_eq!(rendered(&visited[0]), "yes");
    assert_eq!(rendered(&visited[1]), "yessiree");
    assert_eq!(visited[0].path, "animals.cats");
}
