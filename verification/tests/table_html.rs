use pdfspatial::teds::{parse_table, TableTree};

fn child(tree: &TableTree, node: usize, k: usize) -> usize {
    tree.nodes[node].children[k]
}

#[test]
fn parses_simple_table() {
    let tree = parse_table("<table><tr><td>a</td><td>b</td></tr></table>");
    let root = &tree.nodes[tree.root];
    assert_eq!(root.tag, "table");
    assert_eq!(root.children.len(), 1);
    let tr = child(&tree, tree.root, 0);
    assert_eq!(tree.nodes[tr].children.len(), 2);
    assert_eq!(tree.nodes[child(&tree, tr, 0)].text, "a");
}

#[test]
fn spans_and_bbox_attributes_are_read() {
    let tree = parse_table(
        "<table><tr><td rowspan=\"2\" colspan=3 bbox=\"1 2 3 4\"> x </td><td colspan=\"wide\">y</td></tr></table>",
    );
    let tr = child(&tree, tree.root, 0);
    let first = &tree.nodes[child(&tree, tr, 0)];
    assert_eq!((first.rowspan, first.colspan), (2, 3));
    assert_eq!(first.bbox.as_deref(), Some("1 2 3 4"));
    assert_eq!(first.text, "x");
    let second = &tree.nodes[child(&tree, tr, 1)];
    assert_eq!((second.rowspan, second.colspan), (1, 1));
    assert_eq!(second.bbox, None);
}

#[test]
fn input_without_a_closed_top_level_node_is_an_empty_table() {
    let tree = parse_table("just text");
    let root = &tree.nodes[tree.root];
    assert_eq!(root.tag, "table");
    assert!(root.children.is_empty());
    assert_eq!(root.text, "");
    let unclosed = parse_table("<table><tr><td>a");
    assert_eq!(unclosed.nodes[unclosed.root].tag, "table");
    assert!(unclosed.nodes[unclosed.root].children.is_empty());
}

#[test]
fn children_follow_their_parents_in_the_arena() {
    let tree = parse_table("<table><thead><tr><th>h</th></tr></thead><tbody><tr><td>1</td></tr></tbody></table>");
    for (i, node) in tree.nodes.iter().enumerate() {
        for &c in &node.children {
            assert!(i < c && c < tree.nodes.len());
        }
    }
    assert_eq!(tree.nodes[tree.root].children.len(), 2);
}
