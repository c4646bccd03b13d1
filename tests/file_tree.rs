use filetree::node::FileNode;
use filetree::render::{render_rows, Area, Grid};
use filetree::snapshot::{Listing, TreeError};
use filetree::state::{FileTreeState, SerializationError};
use filetree::tree::FileTree;

fn s(x: &str) -> String {
    x.to_string()
}

fn sample() -> Listing {
    Listing::Directory(
        s("root"),
        vec![
            Listing::File(s("a.txt")),
            Listing::Directory(s("b"), vec![Listing::File(s("c.txt"))]),
        ],
    )
}

fn paths(rows: &[&FileNode]) -> Vec<String> {
    rows.iter().map(|n| n.path().to_string()).collect()
}

fn row_text(g: &Grid, r: usize) -> String {
    (0..g.width).map(|c| g.get(r, c)).collect()
}

#[test]
fn empty_state_shows_only_root() {
    let t = FileTree::new("/tmp/root", &sample()).unwrap();
    assert_eq!(paths(&t.to_list_with_limit(10)), vec!["root"]);
}

#[test]
fn visible_rows_scenario() {
    let mut t = FileTree::new("/tmp/root", &sample()).unwrap();
    t.state().expand("root");
    assert_eq!(paths(&t.to_list_with_limit(10)), vec!["root", "root/b", "root/a.txt"]);
    t.state().expand("root/b");
    assert_eq!(
        paths(&t.to_list_with_limit(10)),
        vec!["root", "root/b", "root/a.txt", "root/b/c.txt"]
    );
}

#[test]
fn collapsed_parent_hides_expanded_child() {
    let mut t = FileTree::new("/tmp/root", &sample()).unwrap();
    t.state().expand("root/b");
    assert_eq!(paths(&t.to_list_with_limit(10)), vec!["root"]);
    t.state().expand("root");
    t.state().collapse("root/b");
    let rows = t.to_list_with_limit(10);
    assert!(!paths(&rows).contains(&s("root/b/c.txt")));
}

#[test]
fn expand_root_shows_immediate_children_only() {
    let listing = Listing::Directory(
        s("top"),
        vec![
            Listing::Directory(s("d"), vec![Listing::Directory(s("e"), vec![Listing::File(s("f"))])]),
            Listing::File(s("g")),
        ],
    );
    let mut t = FileTree::new("top", &listing).unwrap();
    t.state().expand("top");
    assert_eq!(paths(&t.to_list_with_limit(100)), vec!["top", "top/d", "top/g"]);
}

#[test]
fn limit_bounds_processed_nodes() {
    let mut t = FileTree::new("r", &sample()).unwrap();
    t.state().expand("root");
    t.state().expand("root/b");
    assert_eq!(paths(&t.to_list_with_limit(0)), vec!["root"]);
    assert_eq!(paths(&t.to_list_with_limit(1)), vec!["root", "root/b", "root/a.txt"]);
    assert_eq!(
        paths(&t.to_list_with_limit(2)),
        vec!["root", "root/b", "root/a.txt", "root/b/c.txt"]
    );
}

#[test]
fn node_accessors() {
    let n = FileNode::File(s("root/b/c.txt"));
    assert_eq!(n.path(), "root/b/c.txt");
    assert_eq!(n.name(), "c.txt");
    assert_eq!(n.depth(), 3);
    assert!(!n.has_children());
    let d = FileNode::Directory(s("root"), vec![]);
    assert_eq!(d.name(), "root");
    assert_eq!(d.depth(), 1);
    assert!(d.has_children());
    let l = FileNode::Link(s("x/"), s("target"));
    assert_eq!(l.name(), "");
    assert_eq!(l.depth(), 2);
}

#[test]
fn build_composes_paths_and_sorts_siblings() {
    let listing = Listing::Directory(
        s("w"),
        vec![
            Listing::Link(s("ln"), s("/elsewhere")),
            Listing::File(s("z.rs")),
            Listing::File(s("a.rs")),
            Listing::Directory(s("sub"), vec![]),
        ],
    );
    let n = FileNode::new_recursive(&listing, None).unwrap();
    assert_eq!(
        n,
        FileNode::Directory(
            s("w"),
            vec![
                FileNode::Directory(s("w/sub"), vec![]),
                FileNode::File(s("w/a.rs")),
                FileNode::File(s("w/z.rs")),
                FileNode::Link(s("w/ln"), s("/elsewhere")),
            ]
        )
    );
}

#[test]
fn build_under_parent() {
    let n = FileNode::new_recursive(&Listing::File(s("file_tree.rs")), Some("widgets")).unwrap();
    assert_eq!(n, FileNode::File(s("widgets/file_tree.rs")));
}

#[test]
fn build_discards_failed_children() {
    let listing = Listing::Directory(
        s("d"),
        vec![
            Listing::Unreadable,
            Listing::File(s("ok")),
            Listing::File(s("bad/name")),
            Listing::File(s("")),
        ],
    );
    let n = FileNode::new_recursive(&listing, None).unwrap();
    assert_eq!(n, FileNode::Directory(s("d"), vec![FileNode::File(s("d/ok"))]));
}

#[test]
fn build_root_failure_is_path_error() {
    assert_eq!(FileTree::new("x", &Listing::Unreadable).err(), Some(TreeError::PathError));
    assert_eq!(
        FileNode::new_recursive(&Listing::File(s("a/b")), None),
        Err(TreeError::PathError)
    );
}

#[test]
fn sibling_order_independent_of_listing_order() {
    let one = Listing::Directory(
        s("r"),
        vec![Listing::File(s("b")), Listing::Directory(s("c"), vec![]), Listing::File(s("a"))],
    );
    let two = Listing::Directory(
        s("r"),
        vec![Listing::File(s("a")), Listing::File(s("b")), Listing::Directory(s("c"), vec![])],
    );
    assert_eq!(
        FileNode::new_recursive(&one, None).unwrap(),
        FileNode::new_recursive(&two, None).unwrap()
    );
}

#[test]
fn state_expand_collapse() {
    let mut st = FileTreeState::default();
    assert!(!st.is_expanded("a"));
    st.expand("a");
    st.expand("a");
    st.expand("a/b");
    assert!(st.is_expanded("a"));
    assert!(st.is_expanded("a/b"));
    st.collapse("a");
    assert!(!st.is_expanded("a"));
    assert!(st.is_expanded("a/b"));
}

#[test]
fn state_round_trip() {
    let mut st = FileTreeState::new();
    st.expand("root");
    st.expand("root/b \"q\"");
    let text = st.serialize();
    assert_eq!(text, "[\"root\",\"root/b \\\"q\\\"\"]");
    let back = FileTreeState::deserialize(&text).unwrap();
    assert!(back.is_expanded("root"));
    assert!(back.is_expanded("root/b \"q\""));
    assert!(!back.is_expanded("root/b"));
    assert_eq!(back.serialize(), text);
}

#[test]
fn state_round_trip_empty() {
    let st = FileTreeState::new();
    let text = st.serialize();
    assert_eq!(text, "[]");
    let back = FileTreeState::deserialize(&text).unwrap();
    assert!(!back.is_expanded(""));
}

#[test]
fn state_deserialize_malformed() {
    assert_eq!(FileTreeState::deserialize("{not json").err(), Some(SerializationError::Malformed));
    assert_eq!(FileTreeState::deserialize("[1,2]").err(), Some(SerializationError::Malformed));
}

#[test]
fn render_draws_indented_names() {
    let mut t = FileTree::new("/tmp/root", &sample()).unwrap();
    t.state().expand("root");
    let mut g = Grid::new(8, 4, '.');
    t.render(Area { x: 0, y: 0, width: 8, height: 4 }, &mut g);
    assert_eq!(row_text(&g, 0), ".root...");
    assert_eq!(row_text(&g, 1), "..b.....");
    assert_eq!(row_text(&g, 2), "..a.txt.");
    assert_eq!(row_text(&g, 3), "........");
}

#[test]
fn render_truncates_at_area_width() {
    let mut t = FileTree::new("/tmp/root", &sample()).unwrap();
    t.state().expand("root");
    let mut g = Grid::new(10, 3, '.');
    t.render(Area { x: 1, y: 0, width: 4, height: 3 }, &mut g);
    assert_eq!(row_text(&g, 0), "..roo.....");
    assert_eq!(row_text(&g, 1), "...b......");
    assert_eq!(row_text(&g, 2), "...a......");
}

#[test]
fn render_indent_beyond_width_writes_nothing() {
    let n = FileNode::File(s("a/b/c/d"));
    let rows = vec![&n];
    let mut g = Grid::new(6, 2, '.');
    render_rows(&rows, Area { x: 0, y: 1, width: 3, height: 1 }, &mut g);
    assert_eq!(row_text(&g, 0), "......");
    assert_eq!(row_text(&g, 1), "......");
}

#[test]
fn render_uses_row_major_addressing() {
    let a = FileNode::File(s("ab"));
    let b = FileNode::File(s("cd"));
    let rows = vec![&a, &b];
    let mut g = Grid::new(4, 3, '.');
    render_rows(&rows, Area { x: 1, y: 1, width: 3, height: 2 }, &mut g);
    assert_eq!(g.cells.iter().collect::<String>(), "......ab..cd");
}

#[test]
fn render_degenerate_area_is_no_op() {
    let mut t = FileTree::new("/tmp/root", &sample()).unwrap();
    t.state().expand("root");
    let mut g = Grid::new(5, 5, '.');
    t.render(Area { x: 0, y: 0, width: 0, height: 5 }, &mut g);
    t.render(Area { x: 0, y: 0, width: 5, height: 0 }, &mut g);
    assert!(g.cells.iter().all(|c| *c == '.'));
}
