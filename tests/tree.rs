use tag_spider_rs::tree::{FileNode, FileTree, TreeError};

fn s(x: &str) -> String {
    x.to_string()
}

fn items(list: &[(&str, Option<&str>)]) -> Vec<(String, Option<String>)> {
    list.iter().map(|(id, p)| (s(id), p.map(s))).collect()
}

#[test]
fn node_constructors() {
    let a = FileNode::new(s("a"), Some(s("p")), vec![s("c")]);
    assert_eq!(a.id, "a");
    assert_eq!(a.parent, Some(s("p")));
    assert!(!a.is_root());
    let r = FileNode::new_root(s("r"), vec![]);
    assert!(r.is_root());
    let c = FileNode::new_with_parent(s("c"), s("r"), vec![]);
    assert_eq!(c.parent, Some(s("r")));
    assert!(!c.is_root());
}

#[test]
fn add_child_keeps_children_unique() {
    let mut n = FileNode::new_root(s("r"), vec![]);
    n.add_child(s("x"));
    n.add_child(s("y"));
    n.add_child(s("x"));
    assert_eq!(n.children, vec![s("x"), s("y")]);
}

#[test]
fn new_tree_is_empty_with_given_root() {
    let t = FileTree::new(s("top"));
    assert_eq!(t.root().id, "top");
    assert!(t.root().is_root());
    assert!(t.nodes().is_empty());
    assert_eq!(t.check_root().unwrap_err(), TreeError::NoRoot);
}

#[test]
fn assemble_links_parents_and_children() {
    let t = FileTree::assemble(&items(&[("a", None), ("b", Some("a")), ("c", Some("b")), ("d", Some("a"))])).unwrap();
    let a = t.get_node(&s("a")).unwrap();
    let mut kids = a.children.clone();
    kids.sort();
    assert_eq!(kids, vec![s("b"), s("d")]);
    assert_eq!(t.get_node(&s("c")).unwrap().parent, Some(s("b")));
    assert_eq!(t.nodes().len(), 4);
    assert_eq!(t.check_root().unwrap().id, "a");
    assert_eq!(t.root().id, "");
}

#[test]
fn missing_parent_is_reported() {
    let mut t = FileTree::new(s(""));
    t.insert_node(FileNode::new_root(s("a"), vec![]));
    t.insert_node(FileNode::new_with_parent(s("b"), s("zz"), vec![]));
    assert_eq!(
        t.check_root().unwrap_err(),
        TreeError::MissingParent { parent: s("zz"), child: s("b") }
    );
}

#[test]
fn two_roots_are_reported() {
    let r = FileTree::assemble(&items(&[("a", None), ("b", None), ("c", Some("a"))]));
    match r {
        Err(e) => assert_eq!(e, TreeError::ManyRoots(2)),
        Ok(_) => panic!("a tree with two roots was accepted"),
    }
}

#[test]
fn placeholder_parent_becomes_a_root() {
    let t = FileTree::assemble(&items(&[("b", Some("a"))])).unwrap();
    let a = t.get_node(&s("a")).unwrap();
    assert!(a.is_root());
    assert_eq!(a.children, vec![s("b")]);
}

#[test]
fn adopt_root_takes_the_only_parentless_node() {
    let mut t = FileTree::new(s(""));
    t.insert_item(s("a"), None);
    t.insert_item(s("b"), Some(s("a")));
    t.adopt_root();
    assert_eq!(t.root().id, "a");
    assert_eq!(t.root().children, vec![s("b")]);
}

#[test]
fn adopt_root_keeps_the_root_of_a_bad_tree() {
    let mut t = FileTree::new(s("old"));
    t.insert_item(s("a"), None);
    t.insert_item(s("b"), None);
    t.adopt_root();
    assert_eq!(t.root().id, "old");
}
