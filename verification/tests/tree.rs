use pathtree::Tree;

#[test]
fn test_insert() {
    let mut tree = Tree::new();
    tree.insert("/test", "0");
    let root = &tree.root;
    assert_eq!(root.children.len(), 1);
    let new_node = &root.children[0];
    assert_eq!(new_node.name, "test");
    assert_eq!(new_node.id, Some("0".to_owned()));
}

#[test]
fn test_get() {
    let mut tree = Tree::new();
    tree.insert("/test", "0");
    tree.insert("/test/test/test", "1");
    assert_eq!(tree.get("/test"), Some("0".to_owned()));
    assert_eq!(tree.get("/test/test/test"), Some("1".to_owned()));
    assert_eq!(tree.get("/test/test"), None);
    assert_eq!(tree.get("/test/test/test/test"), None);
}

#[test]
fn test_invalid() {
    let mut tree = Tree::new();
    tree.insert("/test", "0");
    tree.insert("/test/test", "1");
    tree.insert("/test/test/test", "2");
    tree.invalid("/test/test/test/test");
    tree.invalid("/test/test");
    assert_eq!(tree.get("/test/test/test"), None);
    assert_eq!(tree.get("/test").as_deref(), Some("0"));
}

#[test]
fn insert_then_get_returns_id() {
    let mut tree = Tree::new();
    tree.insert("/a/b/c", "id-1");
    assert_eq!(tree.get("/a/b/c"), Some("id-1".to_owned()));
}

#[test]
fn second_insert_overwrites() {
    let mut tree = Tree::new();
    tree.insert("/a", "first");
    tree.insert("/a", "second");
    assert_eq!(tree.get("/a"), Some("second".to_owned()));
    // no duplicate sibling is created for the repeated path
    assert_eq!(tree.root.children.len(), 1);
}

#[test]
fn get_missing_path_not_found() {
    let mut tree = Tree::new();
    tree.insert("/a/b", "0");
    assert_eq!(tree.get("/c"), None);
    assert_eq!(tree.get("/a/c"), None);
    assert_eq!(tree.get("/a/b/c"), None);
}

#[test]
fn get_strict_ancestor_not_found() {
    let mut tree = Tree::new();
    tree.insert("/a/b/c", "0");
    assert_eq!(tree.get("/a/b"), None);
    assert_eq!(tree.get("/a"), None);
}

#[test]
fn invalid_cascades_to_descendants() {
    let mut tree = Tree::new();
    tree.insert("/a", "0");
    tree.insert("/a/b", "1");
    tree.insert("/a/b/c", "2");
    tree.insert("/a/b/c/d", "3");
    tree.invalid("/a/b");
    assert_eq!(tree.get("/a/b"), None);
    assert_eq!(tree.get("/a/b/c"), None);
    assert_eq!(tree.get("/a/b/c/d"), None);
    assert_eq!(tree.get("/a"), Some("0".to_owned()));
}

#[test]
fn invalid_missing_is_noop() {
    let mut tree = Tree::new();
    tree.insert("/a/b", "0");
    // parent path does not exist
    tree.invalid("/x/y/z");
    // parent exists, final segment does not
    tree.invalid("/a/c");
    assert_eq!(tree.get("/a/b"), Some("0".to_owned()));
}

#[test]
fn invalid_root_path_is_noop() {
    let mut tree = Tree::new();
    tree.insert("/a", "0");
    tree.invalid("");
    tree.invalid("/");
    assert_eq!(tree.get("/a"), Some("0".to_owned()));
}

#[test]
fn slash_forms_are_equivalent() {
    let mut tree = Tree::new();
    tree.insert("/test", "v");
    assert_eq!(tree.get("test"), Some("v".to_owned()));
    assert_eq!(tree.get("test/"), Some("v".to_owned()));
    assert_eq!(tree.get("/test/"), Some("v".to_owned()));
    let mut tree2 = Tree::new();
    tree2.insert("test/", "w");
    assert_eq!(tree2.get("/test"), Some("w".to_owned()));
}

#[test]
fn root_sentinel_binding() {
    let tree = Tree::new();
    assert_eq!(tree.get(""), Some("".to_owned()));
    assert_eq!(tree.get("/"), Some("".to_owned()));
}

#[test]
fn empty_path_addresses_root() {
    let mut tree = Tree::new();
    tree.insert("", "root-id");
    assert_eq!(tree.get("/"), Some("root-id".to_owned()));
    assert_eq!(tree.get(""), Some("root-id".to_owned()));
}

#[test]
fn double_slash_keeps_empty_segment() {
    let mut tree = Tree::new();
    tree.insert("a//b", "0");
    assert_eq!(tree.get("a//b"), Some("0".to_owned()));
    assert_eq!(tree.get("a/b"), None);
}

#[test]
fn disjoint_subtrees_are_independent() {
    let mut tree = Tree::new();
    tree.insert("/a/x", "0");
    tree.insert("/b/x", "1");
    tree.invalid("/a/x");
    assert_eq!(tree.get("/a/x"), None);
    assert_eq!(tree.get("/b/x"), Some("1".to_owned()));
}
