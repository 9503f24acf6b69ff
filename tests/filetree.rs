use filetree::FileTree;

fn sorted(v: Option<Vec<String>>) -> Vec<String> {
    let mut v = v.expect("a well-formed tree answers every group");
    v.sort();
    v
}

#[test]
fn fresh_tree_is_empty() {
    let t = FileTree::new();
    assert!(t.is_empty());
    assert!(!t.contains_file("a"));
    assert!(!t.contains_group("g1"));
    assert_eq!(sorted(t.get("g1")), Vec::<String>::new());
    assert_eq!(t.iter(), Vec::<usize>::new());
}

#[test]
fn insert_then_contains_then_remove() {
    let mut t = FileTree::new();
    t.insert("a", "g1");
    assert!(t.contains_file("a"));
    t.insert("a/b", "g1");
    assert!(t.contains_file("a/b"));
    t.remove("a/b");
    assert!(!t.contains_file("a/b"));
    assert!(t.contains_file("a"));
}

#[test]
fn empty_after_removing_sole_node() {
    let mut t = FileTree::new();
    assert!(t.is_empty());
    t.insert("a", "g1");
    assert!(!t.is_empty());
    t.remove("a");
    assert!(t.is_empty());
    assert!(!t.contains_file("a"));
}

#[test]
fn group_example_with_removal() {
    let mut t = FileTree::new();
    t.insert("a", "g1");
    t.insert("a/b", "g2");
    t.insert("a/c", "g2");
    assert_eq!(sorted(t.get("g2")), vec!["a/b".to_string(), "a/c".to_string()]);
    t.remove("a/b");
    assert_eq!(sorted(t.get("g2")), vec!["a/c".to_string()]);
    assert!(!t.contains_file("a/b"));
    assert_eq!(sorted(t.get("g1")), vec!["a".to_string()]);
}

#[test]
fn removing_interior_node_orphans_subtree() {
    let mut t = FileTree::new();
    t.insert("a", "g1");
    t.insert("a/b", "g1");
    t.remove("a");
    assert!(!t.contains_file("a/b"));
    assert!(!t.contains_file("a"));
    assert_eq!(sorted(t.get("g1")), Vec::<String>::new());
    assert!(!t.is_empty());
}

#[test]
fn removing_middle_node_detaches_descendants_only() {
    let mut t = FileTree::new();
    t.insert("a", "g1");
    t.insert("a/b", "g2");
    t.insert("a/b/c", "g2");
    t.insert("a/d", "g2");
    t.remove("a/b");
    assert!(!t.contains_file("a/b/c"));
    assert!(t.contains_file("a/d"));
    assert_eq!(sorted(t.get("g2")), vec!["a/d".to_string()]);
}

#[test]
fn duplicate_path_removed_one_at_a_time() {
    let mut t = FileTree::new();
    t.insert("a", "g1");
    t.insert("a/b", "g1");
    t.insert("a/b", "g2");
    assert_eq!(sorted(t.get("g1")), vec!["a".to_string(), "a/b".to_string()]);
    assert_eq!(sorted(t.get("g2")), vec!["a/b".to_string()]);
    // the later sibling comes first in traversal order
    t.remove("a/b");
    assert!(t.contains_file("a/b"));
    assert_eq!(sorted(t.get("g2")), Vec::<String>::new());
    assert_eq!(sorted(t.get("g1")), vec!["a".to_string(), "a/b".to_string()]);
    t.remove("a/b");
    assert!(!t.contains_file("a/b"));
}

#[test]
fn get_lists_each_path_once() {
    let mut t = FileTree::new();
    t.insert("a", "g1");
    t.insert("a/b", "g2");
    t.insert("a/b", "g2");
    assert_eq!(t.get("g2"), Some(vec!["a/b".to_string()]));
}

#[test]
fn traversal_is_depth_first_last_child_first() {
    let mut t = FileTree::new();
    t.insert("a", "g");
    t.insert("a/b", "g");
    t.insert("a/c", "g");
    t.insert("a/b/d", "g");
    assert_eq!(t.iter(), vec![0, 2, 1, 3]);
    t.remove("a/b");
    assert_eq!(t.iter(), vec![0, 2]);
    t.remove("a");
    assert_eq!(t.iter(), vec![0]);
}

#[test]
fn insert_needs_tracked_parent() {
    let mut t = FileTree::new();
    assert!(t.try_insert("x/y", "g1"));
    assert!(t.contains_file("x/y"));
    assert!(!t.try_insert("z/w", "g2"));
    assert!(!t.contains_file("z/w"));
    assert!(!t.contains_group("g2"));
    assert!(t.try_insert("x/y/z", "g2"));
    assert!(t.contains_file("x/y/z"));
    assert_eq!(t.iter(), vec![0, 1]);
}

#[test]
fn parent_directory_of_nested_path() {
    let mut t = FileTree::new();
    t.insert("/home", "g");
    t.insert("/home/user", "g");
    t.insert("/home/user/.config", "g");
    assert!(t.try_insert("/home/user/.config/app.toml", "g"));
    assert!(!t.try_insert("/home/other/file", "g"));
    assert!(t.contains_file("/home/user/.config/app.toml"));
}

#[test]
fn remove_of_untracked_path_changes_nothing() {
    let mut t = FileTree::new();
    t.insert("a", "g1");
    t.remove("b");
    assert!(t.contains_file("a"));
    assert!(t.contains_group("g1"));
    assert_eq!(t.iter(), vec![0]);
}

#[test]
fn group_set_records_and_prunes() {
    let mut t = FileTree::new();
    t.insert("a", "g1");
    t.insert("a/b", "g2");
    t.insert("a/c", "g2");
    assert!(t.contains_group("g1"));
    assert!(t.contains_group("g2"));
    assert!(!t.contains_group("g3"));
    t.remove("a/b");
    assert!(t.contains_group("g2"));
    t.remove("a/c");
    assert!(!t.contains_group("g2"));
    assert!(t.contains_group("g1"));
}

#[test]
fn group_kept_while_orphan_carries_it() {
    let mut t = FileTree::new();
    t.insert("a", "g1");
    t.insert("a/b", "g2");
    t.remove("a");
    assert!(!t.contains_group("g1"));
    assert!(t.contains_group("g2"));
}

#[test]
fn canonicalize_leaves_tree_alone() {
    let mut t = FileTree::new();
    t.insert("a", "g1");
    t.insert("a/b", "g1");
    t.canonicalize();
    assert!(t.contains_file("a/b"));
    assert_eq!(t.iter(), vec![0, 1]);
}

#[test]
fn trailing_slash_names_the_same_path() {
    let mut t = FileTree::new();
    t.insert("a/", "g1");
    assert!(t.try_insert("a/b", "g2"));
    assert!(t.contains_file("a"));
    assert!(t.contains_file("a/b/"));
    assert!(t.contains_file("a//b"));
    assert!(t.contains_file("a/./b"));
    assert!(!t.contains_file("a/c"));
    assert_eq!(t.iter(), vec![0, 1]);
}

#[test]
fn get_merges_paths_with_same_components() {
    let mut t = FileTree::new();
    t.insert("a", "g1");
    t.insert("a/b", "g2");
    t.insert("a/b/", "g2");
    // the later sibling comes first in traversal order
    assert_eq!(t.iter(), vec![0, 2, 1]);
    assert_eq!(t.get("g2"), Some(vec!["a/b/".to_string()]));
    t.remove("a/b");
    assert!(t.contains_file("a/b/"));
    assert_eq!(t.get("g2"), Some(vec!["a/b".to_string()]));
    t.remove("a/b/");
    assert!(!t.contains_file("a/b"));
    assert_eq!(t.get("g2"), Some(Vec::<String>::new()));
}
