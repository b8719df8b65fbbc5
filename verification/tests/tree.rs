use easier_tag::directorywatch::{DirectoryEntry, EntryKind, WatchEvent};
use easier_tag::folderbrowser::tree::{DirectoryTreeIndex, TreeError};

fn dir(parent: &str, name: &str) -> DirectoryEntry {
    DirectoryEntry::new(
        name,
        EntryKind::Directory,
        Some(String::from("inode/directory")),
        &format!("{}/{}", parent, name),
    )
}

fn file(parent: &str, name: &str) -> DirectoryEntry {
    DirectoryEntry::new(name, EntryKind::File, None, &format!("{}/{}", parent, name))
}

/// Expands `id` and lists the directories `names` below it.
fn grow(tree: &mut DirectoryTreeIndex, id: usize, names: &[&str]) -> Vec<usize> {
    let path = tree.node(id).unwrap().path().clone();
    tree.expand(id).unwrap();
    for name in names {
        tree.notify(id, WatchEvent::Inserted(dir(&path, name))).unwrap();
    }
    tree.notify(id, WatchEvent::Loaded).unwrap();
    assert_eq!(tree.refresh(id), Ok(vec![]));
    tree.children_of(id).unwrap().clone()
}

fn names(tree: &DirectoryTreeIndex, id: usize) -> Vec<String> {
    tree.children_of(id)
        .unwrap()
        .iter()
        .map(|c| tree.node(*c).unwrap().name().clone())
        .collect()
}

#[test]
fn a_new_tree_holds_its_root() {
    let tree = DirectoryTreeIndex::new("home", "/home/me");
    assert_eq!(tree.len(), 1);
    assert!(tree.contains(0));
    assert!(!tree.contains(1));
    let root = tree.node(0).unwrap();
    assert_eq!(root.name(), "home");
    assert_eq!(root.path(), "/home/me");
    assert_eq!(root.depth(), 0);
    assert_eq!(root.parent(), None);
    assert!(!root.is_expanded());
    assert!(!root.is_materialized());
    assert!(!root.is_unreadable());
    assert!(tree.node(1).is_none());
}

#[test]
fn children_are_there_once_the_node_was_expanded() {
    let mut tree = DirectoryTreeIndex::new("home", "/home/me");
    assert_eq!(tree.children_of(0), Err(TreeError::NotExpanded));
    assert_eq!(tree.children_of(5), Err(TreeError::UnknownNode));
    assert_eq!(tree.refresh(0), Err(TreeError::NotExpanded));
    assert_eq!(tree.notify(0, WatchEvent::Loaded), Err(TreeError::NotExpanded));
    assert_eq!(tree.expand(0), Ok(true));
    assert_eq!(tree.children_of(0), Ok(&vec![]));
    assert!(tree.node(0).unwrap().is_expanded());
    assert!(tree.node(0).unwrap().is_materialized());
}

#[test]
fn expanding_again_changes_nothing() {
    let mut tree = DirectoryTreeIndex::new("home", "/home/me");
    let children = grow(&mut tree, 0, &["a", "b"]);
    assert_eq!(tree.expand(0), Ok(false));
    assert_eq!(tree.children_of(0), Ok(&children));
    assert_eq!(tree.len(), 3);
    assert_eq!(tree.expand(9), Err(TreeError::UnknownNode));
}

#[test]
fn collapsing_keeps_what_is_below() {
    let mut tree = DirectoryTreeIndex::new("home", "/home/me");
    let children = grow(&mut tree, 0, &["a"]);
    assert_eq!(tree.collapse(0), Ok(()));
    assert!(!tree.node(0).unwrap().is_expanded());
    assert!(tree.node(0).unwrap().is_materialized());
    assert_eq!(tree.children_of(0), Ok(&children));
    assert_eq!(tree.collapse(7), Err(TreeError::UnknownNode));
    assert_eq!(tree.expand(0), Ok(false));
    assert!(tree.node(0).unwrap().is_expanded());
}

#[test]
fn siblings_stand_in_ordinal_order_and_files_are_left_out() {
    let mut tree = DirectoryTreeIndex::new("home", "/r");
    tree.expand(0).unwrap();
    for e in [
        dir("/r", "beta"),
        file("/r", "alpha.mp3"),
        dir("/r", "Zulu"),
        dir("/r", "alpha"),
        file("/r", "Aa"),
        dir("/r", "be"),
        dir("/r", "\u{e9}t\u{e9}"),
    ] {
        tree.notify(0, WatchEvent::Inserted(e)).unwrap();
    }
    assert_eq!(tree.refresh(0), Ok(vec![]));
    assert_eq!(names(&tree, 0), vec!["Zulu", "alpha", "be", "beta", "\u{e9}t\u{e9}"]);
    for c in tree.children_of(0).unwrap() {
        let node = tree.node(*c).unwrap();
        assert_eq!(node.depth(), 1);
        assert_eq!(node.parent(), Some(0));
        assert!(!node.is_materialized());
        assert_eq!(node.path(), &format!("/r/{}", node.name()));
    }
}

#[test]
fn a_refresh_keeps_the_nodes_that_stay() {
    let mut tree = DirectoryTreeIndex::new("home", "/r");
    let first = grow(&mut tree, 0, &["b", "d"]);
    let below_b = grow(&mut tree, first[0], &["x"]);
    tree.notify(0, WatchEvent::Inserted(dir("/r", "a"))).unwrap();
    tree.notify(0, WatchEvent::Inserted(dir("/r", "c"))).unwrap();
    assert_eq!(tree.refresh(0), Ok(vec![]));
    assert_eq!(names(&tree, 0), vec!["a", "b", "c", "d"]);
    let now = tree.children_of(0).unwrap().clone();
    assert_eq!(now[1], first[0]);
    assert_eq!(now[3], first[1]);
    // the new nodes follow everything that was there, in order of name
    assert_eq!((now[0], now[2]), (4, 5));
    assert_eq!(tree.children_of(first[0]), Ok(&below_b));
    assert!(tree.node(first[0]).unwrap().is_expanded());
}

#[test]
fn a_directory_that_is_gone_takes_all_below_it_along() {
    let mut tree = DirectoryTreeIndex::new("home", "/r");
    let top = grow(&mut tree, 0, &["keep", "lose"]);
    let (keep, lose) = (top[0], top[1]);
    let under_keep = grow(&mut tree, keep, &["k1"]);
    let under_lose = grow(&mut tree, lose, &["l1", "l2"]);
    let deep = grow(&mut tree, under_lose[0], &["d1"]);
    let before = tree.len();

    tree.notify(0, WatchEvent::Removed(String::from("lose"))).unwrap();
    let closed = tree.refresh(0).unwrap();
    // the watches of the removed nodes that had been expanded, and no others
    assert_eq!(closed, vec![String::from("/r/lose"), String::from("/r/lose/l1")]);

    assert_eq!(tree.len(), before);
    for gone in [lose, under_lose[0], under_lose[1], deep[0]] {
        assert!(!tree.contains(gone));
        assert!(tree.node(gone).is_none());
        assert_eq!(tree.children_of(gone), Err(TreeError::UnknownNode));
        assert_eq!(tree.expand(gone), Err(TreeError::UnknownNode));
        assert_eq!(tree.refresh(gone), Err(TreeError::UnknownNode));
        // a watch that was closed delivers nothing any more
        assert_eq!(
            tree.notify(gone, WatchEvent::Inserted(dir("/r/lose", "late"))),
            Err(TreeError::UnknownNode)
        );
    }
    for stays in [0, keep, under_keep[0]] {
        assert!(tree.contains(stays));
    }
    assert_eq!(tree.children_of(0), Ok(&vec![keep]));
    assert_eq!(tree.children_of(keep), Ok(&under_keep));
}

#[test]
fn a_directory_that_comes_back_is_a_new_node() {
    let mut tree = DirectoryTreeIndex::new("home", "/r");
    let top = grow(&mut tree, 0, &["a"]);
    grow(&mut tree, top[0], &["inner"]);
    tree.notify(0, WatchEvent::Removed(String::from("a"))).unwrap();
    assert_eq!(tree.refresh(0), Ok(vec![String::from("/r/a")]));
    tree.notify(0, WatchEvent::Inserted(dir("/r", "a"))).unwrap();
    assert_eq!(tree.refresh(0), Ok(vec![]));
    let again = tree.children_of(0).unwrap().clone();
    assert_eq!(again, vec![3]);
    assert!(!tree.contains(top[0]));
    assert!(!tree.node(3).unwrap().is_materialized());
}

#[test]
fn a_directory_that_cannot_be_read_has_no_children() {
    let mut tree = DirectoryTreeIndex::new("home", "/r");
    let top = grow(&mut tree, 0, &["a", "b"]);
    grow(&mut tree, top[1], &["x"]);
    tree.notify(0, WatchEvent::Failed).unwrap();
    let closed = tree.refresh(0).unwrap();
    assert_eq!(closed, vec![String::from("/r/b")]);
    assert_eq!(tree.children_of(0), Ok(&vec![]));
    assert!(tree.node(0).unwrap().is_unreadable());
    assert!(tree.contains(0));
    assert!(!tree.contains(top[0]));
    assert!(!tree.contains(top[1]));
    // the rest of the tree carries on
    assert_eq!(tree.expand(0), Ok(false));
    assert_eq!(tree.refresh(0), Ok(vec![]));
}

#[test]
fn a_directory_that_turns_into_a_file_is_removed() {
    let mut tree = DirectoryTreeIndex::new("home", "/r");
    let top = grow(&mut tree, 0, &["a"]);
    tree.notify(0, WatchEvent::Updated(file("/r", "a"))).unwrap();
    assert_eq!(tree.refresh(0), Ok(vec![]));
    assert_eq!(tree.children_of(0), Ok(&vec![]));
    assert!(!tree.contains(top[0]));
}

#[test]
fn a_refresh_below_the_root_leaves_the_rest_alone() {
    let mut tree = DirectoryTreeIndex::new("home", "/r");
    let top = grow(&mut tree, 0, &["a", "b"]);
    let under_a = grow(&mut tree, top[0], &["a1", "a2"]);
    let under_b = grow(&mut tree, top[1], &["b1"]);
    tree.notify(top[0], WatchEvent::Removed(String::from("a1"))).unwrap();
    assert_eq!(tree.refresh(top[0]), Ok(vec![]));
    assert_eq!(tree.children_of(top[0]), Ok(&vec![under_a[1]]));
    assert_eq!(tree.children_of(top[1]), Ok(&under_b));
    assert_eq!(tree.children_of(0), Ok(&top));
    assert_eq!(tree.node(under_a[1]).unwrap().depth(), 2);
}

#[test]
fn the_rows_follow_the_expanded_nodes() {
    let mut tree = DirectoryTreeIndex::new("home", "/r");
    assert!(tree.visible_rows().is_empty());
    let top = grow(&mut tree, 0, &["a", "b", "c"]);
    assert_eq!(tree.visible_rows(), top);
    let under_b = grow(&mut tree, top[1], &["b1", "b2"]);
    let under_b1 = grow(&mut tree, under_b[0], &["deep"]);
    assert_eq!(
        tree.visible_rows(),
        vec![top[0], top[1], under_b[0], under_b1[0], under_b[1], top[2]]
    );
    tree.collapse(under_b[0]).unwrap();
    assert_eq!(tree.visible_rows(), vec![top[0], top[1], under_b[0], under_b[1], top[2]]);
    tree.collapse(top[1]).unwrap();
    assert_eq!(tree.visible_rows(), top);
    tree.expand(top[1]).unwrap();
    assert_eq!(tree.visible_rows(), vec![top[0], top[1], under_b[0], under_b[1], top[2]]);
    tree.collapse(0).unwrap();
    assert!(tree.visible_rows().is_empty());
}

#[test]
fn a_snapshot_replaces_what_the_watch_held() {
    let mut tree = DirectoryTreeIndex::new("home", "/r");
    let top = grow(&mut tree, 0, &["a", "b"]);
    tree.notify(
        0,
        WatchEvent::Snapshot(vec![dir("/r", "c"), file("/r", "x.mp3"), dir("/r", "b"), dir("/r", "c")]),
    )
    .unwrap();
    assert_eq!(tree.refresh(0), Ok(vec![]));
    assert_eq!(names(&tree, 0), vec!["b", "c"]);
    assert_eq!(tree.children_of(0).unwrap()[0], top[1]);
    assert!(!tree.contains(top[0]));
}
