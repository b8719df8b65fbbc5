use easier_tag::directorywatch::{DirectoryEntry, EntryKind, WatchEvent};
use easier_tag::folderbrowser::selection::SelectionCoordinator;
use easier_tag::folderbrowser::tree::{DirectoryTreeIndex, TreeError};
use easier_tag::folderbrowser::FolderBrowser;
use easier_tag::taggablefile::taggablefilelist::TaggableFileListModel;
use easier_tag::taggablefile::TagFields;

fn dir(parent: &str, name: &str) -> DirectoryEntry {
    DirectoryEntry::new(name, EntryKind::Directory, None, &format!("{}/{}", parent, name))
}

/// A browser of "/r" whose root lists the directories `names`.
fn browser(names: &[&str]) -> FolderBrowser {
    let mut b = FolderBrowser::new("r", "/r");
    assert!(b.init());
    for name in names {
        b.notify(0, WatchEvent::Inserted(dir("/r", name))).unwrap();
    }
    b.notify(0, WatchEvent::Loaded).unwrap();
    let done = b.refresh(0).unwrap();
    assert!(done.closed_watches.is_empty());
    assert!(done.selection.is_none());
    b
}

#[test]
fn a_selection_resolves_to_the_paths_of_its_nodes() {
    let mut b = browser(&["a", "b", "c"]);
    let ids = b.primary_dirlist().children_of(0).unwrap().clone();
    let paths = b.set_selection(&vec![ids[2], ids[0]]);
    assert_eq!(paths, vec![String::from("/r/c"), String::from("/r/a")]);
    assert_eq!(b.current_paths(), paths);
    assert_eq!(b.selection().selected(), &vec![ids[2], ids[0]]);
}

#[test]
fn what_is_not_in_the_tree_cannot_be_selected() {
    let mut b = browser(&["a"]);
    let ids = b.primary_dirlist().children_of(0).unwrap().clone();
    let paths = b.set_selection(&vec![99, ids[0], ids[0], 0]);
    assert_eq!(paths, vec![String::from("/r/a"), String::from("/r")]);
    assert_eq!(b.selection().selected(), &vec![ids[0], 0]);
    assert!(b.set_selection(&vec![]).is_empty());
    assert!(b.current_paths().is_empty());
}

#[test]
fn a_path_is_resolved_once() {
    let mut tree = DirectoryTreeIndex::new("r", "/r");
    tree.expand(0).unwrap();
    let same = DirectoryEntry::new("alias", EntryKind::Directory, None, "/r");
    tree.notify(0, WatchEvent::Inserted(same)).unwrap();
    tree.refresh(0).unwrap();
    let mut selection = SelectionCoordinator::new();
    let paths = selection.set_selection(&tree, &vec![0, 1]);
    assert_eq!(selection.selected(), &vec![0, 1]);
    assert_eq!(paths, vec![String::from("/r")]);
}

#[test]
fn a_removed_directory_leaves_the_selection() {
    let mut b = browser(&["a", "b"]);
    let ids = b.primary_dirlist().children_of(0).unwrap().clone();
    b.expand(ids[0]).unwrap();
    b.set_selection(&ids);
    b.notify(0, WatchEvent::Removed(String::from("a"))).unwrap();
    // nothing changes before the refresh
    assert_eq!(b.current_paths(), vec![String::from("/r/a"), String::from("/r/b")]);
    let done = b.refresh(0).unwrap();
    assert_eq!(done.closed_watches, vec![String::from("/r/a")]);
    assert_eq!(done.selection, Some(vec![String::from("/r/b")]));
    assert_eq!(b.selection().selected(), &vec![ids[1]]);
    // a refresh that takes nothing selected away sends no event
    b.notify(0, WatchEvent::Inserted(dir("/r", "c"))).unwrap();
    let done = b.refresh(0).unwrap();
    assert_eq!(done.selection, None);
    assert_eq!(b.current_paths(), vec![String::from("/r/b")]);
}

#[test]
fn the_browser_refuses_what_the_tree_refuses() {
    let mut b = FolderBrowser::new("r", "/r");
    assert_eq!(b.refresh(0).err(), Some(TreeError::NotExpanded));
    assert_eq!(b.refresh(3).err(), Some(TreeError::UnknownNode));
    assert_eq!(b.notify(0, WatchEvent::Loaded), Err(TreeError::NotExpanded));
    assert_eq!(b.expand(3), Err(TreeError::UnknownNode));
    assert_eq!(b.collapse(3), Err(TreeError::UnknownNode));
    assert!(b.init());
    assert!(!b.init());
    assert_eq!(b.collapse(0), Ok(()));
    assert!(!b.primary_dirlist().node(0).unwrap().is_expanded());
}

#[test]
fn a_change_of_selection_replaces_the_folders_in_one_step() {
    let mut b = browser(&["a", "b"]);
    let ids = b.primary_dirlist().children_of(0).unwrap().clone();
    let mut filelist = TaggableFileListModel::new();

    let watchers = b.selection_changed(&ids, &mut filelist).unwrap();
    assert_eq!(watchers, vec![0, 1]);
    for (w, folder) in watchers.iter().zip(["/r/a", "/r/b"]) {
        let song = DirectoryEntry::new("s.mp3", EntryKind::File, None, &format!("{}/s.mp3", folder));
        assert!(filelist.notify(*w, WatchEvent::Inserted(song)));
        assert!(filelist.notify(*w, WatchEvent::Loaded));
    }
    let in_flight = filelist.begin_rebuild().unwrap();
    assert_eq!(in_flight.paths, vec![String::from("/r/a/s.mp3"), String::from("/r/b/s.mp3")]);

    // the selection narrows to b while a and b are still being read
    let watchers = b.selection_changed(&vec![ids[1]], &mut filelist).unwrap();
    assert_eq!(watchers, vec![2]);
    assert!(filelist
        .rebuild_taglist(in_flight.generation, vec![Some(TagFields::empty()), Some(TagFields::empty())])
        .is_err());
    let song = DirectoryEntry::new("s.mp3", EntryKind::File, None, "/r/b/s.mp3");
    assert!(filelist.notify(2, WatchEvent::Inserted(song)));
    assert!(!filelist.needs_rebuild());
    assert!(filelist.notify(2, WatchEvent::Loaded));
    assert!(filelist.needs_rebuild());
    let plan = filelist.begin_rebuild().unwrap();
    assert_eq!(plan.paths, vec![String::from("/r/b/s.mp3")]);
    filelist.rebuild_taglist(plan.generation, vec![Some(TagFields::empty())]).unwrap();
    assert_eq!(filelist.n_items(), 1);
    assert_eq!(filelist.item(0).unwrap().filename(), "/r/b/s.mp3");
}

#[test]
fn the_browser_shows_the_rows_of_its_tree() {
    let mut b = browser(&["a", "b"]);
    let ids = b.primary_dirlist().children_of(0).unwrap().clone();
    assert_eq!(b.visible_rows(), ids);
    assert_eq!(b.expand(ids[0]), Ok(true));
    b.notify(ids[0], WatchEvent::Inserted(dir("/r/a", "inner"))).unwrap();
    b.refresh(ids[0]).unwrap();
    assert_eq!(b.visible_rows(), vec![ids[0], 3, ids[1]]);
}
