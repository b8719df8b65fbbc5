use easier_tag::directorywatch::{DirectoryEntry, EntryKind, WatchEvent};
use easier_tag::taggablefile::taggablefilelist::{
    CollectionReset, ModelError, TaggableFileListModel,
};
use easier_tag::taggablefile::{CoverImage, TagFields, TaggableFile};

fn file(dir: &str, name: &str) -> DirectoryEntry {
    DirectoryEntry::new(name, EntryKind::File, None, &format!("{}/{}", dir, name))
}

fn folder(dir: &str, name: &str) -> DirectoryEntry {
    DirectoryEntry::new(
        name,
        EntryKind::Directory,
        Some(String::from("inode/directory")),
        &format!("{}/{}", dir, name),
    )
}

fn titled(title: &str) -> TagFields {
    let mut tag = TagFields::empty();
    tag.title = Some(String::from(title));
    tag
}

/// Registers `dir` with the given file names and reports its listing complete.
fn load(model: &mut TaggableFileListModel, dir: &str, names: &[&str]) -> u64 {
    let id = model.add_folder(dir).unwrap();
    for name in names {
        assert!(model.notify(id, WatchEvent::Inserted(file(dir, name))));
    }
    assert!(model.notify(id, WatchEvent::Loaded));
    id
}

/// Rebuilds with a reader that knows the files whose names end in ".mp3" and
/// titles each record with its path.
fn rebuild(model: &mut TaggableFileListModel) -> CollectionReset {
    let plan = model.begin_rebuild().unwrap();
    let outcomes: Vec<Option<TagFields>> = plan
        .paths
        .iter()
        .map(|p| if p.ends_with(".mp3") { Some(titled(p)) } else { None })
        .collect();
    model.rebuild_taglist(plan.generation, outcomes).unwrap()
}

fn filenames(model: &TaggableFileListModel) -> Vec<String> {
    (0..model.n_items()).map(|i| model.item(i).unwrap().filename().clone()).collect()
}

#[test]
fn one_song_and_a_subdirectory_give_one_record() {
    let mut model = TaggableFileListModel::new();
    let a = model.add_folder("/music/a").unwrap();
    assert!(model.notify(a, WatchEvent::Inserted(file("/music/a", "song1.mp3"))));
    assert!(model.notify(a, WatchEvent::Inserted(folder("/music/a", "covers"))));
    assert!(model.notify(a, WatchEvent::Loaded));
    assert!(model.needs_rebuild());
    let plan = model.begin_rebuild().unwrap();
    assert_eq!(plan.paths, vec![String::from("/music/a/song1.mp3")]);
    let mut tag = TagFields::empty();
    tag.title = Some(String::from("One"));
    tag.artists = vec![String::from("X")];
    assert_eq!(
        model.rebuild_taglist(plan.generation, vec![Some(tag)]),
        Ok(CollectionReset { generation: 1, removed: 0, added: 1 })
    );
    assert_eq!(model.n_items(), 1);
    let record = model.item(0).unwrap();
    assert_eq!(record.filename(), "/music/a/song1.mp3");
    assert_eq!(record.tag().title, Some(String::from("One")));
    assert_eq!(record.tag().artists, vec![String::from("X")]);
    assert_eq!(record.tag().album, None);
    assert_eq!(record.tag().composer, None);
    assert_eq!(record.tag().genre, None);
    assert_eq!(record.tag().duration, None);
    assert_eq!(record.tag().year, None);
    assert_eq!(record.tag().disc, None);
    assert_eq!(record.tag().total_discs, None);
    assert_eq!(record.tag().track, None);
    assert_eq!(record.tag().total_tracks, None);
    assert!(record.tag().album_artists.is_empty());
    assert!(record.tag().cover.is_none());
}

#[test]
fn a_folder_registered_twice_gives_each_file_once() {
    let mut model = TaggableFileListModel::new();
    let first = load(&mut model, "/music/a", &["one.mp3", "two.mp3"]);
    let second = load(&mut model, "/music/a", &["one.mp3", "two.mp3"]);
    assert_eq!((first, second), (0, 1));
    let plan = model.begin_rebuild().unwrap();
    assert_eq!(
        plan.paths,
        vec![String::from("/music/a/one.mp3"), String::from("/music/a/two.mp3")]
    );
    let reset = model
        .rebuild_taglist(plan.generation, vec![Some(titled("1")), Some(titled("2"))])
        .unwrap();
    assert_eq!(reset.added, 2);
    assert_eq!(
        filenames(&model),
        vec![String::from("/music/a/one.mp3"), String::from("/music/a/two.mp3")]
    );
}

#[test]
fn the_later_folder_decides_where_a_shared_path_stands() {
    let mut model = TaggableFileListModel::new();
    let a = model.add_folder("/a").unwrap();
    let b = model.add_folder("/b").unwrap();
    let shared = || DirectoryEntry::new("s.mp3", EntryKind::File, None, "/shared/s.mp3");
    assert!(model.notify(a, WatchEvent::Inserted(shared())));
    assert!(model.notify(a, WatchEvent::Inserted(file("/a", "x.mp3"))));
    assert!(model.notify(a, WatchEvent::Loaded));
    assert!(model.notify(b, WatchEvent::Inserted(file("/b", "y.mp3"))));
    assert!(model.notify(b, WatchEvent::Inserted(shared())));
    assert!(model.notify(b, WatchEvent::Loaded));
    let plan = model.begin_rebuild().unwrap();
    assert_eq!(
        plan.paths,
        vec![
            String::from("/a/x.mp3"),
            String::from("/b/y.mp3"),
            String::from("/shared/s.mp3")
        ]
    );
}

#[test]
fn the_collection_follows_the_registered_folders() {
    let mut model = TaggableFileListModel::new();
    load(&mut model, "/a", &["1.mp3", "notes.txt"]);
    load(&mut model, "/b", &["2.mp3"]);
    rebuild(&mut model);
    assert_eq!(filenames(&model), vec![String::from("/a/1.mp3"), String::from("/b/2.mp3")]);

    model.clear_folders();
    // clearing alone leaves the collection as it is
    assert_eq!(model.n_items(), 2);
    load(&mut model, "/c", &["3.mp3", "4.mp3"]);
    let reset = rebuild(&mut model);
    assert_eq!(reset, CollectionReset { generation: 2, removed: 2, added: 2 });
    assert_eq!(filenames(&model), vec![String::from("/c/3.mp3"), String::from("/c/4.mp3")]);

    model.clear_folders();
    let reset = rebuild(&mut model);
    assert_eq!(reset, CollectionReset { generation: 3, removed: 2, added: 0 });
    assert_eq!(model.n_items(), 0);
}

#[test]
fn a_folder_that_is_still_loading_brings_nothing() {
    let mut model = TaggableFileListModel::new();
    let a = model.add_folder("/a").unwrap();
    assert!(model.notify(a, WatchEvent::Inserted(file("/a", "1.mp3"))));
    assert!(!model.needs_rebuild());
    let plan = model.begin_rebuild().unwrap();
    assert!(plan.paths.is_empty());
    assert!(model.notify(a, WatchEvent::Loaded));
    assert!(model.needs_rebuild());
    let plan = model.begin_rebuild().unwrap();
    assert_eq!(plan.paths, vec![String::from("/a/1.mp3")]);
    assert!(!model.needs_rebuild());
}

#[test]
fn rebuilding_twice_gives_the_same_collection() {
    let mut model = TaggableFileListModel::new();
    load(&mut model, "/a", &["1.mp3", "broken.ogg", "2.mp3"]);
    load(&mut model, "/b", &["3.mp3"]);
    rebuild(&mut model);
    let first: Vec<TaggableFile> =
        (0..model.n_items()).map(|i| model.item(i).unwrap().clone()).collect();
    rebuild(&mut model);
    let second: Vec<TaggableFile> =
        (0..model.n_items()).map(|i| model.item(i).unwrap().clone()).collect();
    assert_eq!(first, second);
    assert_eq!(first.len(), 3);
    assert_eq!(model.generation(), 2);
}

#[test]
fn an_unreadable_file_is_skipped_and_the_rest_is_read() {
    let mut model = TaggableFileListModel::new();
    load(&mut model, "/a", &["1.mp3", "bad.mp3", "2.mp3"]);
    let plan = model.begin_rebuild().unwrap();
    assert_eq!(plan.paths.len(), 3);
    let reset = model
        .rebuild_taglist(plan.generation, vec![Some(titled("first")), None, Some(titled("second"))])
        .unwrap();
    assert_eq!(reset.added, 2);
    assert_eq!(filenames(&model), vec![String::from("/a/1.mp3"), String::from("/a/2.mp3")]);
    assert_eq!(model.item(0).unwrap().tag().title, Some(String::from("first")));
    assert_eq!(model.item(1).unwrap().tag().title, Some(String::from("second")));
}

#[test]
fn results_of_an_overtaken_rebuild_are_dropped() {
    let mut model = TaggableFileListModel::new();
    load(&mut model, "/a", &["a.mp3"]);
    load(&mut model, "/b", &["b.mp3"]);
    let old_plan = model.begin_rebuild().unwrap();
    assert_eq!(old_plan.paths.len(), 2);

    // the selection changes to B alone while the reads are under way
    let ids = model.select_folders(&vec![String::from("/b")]).unwrap();
    assert_eq!(ids, vec![2]);
    assert_eq!(
        model.rebuild_taglist(old_plan.generation, vec![Some(titled("a")), Some(titled("b"))]),
        Err(ModelError::Stale)
    );
    assert_eq!(model.n_items(), 0);

    assert!(model.notify(ids[0], WatchEvent::Inserted(file("/b", "b.mp3"))));
    assert!(model.notify(ids[0], WatchEvent::Loaded));
    let plan = model.begin_rebuild().unwrap();
    assert_eq!(plan.generation, 2);
    // late results of the first rebuild still change nothing
    assert_eq!(
        model.rebuild_taglist(old_plan.generation, vec![Some(titled("a")), Some(titled("b"))]),
        Err(ModelError::Stale)
    );
    assert_eq!(
        model.rebuild_taglist(plan.generation, vec![Some(titled("b"))]),
        Ok(CollectionReset { generation: 2, removed: 0, added: 1 })
    );
    assert_eq!(filenames(&model), vec![String::from("/b/b.mp3")]);
    // and neither do results that come twice
    assert_eq!(
        model.rebuild_taglist(plan.generation, vec![Some(titled("b"))]),
        Err(ModelError::Stale)
    );
}

#[test]
fn a_change_gives_up_the_rebuild_in_flight() {
    let mut model = TaggableFileListModel::new();
    let a = load(&mut model, "/a", &["1.mp3"]);
    let plan = model.begin_rebuild().unwrap();
    assert!(model.notify(a, WatchEvent::Inserted(file("/a", "2.mp3"))));
    assert!(model.needs_rebuild());
    assert_eq!(
        model.rebuild_taglist(plan.generation, vec![Some(titled("1"))]),
        Err(ModelError::Stale)
    );
    let plan = model.begin_rebuild().unwrap();
    assert_eq!(plan.paths.len(), 2);
}

#[test]
fn a_burst_of_changes_asks_for_one_rebuild() {
    let mut model = TaggableFileListModel::new();
    let a = load(&mut model, "/a", &[]);
    rebuild(&mut model);
    assert!(!model.needs_rebuild());
    for i in 0..50 {
        let name = format!("{}.mp3", i);
        assert!(model.notify(a, WatchEvent::Inserted(file("/a", &name))));
    }
    // nothing was read on the way
    assert_eq!(model.n_items(), 0);
    assert_eq!(model.generation(), 1);
    assert!(model.needs_rebuild());
    let reset = rebuild(&mut model);
    assert_eq!(reset, CollectionReset { generation: 2, removed: 0, added: 50 });
    assert!(!model.needs_rebuild());
}

#[test]
fn results_of_the_wrong_number_are_refused() {
    let mut model = TaggableFileListModel::new();
    load(&mut model, "/a", &["1.mp3", "2.mp3"]);
    let plan = model.begin_rebuild().unwrap();
    assert_eq!(
        model.rebuild_taglist(plan.generation, vec![Some(titled("1"))]),
        Err(ModelError::Malformed)
    );
    assert_eq!(model.n_items(), 0);
    // the rebuild is still in flight
    assert!(model.rebuild_taglist(plan.generation, vec![Some(titled("1")), None]).is_ok());
    assert_eq!(model.n_items(), 1);
}

#[test]
fn results_without_a_rebuild_are_stale() {
    let mut model = TaggableFileListModel::new();
    assert_eq!(model.rebuild_taglist(0, vec![]), Err(ModelError::Stale));
    assert_eq!(model.rebuild_taglist(7, vec![]), Err(ModelError::Stale));
    assert_eq!(model.generation(), 0);
}

#[test]
fn an_index_is_good_for_its_generation_only() {
    let mut model = TaggableFileListModel::new();
    load(&mut model, "/a", &["1.mp3"]);
    rebuild(&mut model);
    let generation = model.generation();
    assert_eq!(model.item_at(generation, 0).unwrap().filename(), "/a/1.mp3");
    assert_eq!(model.item_at(generation, 1), Err(ModelError::OutOfRange));
    assert!(model.item(1).is_none());
    rebuild(&mut model);
    assert_eq!(model.item_at(generation, 0), Err(ModelError::Stale));
    assert!(model.item_at(model.generation(), 0).is_ok());
}

#[test]
fn a_failed_watch_takes_its_folder_away() {
    let mut model = TaggableFileListModel::new();
    let a = load(&mut model, "/a", &["1.mp3"]);
    let b = load(&mut model, "/b", &["2.mp3"]);
    rebuild(&mut model);
    assert_eq!(model.n_items(), 2);
    assert!(model.notify(a, WatchEvent::Failed));
    assert!(model.needs_rebuild());
    // the folder is gone: its watch has nothing more to say
    assert!(!model.notify(a, WatchEvent::Inserted(file("/a", "3.mp3"))));
    assert!(model.notify(b, WatchEvent::Updated(file("/b", "2.mp3"))));
    rebuild(&mut model);
    assert_eq!(filenames(&model), vec![String::from("/b/2.mp3")]);
}

#[test]
fn an_event_for_an_unknown_folder_changes_nothing() {
    let mut model = TaggableFileListModel::new();
    let a = load(&mut model, "/a", &["1.mp3"]);
    let plan = model.begin_rebuild().unwrap();
    assert!(!model.notify(a + 1, WatchEvent::Inserted(file("/x", "9.mp3"))));
    assert!(!model.needs_rebuild());
    assert!(model.rebuild_taglist(plan.generation, vec![Some(titled("1"))]).is_ok());
    model.clear_folders();
    assert!(!model.notify(a, WatchEvent::Loaded));
}

#[test]
fn removed_and_updated_files_are_followed() {
    let mut model = TaggableFileListModel::new();
    let a = load(&mut model, "/a", &["1.mp3", "2.mp3", "3.mp3"]);
    assert!(model.notify(a, WatchEvent::Removed(String::from("2.mp3"))));
    assert!(model.notify(a, WatchEvent::Removed(String::from("none.mp3"))));
    let moved = DirectoryEntry::new("1.mp3", EntryKind::File, None, "/elsewhere/1.mp3");
    assert!(model.notify(a, WatchEvent::Updated(moved)));
    let plan = model.begin_rebuild().unwrap();
    assert_eq!(plan.paths, vec![String::from("/elsewhere/1.mp3"), String::from("/a/3.mp3")]);
}

#[test]
fn a_record_holds_what_it_was_made_from() {
    let cover = CoverImage { mime_type: String::from("image/png"), data: vec![1, 2, 3] };
    let record = TaggableFile::new(
        "/a/1.flac",
        Some(String::from("Title")),
        Some(String::from("Album")),
        Some(String::from("Composer")),
        Some(String::from("Genre")),
        Some(String::from("185.5")),
        Some(1999),
        Some(1),
        Some(2),
        Some(3),
        Some(12),
        vec![String::from("A"), String::from("B")],
        vec![String::from("C")],
        Some(cover.clone()),
    );
    assert_eq!(record.filename(), "/a/1.flac");
    let tag = record.tag();
    assert_eq!(tag.title, Some(String::from("Title")));
    assert_eq!(tag.album, Some(String::from("Album")));
    assert_eq!(tag.composer, Some(String::from("Composer")));
    assert_eq!(tag.genre, Some(String::from("Genre")));
    assert_eq!(tag.duration, Some(String::from("185.5")));
    assert_eq!(tag.year, Some(1999));
    assert_eq!((tag.disc, tag.total_discs), (Some(1), Some(2)));
    assert_eq!((tag.track, tag.total_tracks), (Some(3), Some(12)));
    assert_eq!(tag.artists, vec![String::from("A"), String::from("B")]);
    assert_eq!(tag.album_artists, vec![String::from("C")]);
    assert_eq!(tag.cover, Some(cover));
    assert_eq!(record.clone(), record);
    assert_eq!(TaggableFile::from_tag(String::from("/a/1.flac"), tag.clone()), record);
}

#[test]
fn replacing_the_folders_numbers_them_on() {
    let mut model = TaggableFileListModel::new();
    assert_eq!(model.add_folder("/a"), Ok(0));
    assert_eq!(model.add_folder("/b"), Ok(1));
    let ids = model
        .select_folders(&vec![String::from("/c"), String::from("/d"), String::from("/c")])
        .unwrap();
    assert_eq!(ids, vec![2, 3, 4]);
    assert!(model.needs_rebuild() == false);
    assert!(!model.notify(0, WatchEvent::Loaded));
    assert!(model.notify(2, WatchEvent::Loaded));
    assert!(model.notify(3, WatchEvent::Loaded));
    assert!(model.notify(4, WatchEvent::Loaded));
    assert!(model.needs_rebuild());
    assert_eq!(model.select_folders(&vec![]), Ok(vec![]));
    assert!(model.needs_rebuild());
}
