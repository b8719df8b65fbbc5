//! The aggregated collection of tag records.
//!
//! The model keeps one watch for each registered folder and a list of
//! records that is replaced as a whole by each rebuild. A rebuild has two
//! halves, because reading metadata is the caller's work: `begin_rebuild`
//! says which files to read, and `rebuild_taglist` takes what the reads gave
//! and swaps the new list in. Every rebuild has a generation; what comes back
//! for an older one is dropped.

use crate::directorywatch::{
    DirectoryEntryView, DirectoryWatch, DirectoryWatchView, EntryKind, WatchEvent, WatchEventView,
    WatchState,
};
use crate::taggablefile::{TagFields, TagFieldsView, TaggableFile, TaggableFileView};
use crate::taggablefile::clone_texts;
use crate::text::text_views;
use vstd::prelude::*;

verus! {

/// Why the model refused an operation.
#[derive(Clone, Copy, Debug, PartialEq, Eq, Structural)]
pub enum ModelError {
    /// A counter of watchers or generations has reached its end.
    Exhausted,
    /// The results belong to a rebuild that is no longer the latest, or the
    /// index to a generation that is no longer the current one.
    Stale,
    /// The results do not answer the plan: their number is another.
    Malformed,
    /// The collection holds no record at that index.
    OutOfRange,
}

/// The mathematical value of a registered folder: its identifier and the
/// state of its watch.
pub ghost struct FolderWatcherView {
    pub id: u64,
    pub watch: DirectoryWatchView,
}

/// The paths of the files among `entries`, in their order.
pub open spec fn file_paths(entries: Seq<DirectoryEntryView>) -> Seq<Seq<char>>
    decreases entries.len(),
{
    if entries.len() == 0 {
        Seq::empty()
    } else {
        let before = file_paths(entries.drop_last());
        if entries.last().kind == EntryKind::File {
            before.push(entries.last().path)
        } else {
            before
        }
    }
}

/// What one folder brings to a rebuild: its files once its listing is
/// complete, nothing before.
pub open spec fn watcher_paths(watcher: FolderWatcherView) -> Seq<Seq<char>> {
    if watcher.watch.state == WatchState::Loaded {
        file_paths(watcher.watch.entries)
    } else {
        Seq::empty()
    }
}

/// The paths of all the files that the folders hold, folder by folder in the
/// order of registration.
pub open spec fn covered_paths(watchers: Seq<FolderWatcherView>) -> Seq<Seq<char>>
    decreases watchers.len(),
{
    if watchers.len() == 0 {
        Seq::empty()
    } else {
        covered_paths(watchers.drop_last()) + watcher_paths(watchers.last())
    }
}

/// `paths` without the occurrences that another one follows: of equal paths
/// the last stays, where it stands.
pub open spec fn keep_last(paths: Seq<Seq<char>>) -> Seq<Seq<char>>
    decreases paths.len(),
{
    if paths.len() == 0 {
        Seq::empty()
    } else {
        let rest = keep_last(paths.drop_first());
        if paths.drop_first().contains(paths[0]) {
            rest
        } else {
            seq![paths[0]] + rest
        }
    }
}

/// The files that a rebuild reads, in the order in which their records will
/// stand: each covered path once.
pub open spec fn planned_paths(watchers: Seq<FolderWatcherView>) -> Seq<Seq<char>> {
    keep_last(covered_paths(watchers))
}

/// Whether a registered folder whose listing is complete holds a file at
/// `path`.
pub open spec fn covers(watchers: Seq<FolderWatcherView>, path: Seq<char>) -> bool {
    exists|i: int, m: int|
        0 <= i < watchers.len() && 0 <= m < watchers[i].watch.entries.len()
            && watchers[i].watch.state == WatchState::Loaded && (
        #[trigger] watchers[i].watch.entries[m]).kind == EntryKind::File
            && watchers[i].watch.entries[m].path == path
}

/// The records that the reads of `paths` give: one for each path whose read
/// succeeded, in the order of the paths. A failed read leaves no record and
/// does not touch the others.
pub open spec fn build_records(
    paths: Seq<Seq<char>>,
    outcomes: Seq<Option<TagFieldsView>>,
) -> Seq<TaggableFileView>
    decreases paths.len(),
{
    if paths.len() == 0 || outcomes.len() != paths.len() {
        Seq::empty()
    } else {
        let before = build_records(paths.drop_last(), outcomes.drop_last());
        match outcomes.last() {
            Some(tag) => before.push(TaggableFileView { filename: paths.last(), tag }),
            None => before,
        }
    }
}

/// The filenames of `records`.
pub open spec fn filenames(records: Seq<TaggableFileView>) -> Seq<Seq<char>> {
    records.map_values(|r: TaggableFileView| r.filename)
}

/// `file_paths` holds exactly the paths of the files.
pub proof fn lemma_file_paths(entries: Seq<DirectoryEntryView>, path: Seq<char>)
    ensures
        file_paths(entries).contains(path) <==> exists|m: int|
            0 <= m < entries.len() && (#[trigger] entries[m]).kind == EntryKind::File
                && entries[m].path == path,
    decreases entries.len(),
{
    if entries.len() > 0 {
        let front = entries.drop_last();
        let before = file_paths(front);
        lemma_file_paths(front, path);
        if file_paths(entries).contains(path) {
            let k = choose|k: int| 0 <= k < file_paths(entries).len() && file_paths(entries)[k] == path;
            if k < before.len() {
                assert(before[k] == path);
                assert(before.contains(path));
                let m = choose|m: int|
                    0 <= m < front.len() && (#[trigger] front[m]).kind == EntryKind::File
                        && front[m].path == path;
                assert(entries[m] == front[m]);
            } else {
                assert(entries[entries.len() - 1].path == path);
            }
        }
        if exists|m: int|
            0 <= m < entries.len() && (#[trigger] entries[m]).kind == EntryKind::File
                && entries[m].path == path {
            let m = choose|m: int|
                0 <= m < entries.len() && (#[trigger] entries[m]).kind == EntryKind::File
                    && entries[m].path == path;
            if m < front.len() {
                assert(front[m] == entries[m]);
                assert(before.contains(path));
                let k = choose|k: int| 0 <= k < before.len() && before[k] == path;
                assert(file_paths(entries)[k] == path);
            } else {
                assert(file_paths(entries)[before.len() as int] == path);
            }
        }
    }
}

/// `covered_paths` holds exactly the paths that the folders cover.
pub proof fn lemma_covered_paths(watchers: Seq<FolderWatcherView>, path: Seq<char>)
    ensures
        covered_paths(watchers).contains(path) <==> covers(watchers, path),
    decreases watchers.len(),
{
    if watchers.len() > 0 {
        let front = watchers.drop_last();
        let last = watchers.last();
        let a = covered_paths(front);
        let b = watcher_paths(last);
        lemma_covered_paths(front, path);
        lemma_file_paths(last.watch.entries, path);
        if covered_paths(watchers).contains(path) {
            let k = choose|k: int| 0 <= k < (a + b).len() && (a + b)[k] == path;
            if k < a.len() {
                assert(a[k] == path);
                assert(a.contains(path));
                let (i, m) = choose|i: int, m: int|
                    0 <= i < front.len() && 0 <= m < front[i].watch.entries.len()
                        && front[i].watch.state == WatchState::Loaded && (
                    #[trigger] front[i].watch.entries[m]).kind == EntryKind::File
                        && front[i].watch.entries[m].path == path;
                assert(watchers[i] == front[i]);
                assert(watchers[i].watch.entries[m].kind == EntryKind::File);
            } else {
                assert(b[k - a.len()] == path);
                assert(b.contains(path));
                let m = choose|m: int|
                    0 <= m < last.watch.entries.len() && (#[trigger] last.watch.entries[m]).kind
                        == EntryKind::File && last.watch.entries[m].path == path;
                assert(watchers[watchers.len() - 1].watch.entries[m].kind == EntryKind::File);
            }
        }
        if covers(watchers, path) {
            let (i, m) = choose|i: int, m: int|
                0 <= i < watchers.len() && 0 <= m < watchers[i].watch.entries.len()
                    && watchers[i].watch.state == WatchState::Loaded && (
                #[trigger] watchers[i].watch.entries[m]).kind == EntryKind::File
                    && watchers[i].watch.entries[m].path == path;
            if i < front.len() {
                assert(front[i] == watchers[i]);
                assert(front[i].watch.entries[m].kind == EntryKind::File);
                assert(covers(front, path));
                let k = choose|k: int| 0 <= k < a.len() && a[k] == path;
                assert((a + b)[k] == path);
            } else {
                assert(last.watch.entries[m].kind == EntryKind::File);
                assert(b.contains(path));
                let k = choose|k: int| 0 <= k < b.len() && b[k] == path;
                assert((a + b)[a.len() + k] == path);
            }
        }
    }
}

/// `keep_last` keeps every path and none twice.
pub proof fn lemma_keep_last(paths: Seq<Seq<char>>)
    ensures
        keep_last(paths).no_duplicates(),
        forall|p: Seq<char>| keep_last(paths).contains(p) <==> paths.contains(p),
    decreases paths.len(),
{
    if paths.len() > 0 {
        let tail = paths.drop_first();
        let rest = keep_last(tail);
        lemma_keep_last(tail);
        let out = keep_last(paths);
        assert forall|p: Seq<char>| out.contains(p) <==> paths.contains(p) by {
            if out.contains(p) {
                let k = choose|k: int| 0 <= k < out.len() && out[k] == p;
                if tail.contains(paths[0]) {
                    assert(rest.contains(p));
                } else if k > 0 {
                    assert(rest[k - 1] == p);
                    assert(rest.contains(p));
                }
                if p != paths[0] {
                    assert(tail.contains(p));
                    let j = choose|j: int| 0 <= j < tail.len() && tail[j] == p;
                    assert(paths[j + 1] == p);
                } else {
                    assert(paths[0] == p);
                }
            }
            if paths.contains(p) {
                let j = choose|j: int| 0 <= j < paths.len() && paths[j] == p;
                if j > 0 {
                    assert(tail[j - 1] == p);
                }
                if tail.contains(p) {
                    assert(rest.contains(p));
                    let k = choose|k: int| 0 <= k < rest.len() && rest[k] == p;
                    if tail.contains(paths[0]) {
                    } else {
                        assert(out[k + 1] == p);
                    }
                } else {
                    assert(out[0] == p);
                }
            }
        }
        if !tail.contains(paths[0]) {
            assert forall|i: int, j: int| 0 <= i < out.len() && 0 <= j < out.len() && i
                != j implies out[i] != out[j] by {
                if i > 0 && j > 0 {
                    assert(out[i] == rest[i - 1] && out[j] == rest[j - 1]);
                } else if i == 0 {
                    assert(out[j] == rest[j - 1]);
                    assert(rest.contains(out[j]));
                } else {
                    assert(out[i] == rest[i - 1]);
                    assert(rest.contains(out[i]));
                }
            }
        }
    }
}

/// What `build_records` holds: a record stands for a read that succeeded,
/// every read that succeeded has its record, and paths that differ give
/// records that differ.
pub proof fn lemma_build_records(paths: Seq<Seq<char>>, outcomes: Seq<Option<TagFieldsView>>)
    requires
        paths.len() == outcomes.len(),
    ensures
        forall|k: int|
            0 <= k < build_records(paths, outcomes).len() ==> exists|i: int|
                0 <= i < paths.len() && outcomes[i] == Some(
                    (#[trigger] build_records(paths, outcomes)[k]).tag,
                ) && paths[i] == build_records(paths, outcomes)[k].filename,
        forall|i: int|
            0 <= i < paths.len() && (#[trigger] outcomes[i]).is_some() ==> build_records(
                paths,
                outcomes,
            ).contains(TaggableFileView { filename: paths[i], tag: outcomes[i].unwrap() }),
        paths.no_duplicates() ==> filenames(build_records(paths, outcomes)).no_duplicates(),
        build_records(paths, outcomes).len() <= paths.len(),
    decreases paths.len(),
{
    if paths.len() > 0 {
        let front = paths.drop_last();
        let outs = outcomes.drop_last();
        let before = build_records(front, outs);
        let all = build_records(paths, outcomes);
        let n = paths.len() - 1;
        lemma_build_records(front, outs);
        assert forall|k: int| 0 <= k < all.len() implies exists|i: int|
            0 <= i < paths.len() && outcomes[i] == Some((#[trigger] all[k]).tag) && paths[i]
                == all[k].filename by {
            if k < before.len() {
                assert(all[k] == before[k]);
                let i = choose|i: int|
                    0 <= i < front.len() && outs[i] == Some(before[k].tag) && front[i]
                        == before[k].filename;
                assert(outcomes[i] == outs[i] && paths[i] == front[i]);
            } else {
                assert(outcomes[n] == Some(all[k].tag) && paths[n] == all[k].filename);
            }
        }
        assert forall|i: int| 0 <= i < paths.len() && (#[trigger] outcomes[i]).is_some() implies all.contains(
            TaggableFileView { filename: paths[i], tag: outcomes[i].unwrap() },
        ) by {
            let r = TaggableFileView { filename: paths[i], tag: outcomes[i].unwrap() };
            if i < n {
                assert(outs[i] == outcomes[i] && front[i] == paths[i]);
                assert(before.contains(r));
                let k = choose|k: int| 0 <= k < before.len() && before[k] == r;
                assert(all[k] == r);
            } else {
                assert(all[before.len() as int] == r);
            }
        }
        if paths.no_duplicates() {
            assert(front.no_duplicates());
            let names = filenames(all);
            assert forall|a: int, b: int| 0 <= a < names.len() && 0 <= b < names.len() && a
                != b implies names[a] != names[b] by {
                let fa = filenames(before);
                if a < before.len() && b < before.len() {
                    assert(names[a] == fa[a] && names[b] == fa[b]);
                } else {
                    let x = if a < before.len() { a } else { b };
                    assert(all[x] == before[x]);
                    let i = choose|i: int|
                        0 <= i < front.len() && outs[i] == Some(before[x].tag) && front[i]
                            == before[x].filename;
                    assert(paths[i] == front[i]);
                    assert(paths[i] != paths[n]);
                }
            }
        }
    }
}

/// The position of the folder registered as `id`, or the number of folders
/// where none is.
pub open spec fn watcher_position(watchers: Seq<FolderWatcherView>, id: u64) -> int
    decreases watchers.len(),
{
    if watchers.len() == 0 {
        0
    } else if watchers[0].id == id {
        0
    } else {
        1 + watcher_position(watchers.drop_first(), id)
    }
}

/// `watcher_position` finds the first folder registered as `id`.
pub proof fn lemma_watcher_position(watchers: Seq<FolderWatcherView>, id: u64)
    ensures
        0 <= watcher_position(watchers, id) <= watchers.len(),
        watcher_position(watchers, id) < watchers.len() ==> watchers[watcher_position(
            watchers,
            id,
        )].id == id,
        forall|k: int| 0 <= k < watcher_position(watchers, id) ==> (#[trigger] watchers[k]).id != id,
    decreases watchers.len(),
{
    if watchers.len() > 0 && watchers[0].id != id {
        let rest = watchers.drop_first();
        lemma_watcher_position(rest, id);
        assert forall|k: int| 0 <= k < watcher_position(watchers, id) implies (
        #[trigger] watchers[k]).id != id by {
            if k > 0 {
                assert(watchers[k] == rest[k - 1]);
            }
        }
    }
}

/// The values of what the reads gave.
pub open spec fn outcome_views(outcomes: Seq<Option<TagFields>>) -> Seq<Option<TagFieldsView>> {
    outcomes.map_values(
        |o: Option<TagFields>|
            match o {
                Some(t) => Some(t@),
                None => None,
            },
    )
}

/// The values of a sequence of records.
pub open spec fn record_views(records: Seq<TaggableFile>) -> Seq<TaggableFileView> {
    records.map_values(|r: TaggableFile| r@)
}

/// The mathematical value of a [`TaggableFileListModel`].
pub ghost struct TaggableFileListModelView {
    /// The registered folders in the order of registration.
    pub watchers: Seq<FolderWatcherView>,
    /// The collection as the last completed rebuild left it.
    pub records: Seq<TaggableFileView>,
    /// The generation of the collection: that of the rebuild that made it.
    pub generation: u64,
    /// The generation of the rebuild that was begun last.
    pub latest: u64,
    /// The paths that the rebuild in flight was told to read, if one is in
    /// flight.
    pub pending: Option<Seq<Seq<char>>>,
    /// Whether the folders have changed since a rebuild was last begun.
    pub dirty: bool,
    /// The identifier that the next folder will get.
    pub next_watcher: u64,
}

impl TaggableFileListModelView {
    /// The invariant of the model. Folders are known by identifiers that
    /// grow with registration; a failed watch is not kept; the collection
    /// holds no path twice; and a rebuild in flight was planned on the
    /// folders as they still are.
    pub open spec fn wf(self) -> bool {
        &&& forall|i: int, j: int|
            0 <= i < j < self.watchers.len() ==> (#[trigger] self.watchers[i]).id < (
            #[trigger] self.watchers[j]).id
        &&& forall|i: int|
            0 <= i < self.watchers.len() ==> (#[trigger] self.watchers[i]).id < self.next_watcher
                && self.watchers[i].watch.wf() && self.watchers[i].watch.state
                != WatchState::Failed
        &&& self.generation <= self.latest
        &&& self.pending.is_some() ==> self.pending == Some(planned_paths(self.watchers))
            && self.generation < self.latest
        &&& filenames(self.records).no_duplicates()
    }

    /// The model before anything was registered.
    pub open spec fn initial() -> TaggableFileListModelView {
        TaggableFileListModelView {
            watchers: Seq::empty(),
            records: Seq::empty(),
            generation: 0,
            latest: 0,
            pending: None,
            dirty: false,
            next_watcher: 0,
        }
    }

    /// The model after the folder at `path` was registered: it has a watch
    /// that has reported nothing yet.
    pub open spec fn add_folder(self, path: Seq<char>) -> TaggableFileListModelView {
        TaggableFileListModelView {
            watchers: self.watchers.push(
                FolderWatcherView {
                    id: self.next_watcher,
                    watch: DirectoryWatchView {
                        path,
                        state: WatchState::Loading,
                        entries: Seq::empty(),
                    },
                },
            ),
            next_watcher: (self.next_watcher + 1) as u64,
            ..self
        }
    }

    /// The model after all folders were dropped. The collection stays until
    /// the next rebuild; a rebuild in flight is given up.
    pub open spec fn clear_folders(self) -> TaggableFileListModelView {
        TaggableFileListModelView { watchers: Seq::empty(), pending: None, dirty: true, ..self }
    }

    /// The model after the registered folders were replaced by those at
    /// `paths`.
    pub open spec fn select_folders(self, paths: Seq<Seq<char>>) -> TaggableFileListModelView
        decreases paths.len(),
    {
        if paths.len() == 0 {
            self.clear_folders()
        } else {
            self.select_folders(paths.drop_last()).add_folder(paths.last())
        }
    }

    /// The model after the watch of the folder registered as `id` reported
    /// `event`. The folder's watch takes the event; a watch that fails is
    /// dropped; a rebuild in flight is given up and a new one is due. An
    /// event for a folder that is not registered changes nothing.
    pub open spec fn notify(self, id: u64, event: WatchEventView) -> TaggableFileListModelView {
        let k = watcher_position(self.watchers, id);
        if k >= self.watchers.len() {
            self
        } else {
            let watch = self.watchers[k].watch.apply(event);
            TaggableFileListModelView {
                watchers: if watch.state == WatchState::Failed {
                    self.watchers.remove(k)
                } else {
                    self.watchers.update(k, FolderWatcherView { id, watch })
                },
                pending: None,
                dirty: true,
                ..self
            }
        }
    }

    /// Whether a rebuild is due: the folders have changed and none of them
    /// is still loading.
    pub open spec fn needs_rebuild(self) -> bool {
        self.dirty && forall|i: int|
            0 <= i < self.watchers.len() ==> (#[trigger] self.watchers[i]).watch.state
                == WatchState::Loaded
    }

    /// The model after a rebuild was begun: the rebuild has the next
    /// generation, and its plan is kept until its results arrive.
    pub open spec fn begin_rebuild(self) -> TaggableFileListModelView {
        TaggableFileListModelView {
            latest: (self.latest + 1) as u64,
            pending: Some(planned_paths(self.watchers)),
            dirty: false,
            ..self
        }
    }

    /// Whether `count` results for the rebuild of `generation` are taken:
    /// that rebuild is in flight and its plan names `count` files.
    pub open spec fn accepts(self, generation: u64, count: nat) -> bool {
        self.pending.is_some() && generation == self.latest && self.pending.unwrap().len() == count
    }

    /// The model after the results of the rebuild of `generation` arrived.
    /// Results that are taken replace the collection as a whole and give it
    /// their generation; others change nothing.
    pub open spec fn rebuild_taglist(
        self,
        generation: u64,
        outcomes: Seq<Option<TagFieldsView>>,
    ) -> TaggableFileListModelView {
        if self.accepts(generation, outcomes.len()) {
            TaggableFileListModelView {
                records: build_records(self.pending.unwrap(), outcomes),
                generation,
                pending: None,
                ..self
            }
        } else {
            self
        }
    }
}

/// A folder that has reported nothing yet brings nothing to a rebuild.
pub proof fn lemma_add_folder_keeps_plan(model: TaggableFileListModelView, path: Seq<char>)
    ensures
        planned_paths(model.add_folder(path).watchers) == planned_paths(model.watchers),
{
    let after = model.add_folder(path).watchers;
    assert(after.drop_last() =~= model.watchers);
    assert(covered_paths(after) =~= covered_paths(model.watchers));
}

/// One call on the model, as far as it changes the model's value.
pub ghost enum ModelStep {
    AddFolder(Seq<char>),
    ClearFolders,
    SelectFolders(Seq<Seq<char>>),
    Notify(u64, WatchEventView),
    BeginRebuild,
    RebuildTaglist(u64, Seq<Option<TagFieldsView>>),
}

impl TaggableFileListModelView {
    /// The model after one call. A call that a counter at its end refuses
    /// changes nothing.
    pub open spec fn step(self, step: ModelStep) -> TaggableFileListModelView {
        match step {
            ModelStep::AddFolder(path) => if self.next_watcher < u64::MAX {
                self.add_folder(path)
            } else {
                self
            },
            ModelStep::ClearFolders => self.clear_folders(),
            ModelStep::SelectFolders(paths) => if self.next_watcher + paths.len() <= u64::MAX {
                self.select_folders(paths)
            } else {
                self
            },
            ModelStep::Notify(id, event) => self.notify(id, event),
            ModelStep::BeginRebuild => if self.latest < u64::MAX {
                self.begin_rebuild()
            } else {
                self
            },
            ModelStep::RebuildTaglist(generation, outcomes) => self.rebuild_taglist(
                generation,
                outcomes,
            ),
        }
    }

    /// The model after a sequence of calls.
    pub open spec fn run(self, steps: Seq<ModelStep>) -> TaggableFileListModelView
        decreases steps.len(),
    {
        if steps.len() == 0 {
            self
        } else {
            self.run(steps.drop_last()).step(steps.last())
        }
    }
}

/// Registering a folder keeps the model's invariant.
pub proof fn lemma_add_folder_wf(model: TaggableFileListModelView, path: Seq<char>)
    requires
        model.wf(),
        model.next_watcher < u64::MAX,
    ensures
        model.add_folder(path).wf(),
{
    lemma_add_folder_keeps_plan(model, path);
}

/// A change that a watch reports keeps the model's invariant.
pub proof fn lemma_notify_wf(model: TaggableFileListModelView, id: u64, event: WatchEventView)
    requires
        model.wf(),
    ensures
        model.notify(id, event).wf(),
{
    let k = watcher_position(model.watchers, id);
    lemma_watcher_position(model.watchers, id);
    if k < model.watchers.len() {
        crate::directorywatch::lemma_apply_preserves_wf(model.watchers[k].watch, event);
    }
}

/// The results of a rebuild keep the model's invariant, taken or not.
pub proof fn lemma_rebuild_taglist_wf(
    model: TaggableFileListModelView,
    generation: u64,
    outcomes: Seq<Option<TagFieldsView>>,
)
    requires
        model.wf(),
    ensures
        model.rebuild_taglist(generation, outcomes).wf(),
{
    if model.accepts(generation, outcomes.len()) {
        lemma_keep_last(covered_paths(model.watchers));
        lemma_build_records(model.pending.unwrap(), outcomes);
    }
}

/// Replacing the folders leaves no rebuild in flight and every counter as
/// it was but that of the folders; the new folders are those at `paths`, in
/// that order, each with a watch that has reported nothing yet.
pub proof fn lemma_select_folders(model: TaggableFileListModelView, paths: Seq<Seq<char>>)
    requires
        model.wf(),
        model.next_watcher + paths.len() <= u64::MAX,
    ensures
        model.select_folders(paths).wf(),
        model.select_folders(paths) == (TaggableFileListModelView {
            watchers: model.select_folders(paths).watchers,
            pending: None,
            dirty: true,
            next_watcher: (model.next_watcher + paths.len()) as u64,
            ..model
        }),
        model.select_folders(paths).watchers.len() == paths.len(),
        forall|k: int|
            0 <= k < paths.len() ==> #[trigger] model.select_folders(paths).watchers[k] == (
            FolderWatcherView {
                id: (model.next_watcher + k) as u64,
                watch: DirectoryWatchView {
                    path: paths[k],
                    state: WatchState::Loading,
                    entries: Seq::empty(),
                },
            }),
    decreases paths.len(),
{
    if paths.len() > 0 {
        let front = paths.drop_last();
        lemma_select_folders(model, front);
        lemma_add_folder_wf(model.select_folders(front), paths.last());
    }
}

/// After a rebuild the collection holds exactly one record for each file
/// that a registered folder with a complete listing holds and that could be
/// read: no path twice, nothing that no such folder holds, and nothing left
/// out.
pub proof fn lemma_rebuilt_collection(
    model: TaggableFileListModelView,
    generation: u64,
    outcomes: Seq<Option<TagFieldsView>>,
)
    requires
        model.wf(),
        model.accepts(generation, outcomes.len()),
    ensures
        ({
            let after = model.rebuild_taglist(generation, outcomes);
            let plan = planned_paths(model.watchers);
            &&& after.watchers == model.watchers
            &&& filenames(after.records).no_duplicates()
            &&& plan.no_duplicates()
            &&& forall|p: Seq<char>| plan.contains(p) <==> covers(model.watchers, p)
            &&& forall|k: int|
                0 <= k < after.records.len() ==> covers(
                    model.watchers,
                    (#[trigger] after.records[k]).filename,
                ) && exists|i: int|
                    0 <= i < plan.len() && plan[i] == after.records[k].filename && outcomes[i]
                        == Some(after.records[k].tag)
            &&& forall|i: int|
                0 <= i < plan.len() && (#[trigger] outcomes[i]).is_some()
                    ==> after.records.contains(
                    TaggableFileView { filename: plan[i], tag: outcomes[i].unwrap() },
                )
        }),
{
    let after = model.rebuild_taglist(generation, outcomes);
    let plan = planned_paths(model.watchers);
    lemma_keep_last(covered_paths(model.watchers));
    lemma_build_records(plan, outcomes);
    assert forall|p: Seq<char>| plan.contains(p) <==> covers(model.watchers, p) by {
        lemma_covered_paths(model.watchers, p);
    }
    assert forall|k: int| 0 <= k < after.records.len() implies covers(
        model.watchers,
        (#[trigger] after.records[k]).filename,
    ) by {
        let i = choose|i: int|
            0 <= i < plan.len() && outcomes[i] == Some(after.records[k].tag) && plan[i]
                == after.records[k].filename;
        assert(plan.contains(plan[i]));
    }
}

/// Rebuilding twice while nothing changes gives the same collection twice:
/// the second rebuild plans the same reads, and the same results make the
/// same records in the same order.
pub proof fn lemma_rebuild_idempotent(
    model: TaggableFileListModelView,
    outcomes: Seq<Option<TagFieldsView>>,
)
    ensures
        ({
            let begun = model.begin_rebuild();
            let first = begun.rebuild_taglist(begun.latest, outcomes);
            let again = first.begin_rebuild();
            let second = again.rebuild_taglist(again.latest, outcomes);
            &&& again.pending == begun.pending
            &&& second.records == first.records
            &&& second.watchers == model.watchers
        }),
{
}

/// A file that could not be read has no record, and the files around it have
/// theirs.
pub proof fn lemma_unreadable_skipped(
    paths: Seq<Seq<char>>,
    outcomes: Seq<Option<TagFieldsView>>,
    i: int,
)
    requires
        paths.len() == outcomes.len(),
        paths.no_duplicates(),
        0 <= i < paths.len(),
        outcomes[i].is_none(),
    ensures
        !filenames(build_records(paths, outcomes)).contains(paths[i]),
        forall|j: int|
            0 <= j < paths.len() && (#[trigger] outcomes[j]).is_some() ==> build_records(
                paths,
                outcomes,
            ).contains(TaggableFileView { filename: paths[j], tag: outcomes[j].unwrap() }),
{
    let records = build_records(paths, outcomes);
    lemma_build_records(paths, outcomes);
    if filenames(records).contains(paths[i]) {
        let k = choose|k: int| 0 <= k < records.len() && filenames(records)[k] == paths[i];
        let j = choose|j: int|
            0 <= j < paths.len() && outcomes[j] == Some(records[k].tag) && paths[j]
                == records[k].filename;
        assert(j == i);
    }
}

/// Once the folders have been replaced, results of a rebuild that was begun
/// before are dropped whenever they arrive: before the next rebuild is begun
/// none is in flight, and afterwards theirs is not the latest generation.
/// What the next rebuild puts into the collection lies in the new folders.
pub proof fn lemma_stale_results_dropped(
    model: TaggableFileListModelView,
    paths: Seq<Seq<char>>,
    generation: u64,
    outcomes: Seq<Option<TagFieldsView>>,
)
    requires
        model.wf(),
        model.next_watcher + paths.len() <= u64::MAX,
        model.latest < u64::MAX,
        generation <= model.latest,
    ensures
        ({
            let selected = model.select_folders(paths);
            let begun = selected.begin_rebuild();
            &&& selected.rebuild_taglist(generation, outcomes) == selected
            &&& begun.rebuild_taglist(generation, outcomes) == begun
            &&& forall|k: int|
                0 <= k < begun.watchers.len() ==> paths.contains(
                    (#[trigger] begun.watchers[k]).watch.path,
                )
        }),
{
    lemma_select_folders(model, paths);
    let selected = model.select_folders(paths);
    assert forall|k: int| 0 <= k < selected.watchers.len() implies paths.contains(
        (#[trigger] selected.watchers[k]).watch.path,
    ) by {
        assert(paths[k] == selected.watchers[k].watch.path);
    }
}

/// A change that a watch reports neither registers a folder nor moves one:
/// every folder afterwards was there before, under the same identifier and
/// at the same path.
pub proof fn lemma_notify_keeps_folders(
    model: TaggableFileListModelView,
    id: u64,
    event: WatchEventView,
)
    requires
        model.wf(),
    ensures
        forall|k: int|
            0 <= k < model.notify(id, event).watchers.len() ==> exists|j: int|
                0 <= j < model.watchers.len() && model.watchers[j].id == (
                #[trigger] model.notify(id, event).watchers[k]).id && model.watchers[j].watch.path
                    == model.notify(id, event).watchers[k].watch.path,
{
    let after = model.notify(id, event).watchers;
    let p = watcher_position(model.watchers, id);
    lemma_watcher_position(model.watchers, id);
    assert forall|k: int| 0 <= k < after.len() implies exists|j: int|
        0 <= j < model.watchers.len() && model.watchers[j].id == (#[trigger] after[k]).id
            && model.watchers[j].watch.path == after[k].watch.path by {
        if p >= model.watchers.len() {
            assert(model.watchers[k].id == after[k].id);
        } else if model.watchers[p].watch.apply(event).state == WatchState::Failed {
            let j = if k < p { k } else { k + 1 };
            assert(model.watchers[j].id == after[k].id);
        } else {
            assert(model.watchers[k].id == after[k].id);
        }
    }
}

/// Every call keeps the model's invariant, and no call lets a generation
/// fall back.
pub proof fn lemma_step_keeps_wf(model: TaggableFileListModelView, step: ModelStep)
    requires
        model.wf(),
    ensures
        model.step(step).wf(),
        model.generation <= model.step(step).generation,
        model.latest <= model.step(step).latest,
{
    match step {
        ModelStep::AddFolder(path) => {
            if model.next_watcher < u64::MAX {
                lemma_add_folder_wf(model, path);
            }
        },
        ModelStep::ClearFolders => {},
        ModelStep::SelectFolders(paths) => {
            if model.next_watcher + paths.len() <= u64::MAX {
                lemma_select_folders(model, paths);
            }
        },
        ModelStep::Notify(id, event) => {
            lemma_notify_wf(model, id, event);
        },
        ModelStep::BeginRebuild => {},
        ModelStep::RebuildTaglist(generation, outcomes) => {
            lemma_rebuild_taglist_wf(model, generation, outcomes);
        },
    }
}

/// Whatever is called on a model, in whatever order, the model keeps its
/// invariant: the collection never holds a path twice, and its generation
/// never runs ahead of the rebuilds that were begun nor ever falls back.
pub proof fn lemma_every_run_keeps_wf(model: TaggableFileListModelView, steps: Seq<ModelStep>)
    requires
        model.wf(),
    ensures
        model.run(steps).wf(),
        model.generation <= model.run(steps).generation,
        model.latest <= model.run(steps).latest,
    decreases steps.len(),
{
    if steps.len() > 0 {
        lemma_every_run_keeps_wf(model, steps.drop_last());
        lemma_step_keeps_wf(model.run(steps.drop_last()), steps.last());
    }
}

/// After any sequence of calls that ends with a rebuild whose results were
/// taken, the collection holds exactly one record for each file that a
/// registered folder with a complete listing holds and that could be read:
/// nothing twice, and nothing of a folder that was dropped on the way.
pub proof fn lemma_collection_after_any_run(
    model: TaggableFileListModelView,
    steps: Seq<ModelStep>,
    generation: u64,
    outcomes: Seq<Option<TagFieldsView>>,
)
    requires
        model.wf(),
        model.run(steps).accepts(generation, outcomes.len()),
    ensures
        ({
            let after = model.run(steps.push(ModelStep::RebuildTaglist(generation, outcomes)));
            let plan = planned_paths(after.watchers);
            &&& filenames(after.records).no_duplicates()
            &&& forall|k: int|
                0 <= k < after.records.len() ==> covers(
                    after.watchers,
                    (#[trigger] after.records[k]).filename,
                )
            &&& forall|p: Seq<char>| covers(after.watchers, p) ==> plan.contains(p)
            &&& forall|i: int|
                0 <= i < plan.len() ==> ((#[trigger] outcomes[i]).is_some() <==> filenames(
                    after.records,
                ).contains(plan[i]))
        }),
{
    let last = ModelStep::RebuildTaglist(generation, outcomes);
    let before = model.run(steps);
    assert(steps.push(last).drop_last() =~= steps);
    let after = model.run(steps.push(last));
    let plan = planned_paths(after.watchers);
    lemma_every_run_keeps_wf(model, steps);
    lemma_rebuilt_collection(before, generation, outcomes);
    assert forall|i: int| 0 <= i < plan.len() implies ((#[trigger] outcomes[i]).is_some()
        <==> filenames(after.records).contains(plan[i])) by {
        if outcomes[i].is_some() {
            let r = TaggableFileView { filename: plan[i], tag: outcomes[i].unwrap() };
            assert(after.records.contains(r));
            let k = choose|k: int| 0 <= k < after.records.len() && after.records[k] == r;
            assert(filenames(after.records)[k] == plan[i]);
        } else {
            lemma_unreadable_skipped(plan, outcomes, i);
        }
    }
}

/// The paths to read for one rebuild, and the generation under which to
/// hand in what the reads gave.
#[derive(Debug, PartialEq, Eq)]
pub struct RebuildPlan {
    pub generation: u64,
    pub paths: Vec<String>,
}

/// What a completed rebuild tells the display: the collection was replaced as
/// a whole.
#[derive(Clone, Copy, Debug, PartialEq, Eq, Structural)]
pub struct CollectionReset {
    /// The generation of the new collection.
    pub generation: u64,
    /// The number of records that went.
    pub removed: usize,
    /// The number of records that came.
    pub added: usize,
}

/// One registered folder.
#[derive(Debug)]
struct FolderWatcher {
    id: u64,
    watch: DirectoryWatch,
}

impl View for FolderWatcher {
    type V = FolderWatcherView;

    closed spec fn view(&self) -> FolderWatcherView {
        FolderWatcherView { id: self.id, watch: self.watch@ }
    }
}

/// The collection of tag records and the folders that it is built from.
#[derive(Debug)]
pub struct TaggableFileListModel {
    directory_lists: Vec<FolderWatcher>,
    taggable_files: Vec<TaggableFile>,
    generation: u64,
    latest: u64,
    pending: Option<Vec<String>>,
    dirty: bool,
    next_watcher: u64,
}

impl View for TaggableFileListModel {
    type V = TaggableFileListModelView;

    closed spec fn view(&self) -> TaggableFileListModelView {
        TaggableFileListModelView {
            watchers: self.directory_lists@.map_values(|w: FolderWatcher| w@),
            records: record_views(self.taggable_files@),
            generation: self.generation,
            latest: self.latest,
            pending: match self.pending {
                Some(p) => Some(text_views(p@)),
                None => None,
            },
            dirty: self.dirty,
            next_watcher: self.next_watcher,
        }
    }
}

/// The paths of the files among the entries of `watch`.
fn files_of(watch: &DirectoryWatch, out: &mut Vec<String>)
    ensures
        text_views(final(out)@) == text_views(old(out)@) + file_paths(watch@.entries),
{
    let ghost entries = watch@.entries;
    let ghost start = text_views(out@);
    let n = watch.len();
    let mut m: usize = 0;
    assert(file_paths(entries.take(0)) =~= Seq::empty());
    assert(start + Seq::<Seq<char>>::empty() =~= start);
    while m < n
        invariant
            m <= n,
            n == entries.len(),
            entries == watch@.entries,
            text_views(out@) == start + file_paths(entries.take(m as int)),
        decreases n - m,
    {
        let ghost before = text_views(out@);
        proof {
            assert(entries.take(m + 1).drop_last() =~= entries.take(m as int));
            assert(entries.take(m + 1).last() == entries[m as int]);
        }
        match watch.entry(m) {
            Some(e) => {
                if !e.is_directory() {
                    out.push(e.path.clone());
                    proof {
                        assert(text_views(out@) =~= before.push(e@.path));
                        assert(start + file_paths(entries.take(m as int)).push(e@.path) =~= (start
                            + file_paths(entries.take(m as int))).push(e@.path));
                    }
                }
            },
            None => {},
        }
        m += 1;
    }
    assert(entries.take(n as int) =~= entries);
}

/// Whether the path at `i` occurs again behind `i`.
fn occurs_later(paths: &Vec<String>, i: usize) -> (r: bool)
    requires
        i < paths.len(),
    ensures
        r == text_views(paths@).skip(i + 1).contains(text_views(paths@)[i as int]),
{
    let ghost pv = text_views(paths@);
    let mut j: usize = i + 1;
    while j < paths.len()
        invariant
            i < j <= paths.len(),
            pv == text_views(paths@),
            forall|k: int| i < k < j ==> pv[k] != pv[i as int],
        decreases paths.len() - j,
    {
        if paths[j] == paths[i] {
            assert(pv.skip(i + 1)[j - i - 1] == pv[i as int]);
            return true;
        }
        j += 1;
    }
    proof {
        let tail = pv.skip(i + 1);
        assert forall|k: int| 0 <= k < tail.len() implies tail[k] != pv[i as int] by {
            assert(tail[k] == pv[k + i + 1]);
        }
    }
    false
}

/// `paths` without the occurrences that another one follows.
fn without_earlier(paths: &Vec<String>) -> (out: Vec<String>)
    ensures
        text_views(out@) == keep_last(text_views(paths@)),
{
    let ghost pv = text_views(paths@);
    let mut out: Vec<String> = Vec::new();
    let mut i: usize = 0;
    proof {
        assert(pv.skip(0) =~= pv);
        assert(text_views(out@) + keep_last(pv) =~= keep_last(pv));
    }
    while i < paths.len()
        invariant
            i <= paths.len(),
            pv == text_views(paths@),
            keep_last(pv) == text_views(out@) + keep_last(pv.skip(i as int)),
        decreases paths.len() - i,
    {
        let ghost before = text_views(out@);
        let ghost tail = pv.skip(i as int);
        proof {
            assert(tail.drop_first() =~= pv.skip(i + 1));
            assert(tail[0] == pv[i as int]);
        }
        if !occurs_later(paths, i) {
            out.push(paths[i].clone());
            proof {
                assert(text_views(out@) =~= before.push(pv[i as int]));
                assert(before.push(pv[i as int]) + keep_last(pv.skip(i + 1)) =~= before + (
                seq![pv[i as int]] + keep_last(pv.skip(i + 1))));
            }
        }
        i += 1;
    }
    proof {
        assert(keep_last(pv.skip(paths.len() as int)) =~= Seq::empty());
        assert(text_views(out@) + Seq::<Seq<char>>::empty() =~= text_views(out@));
    }
    out
}

impl TaggableFileListModel {
    /// The invariant of the model: that of its value.
    pub open spec fn wf(&self) -> bool {
        self@.wf()
    }

    /// A model without folders and without records.
    pub fn new() -> (r: Self)
        ensures
            r.wf(),
            r@ == TaggableFileListModelView::initial(),
    {
        let r = TaggableFileListModel {
            directory_lists: Vec::new(),
            taggable_files: Vec::new(),
            generation: 0,
            latest: 0,
            pending: None,
            dirty: false,
            next_watcher: 0,
        };
        proof {
            assert(r@.watchers =~= Seq::empty());
            assert(r@.records =~= Seq::empty());
            assert(filenames(r@.records) =~= Seq::empty());
        }
        r
    }

    /// Registers the folder at `path` and returns the identifier under which
    /// the changes that its watch reports are to be handed in. The folder
    /// brings nothing to a rebuild before its listing is reported complete.
    /// Registering a folder twice is allowed.
    pub fn add_folder(&mut self, path: &str) -> (r: Result<u64, ModelError>)
        requires
            old(self).wf(),
        ensures
            final(self).wf(),
            match r {
                Ok(id) => old(self)@.next_watcher < u64::MAX && id == old(self)@.next_watcher
                    && final(self)@ == old(self)@.add_folder(path@),
                Err(e) => e == ModelError::Exhausted && old(self)@.next_watcher == u64::MAX
                    && final(self)@ == old(self)@,
            },
    {
        if self.next_watcher == u64::MAX {
            return Err(ModelError::Exhausted);
        }
        let id = self.next_watcher;
        let watcher = FolderWatcher { id, watch: DirectoryWatch::open(path) };
        self.directory_lists.push(watcher);
        self.next_watcher = id + 1;
        proof {
            assert(self@.watchers =~= old(self)@.add_folder(path@).watchers);
            lemma_add_folder_wf(old(self)@, path@);
        }
        Ok(id)
    }

    /// Drops all folders. The collection stays as it is until the next
    /// rebuild, which will find nothing of them; a rebuild in flight is given
    /// up.
    pub fn clear_folders(&mut self)
        requires
            old(self).wf(),
        ensures
            final(self).wf(),
            final(self)@ == old(self)@.clear_folders(),
    {
        self.directory_lists.clear();
        self.pending = None;
        self.dirty = true;
        proof {
            assert(self@.watchers =~= Seq::empty());
        }
    }

    /// Replaces the registered folders by those at `paths`, in one step, and
    /// returns their identifiers in the order of `paths`. Nothing changes
    /// where the identifiers would run out.
    pub fn select_folders(&mut self, paths: &Vec<String>) -> (r: Result<Vec<u64>, ModelError>)
        requires
            old(self).wf(),
        ensures
            final(self).wf(),
            match r {
                Ok(ids) => {
                    &&& old(self)@.next_watcher + paths.len() <= u64::MAX
                    &&& final(self)@ == old(self)@.select_folders(text_views(paths@))
                    &&& ids.len() == paths.len()
                    &&& forall|k: int|
                        0 <= k < ids.len() ==> #[trigger] ids[k] == old(self)@.next_watcher + k
                },
                Err(e) => e == ModelError::Exhausted && old(self)@.next_watcher + paths.len()
                    > u64::MAX && final(self)@ == old(self)@,
            },
    {
        if paths.len() as u64 > u64::MAX - self.next_watcher {
            return Err(ModelError::Exhausted);
        }
        let ghost pv = text_views(paths@);
        let ghost start = self@;
        self.clear_folders();
        let mut ids: Vec<u64> = Vec::new();
        let mut k: usize = 0;
        proof {
            assert(pv.take(0) =~= Seq::empty());
        }
        while k < paths.len()
            invariant
                k <= paths.len(),
                pv == text_views(paths@),
                self.wf(),
                start.next_watcher + paths.len() <= u64::MAX,
                self@ == start.select_folders(pv.take(k as int)),
                self@.next_watcher == start.next_watcher + k,
                ids.len() == k,
                forall|j: int| 0 <= j < k ==> #[trigger] ids[j] == start.next_watcher + j,
            decreases paths.len() - k,
        {
            proof {
                assert(pv.take(k + 1).drop_last() =~= pv.take(k as int));
                assert(pv.take(k + 1).last() == paths[k as int]@);
            }
            match self.add_folder(paths[k].as_str()) {
                Ok(id) => {
                    ids.push(id);
                },
                Err(_) => {},
            }
            k += 1;
        }
        proof {
            assert(pv.take(paths.len() as int) =~= pv);
        }
        Ok(ids)
    }

    /// The position of the folder registered as `id`, or the number of
    /// folders.
    fn find(&self, id: u64) -> (k: usize)
        ensures
            k == watcher_position(self@.watchers, id),
    {
        let ghost ws = self@.watchers;
        let mut i: usize = 0;
        proof {
            assert(ws.skip(0) =~= ws);
        }
        while i < self.directory_lists.len()
            invariant
                i <= self.directory_lists.len(),
                ws == self@.watchers,
                watcher_position(ws, id) == i + watcher_position(ws.skip(i as int), id),
            decreases self.directory_lists.len() - i,
        {
            if self.directory_lists[i].id == id {
                return i;
            }
            proof {
                assert(ws.skip(i as int).drop_first() =~= ws.skip(i + 1));
            }
            i += 1;
        }
        i
    }

    /// Takes a change that the watch of the folder registered as `id`
    /// reported, and says whether such a folder is registered. The change
    /// makes a rebuild due but starts none: however many changes arrive, the
    /// files are read once, when the caller begins the rebuild.
    pub fn notify(&mut self, id: u64, event: WatchEvent) -> (known: bool)
        requires
            old(self).wf(),
        ensures
            final(self).wf(),
            known == (watcher_position(old(self)@.watchers, id) < old(self)@.watchers.len()),
            final(self)@ == old(self)@.notify(id, event@),
    {
        let k = self.find(id);
        proof {
            lemma_watcher_position(self@.watchers, id);
            lemma_notify_wf(self@, id, event@);
        }
        if k >= self.directory_lists.len() {
            return false;
        }
        self.directory_lists[k].watch.notify(event);
        let failed = self.directory_lists[k].watch.state() == WatchState::Failed;
        if failed {
            self.directory_lists.remove(k);
        }
        self.pending = None;
        self.dirty = true;
        proof {
            assert(self@.watchers =~= old(self)@.notify(id, event@).watchers);
        }
        true
    }

    /// Whether a rebuild is due: the folders have changed since the last one
    /// was begun, and none of them is still loading.
    pub fn needs_rebuild(&self) -> (r: bool)
        ensures
            r == self@.needs_rebuild(),
    {
        if !self.dirty {
            return false;
        }
        let mut i: usize = 0;
        while i < self.directory_lists.len()
            invariant
                i <= self.directory_lists.len(),
                forall|j: int|
                    0 <= j < i ==> (#[trigger] self@.watchers[j]).watch.state == WatchState::Loaded,
            decreases self.directory_lists.len() - i,
        {
            if !self.directory_lists[i].watch.is_loaded() {
                assert(self@.watchers[i as int].watch.state != WatchState::Loaded);
                return false;
            }
            i += 1;
        }
        true
    }

    /// The paths that a rebuild would read now.
    fn plan(&self) -> (paths: Vec<String>)
        ensures
            text_views(paths@) == planned_paths(self@.watchers),
    {
        let ghost ws = self@.watchers;
        let mut all: Vec<String> = Vec::new();
        let mut i: usize = 0;
        proof {
            assert(text_views(all@) =~= covered_paths(ws.take(0)));
        }
        while i < self.directory_lists.len()
            invariant
                i <= self.directory_lists.len(),
                ws == self@.watchers,
                text_views(all@) == covered_paths(ws.take(i as int)),
            decreases self.directory_lists.len() - i,
        {
            proof {
                assert(ws.take(i + 1).drop_last() =~= ws.take(i as int));
                assert(ws.take(i + 1).last() == ws[i as int]);
            }
            if self.directory_lists[i].watch.is_loaded() {
                files_of(&self.directory_lists[i].watch, &mut all);
            } else {
                assert(text_views(all@) + Seq::<Seq<char>>::empty() =~= text_views(all@));
            }
            i += 1;
        }
        proof {
            assert(ws.take(self.directory_lists.len() as int) =~= ws);
        }
        without_earlier(&all)
    }

    /// Begins a rebuild: gives it the next generation and says which files
    /// to read for it, folder by folder in the order of registration and in
    /// each folder in the order of its listing, each path once. The caller
    /// reads them and hands the results to `rebuild_taglist`. A rebuild that
    /// was in flight is overtaken: its results will be dropped.
    pub fn begin_rebuild(&mut self) -> (r: Result<RebuildPlan, ModelError>)
        requires
            old(self).wf(),
        ensures
            final(self).wf(),
            match r {
                Ok(plan) => {
                    &&& old(self)@.latest < u64::MAX
                    &&& final(self)@ == old(self)@.begin_rebuild()
                    &&& plan.generation == final(self)@.latest
                    &&& text_views(plan.paths@) == planned_paths(old(self)@.watchers)
                },
                Err(e) => e == ModelError::Exhausted && old(self)@.latest == u64::MAX
                    && final(self)@ == old(self)@,
            },
    {
        if self.latest == u64::MAX {
            return Err(ModelError::Exhausted);
        }
        let paths = self.plan();
        let kept = clone_texts(&paths);
        self.latest = self.latest + 1;
        self.pending = Some(kept);
        self.dirty = false;
        Ok(RebuildPlan { generation: self.latest, paths })
    }

    /// Completes the rebuild of `generation` with what the reads gave:
    /// `outcomes[i]` for the plan's `paths[i]`, `None` where the file could
    /// not be read. The new collection holds a record for each file that was
    /// read, in the order of the plan, and replaces the old one as a whole;
    /// the result describes the change for the display. Results for a
    /// rebuild that is not the latest, or that was given up because the
    /// folders changed, are dropped.
    pub fn rebuild_taglist(&mut self, generation: u64, outcomes: Vec<Option<TagFields>>) -> (r:
        Result<CollectionReset, ModelError>)
        requires
            old(self).wf(),
        ensures
            final(self).wf(),
            final(self)@ == old(self)@.rebuild_taglist(generation, outcome_views(outcomes@)),
            match r {
                Ok(reset) => old(self)@.accepts(generation, outcomes.len() as nat) && reset == (
                CollectionReset {
                    generation,
                    removed: old(self)@.records.len() as usize,
                    added: final(self)@.records.len() as usize,
                }),
                Err(ModelError::Stale) => old(self)@.pending.is_none() || generation
                    != old(self)@.latest,
                Err(ModelError::Malformed) => old(self)@.pending.is_some() && generation
                    == old(self)@.latest && old(self)@.pending.unwrap().len() != outcomes.len(),
                Err(_) => false,
            },
    {
        let mut outcomes = outcomes;
        let ghost ov = outcome_views(outcomes@);
        if generation != self.latest {
            return Err(ModelError::Stale);
        }
        match &self.pending {
            Some(p) => {
                if p.len() != outcomes.len() {
                    return Err(ModelError::Malformed);
                }
            },
            None => {
                return Err(ModelError::Stale);
            },
        }
        let taken = self.pending.take();
        let paths = taken.unwrap();
        let ghost pv = text_views(paths@);
        let mut records: Vec<TaggableFile> = Vec::new();
        let mut i: usize = 0;
        proof {
            assert(record_views(records@) =~= build_records(pv.take(0), ov.take(0)));
        }
        while i < paths.len()
            invariant
                i <= paths.len(),
                paths.len() == outcomes.len(),
                pv == text_views(paths@),
                ov.len() == outcomes.len(),
                forall|j: int| i <= j < outcomes.len() ==> outcome_views(outcomes@)[j] == ov[j],
                record_views(records@) == build_records(pv.take(i as int), ov.take(i as int)),
            decreases paths.len() - i,
        {
            let ghost before = record_views(records@);
            let ghost outs_before = outcome_views(outcomes@);
            proof {
                assert(pv.take(i + 1).drop_last() =~= pv.take(i as int));
                assert(ov.take(i + 1).drop_last() =~= ov.take(i as int));
                assert(pv.take(i + 1).last() == pv[i as int]);
                assert(ov.take(i + 1).last() == ov[i as int]);
                assert(outs_before[i as int] == ov[i as int]);
            }
            let outcome = outcomes[i].take();
            proof {
                assert forall|j: int| i < j < outcomes.len() implies outcome_views(outcomes@)[j]
                    == ov[j] by {
                    assert(outcome_views(outcomes@)[j] == outs_before[j]);
                }
            }
            match outcome {
                Some(tag) => {
                    let record = TaggableFile::from_tag(paths[i].clone(), tag);
                    records.push(record);
                    proof {
                        assert(record_views(records@) =~= before.push(record@));
                    }
                },
                None => {},
            }
            i += 1;
        }
        proof {
            assert(pv.take(paths.len() as int) =~= pv);
            assert(ov.take(paths.len() as int) =~= ov);
            lemma_rebuild_taglist_wf(old(self)@, generation, ov);
        }
        let removed = self.taggable_files.len();
        let added = records.len();
        self.taggable_files = records;
        self.generation = generation;
        Ok(CollectionReset { generation, removed, added })
    }

    /// The generation of the collection. An index into the collection is
    /// good for the generation under which it was taken, and no other.
    pub fn generation(&self) -> (r: u64)
        ensures
            r == self@.generation,
    {
        self.generation
    }

    /// The number of records in the collection.
    pub fn n_items(&self) -> (r: usize)
        ensures
            r == self@.records.len(),
    {
        self.taggable_files.len()
    }

    /// The record at `position`, if the collection holds one there.
    pub fn item(&self, position: usize) -> (r: Option<&TaggableFile>)
        ensures
            r.is_some() == (position < self@.records.len()),
            r.is_some() ==> r.unwrap()@ == self@.records[position as int],
    {
        if position < self.taggable_files.len() {
            Some(&self.taggable_files[position])
        } else {
            None
        }
    }

    /// The record at `position` for a caller that took the position under
    /// `generation`: refused as stale where the collection has been rebuilt
    /// since, and as out of range where it holds no such record.
    pub fn item_at(&self, generation: u64, position: usize) -> (r: Result<
        &TaggableFile,
        ModelError,
    >)
        ensures
            match r {
                Ok(record) => generation == self@.generation && position < self@.records.len()
                    && record@ == self@.records[position as int],
                Err(ModelError::Stale) => generation != self@.generation,
                Err(ModelError::OutOfRange) => generation == self@.generation && position
                    >= self@.records.len(),
                Err(_) => false,
            },
    {
        if generation != self.generation {
            Err(ModelError::Stale)
        } else if position < self.taggable_files.len() {
            Ok(&self.taggable_files[position])
        } else {
            Err(ModelError::OutOfRange)
        }
    }
}

} // verus!
