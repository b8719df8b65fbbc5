//! The state of one directory watch: the entries reported so far for the
//! direct children of a directory, kept current by change events.

use crate::text::{lemma_name_lt_strict_total, name_less, name_lt, same_text};
use vstd::prelude::*;

verus! {

/// What kind of filesystem object an entry names.
#[derive(Clone, Copy, Debug, PartialEq, Eq, Structural)]
pub enum EntryKind {
    File,
    Directory,
}

/// One child of a watched directory.
#[derive(Debug, PartialEq, Eq)]
pub struct DirectoryEntry {
    /// The entry's name within its directory.
    pub name: String,
    pub kind: EntryKind,
    /// The content type reported for the entry, if any.
    pub mime_hint: Option<String>,
    /// The entry's absolute path.
    pub path: String,
}

/// The mathematical value of a [`DirectoryEntry`].
pub ghost struct DirectoryEntryView {
    pub name: Seq<char>,
    pub kind: EntryKind,
    pub mime_hint: Option<Seq<char>>,
    pub path: Seq<char>,
}

/// The value of an optional string.
pub open spec fn opt_text(s: Option<String>) -> Option<Seq<char>> {
    match s {
        Some(t) => Some(t@),
        None => None,
    }
}

/// Clones an optional string.
pub fn clone_opt_text(s: &Option<String>) -> (r: Option<String>)
    ensures
        opt_text(r) == opt_text(*s),
{
    match s {
        Some(t) => Some(t.clone()),
        None => None,
    }
}

impl View for DirectoryEntry {
    type V = DirectoryEntryView;

    open spec fn view(&self) -> DirectoryEntryView {
        DirectoryEntryView {
            name: self.name@,
            kind: self.kind,
            mime_hint: opt_text(self.mime_hint),
            path: self.path@,
        }
    }
}

impl Clone for DirectoryEntry {
    fn clone(&self) -> (r: Self)
        ensures
            r@ == self@,
    {
        DirectoryEntry {
            name: self.name.clone(),
            kind: self.kind,
            mime_hint: clone_opt_text(&self.mime_hint),
            path: self.path.clone(),
        }
    }
}

/// The content type by which a directory is known.
pub open spec fn directory_mime() -> Seq<char> {
    "inode/directory"@
}

/// The kind of an entry of the given content type: a directory where the
/// type is that of directories, a file otherwise.
pub open spec fn kind_of_mime(mime_hint: Option<Seq<char>>) -> EntryKind {
    if mime_hint == Some(directory_mime()) {
        EntryKind::Directory
    } else {
        EntryKind::File
    }
}

impl DirectoryEntry {
    /// An entry whose kind is told from its content type.
    pub fn classified(name: &str, mime_hint: Option<String>, path: &str) -> (r: Self)
        ensures
            r@ == (DirectoryEntryView {
                name: name@,
                kind: kind_of_mime(opt_text(mime_hint)),
                mime_hint: opt_text(mime_hint),
                path: path@,
            }),
    {
        let kind = match &mime_hint {
            Some(mime) => if same_text(mime.as_str(), "inode/directory") {
                EntryKind::Directory
            } else {
                EntryKind::File
            },
            None => EntryKind::File,
        };
        DirectoryEntry { name: name.to_owned(), kind, mime_hint, path: path.to_owned() }
    }

    /// An entry with the given fields.
    pub fn new(name: &str, kind: EntryKind, mime_hint: Option<String>, path: &str) -> (r: Self)
        ensures
            r@ == (DirectoryEntryView {
                name: name@,
                kind,
                mime_hint: opt_text(mime_hint),
                path: path@,
            }),
    {
        DirectoryEntry { name: name.to_owned(), kind, mime_hint, path: path.to_owned() }
    }

    /// Whether the entry is a directory.
    pub fn is_directory(&self) -> (r: bool)
        ensures
            r == (self@.kind == EntryKind::Directory),
    {
        self.kind == EntryKind::Directory
    }
}

/// The values of a sequence of entries.
pub open spec fn entry_views(entries: Seq<DirectoryEntry>) -> Seq<DirectoryEntryView> {
    entries.map_values(|e: DirectoryEntry| e@)
}

/// The first position at which `entries` holds the name, or the length of
/// `entries` where none does.
pub open spec fn position_of(entries: Seq<DirectoryEntryView>, name: Seq<char>) -> int
    decreases entries.len(),
{
    if entries.len() == 0 {
        0
    } else if entries[0].name == name {
        0
    } else {
        1 + position_of(entries.drop_first(), name)
    }
}

/// No two entries share a name.
pub open spec fn distinct_names(entries: Seq<DirectoryEntryView>) -> bool {
    forall|i: int, j: int|
        0 <= i < j < entries.len() ==> (#[trigger] entries[i]).name != (#[trigger] entries[j]).name
}

/// `position_of` finds the first holder of the name and nothing before it
/// holds the name.
pub proof fn lemma_position_of(entries: Seq<DirectoryEntryView>, name: Seq<char>)
    ensures
        0 <= position_of(entries, name) <= entries.len(),
        position_of(entries, name) < entries.len() ==> entries[position_of(
            entries,
            name,
        )].name == name,
        forall|k: int| 0 <= k < position_of(entries, name) ==> (#[trigger] entries[k]).name != name,
    decreases entries.len(),
{
    if entries.len() > 0 && entries[0].name != name {
        let rest = entries.drop_first();
        lemma_position_of(rest, name);
        assert forall|k: int| 0 <= k < position_of(entries, name) implies (
        #[trigger] entries[k]).name != name by {
            if k > 0 {
                assert(entries[k] == rest[k - 1]);
            }
        }
    }
}

/// How far a watch has come.
#[derive(Clone, Copy, Debug, PartialEq, Eq, Structural)]
pub enum WatchState {
    /// The initial listing has not been completed yet.
    Loading,
    /// The initial listing is complete; the entries are current.
    Loaded,
    /// The directory could not be read or has gone away.
    Failed,
}

/// A change reported by the watch of one directory.
#[derive(Debug, PartialEq, Eq)]
pub enum WatchEvent {
    /// The initial listing is complete.
    Loaded,
    /// An entry appeared.
    Inserted(DirectoryEntry),
    /// An entry changed.
    Updated(DirectoryEntry),
    /// The entry of this name went away.
    Removed(String),
    /// The directory was listed anew: these are its entries now.
    Snapshot(Vec<DirectoryEntry>),
    /// The directory cannot be read any more.
    Failed,
}

/// The mathematical value of a [`WatchEvent`].
pub ghost enum WatchEventView {
    Loaded,
    Inserted(DirectoryEntryView),
    Updated(DirectoryEntryView),
    Removed(Seq<char>),
    Snapshot(Seq<DirectoryEntryView>),
    Failed,
}

impl View for WatchEvent {
    type V = WatchEventView;

    open spec fn view(&self) -> WatchEventView {
        match self {
            WatchEvent::Loaded => WatchEventView::Loaded,
            WatchEvent::Inserted(e) => WatchEventView::Inserted(e@),
            WatchEvent::Updated(e) => WatchEventView::Updated(e@),
            WatchEvent::Removed(n) => WatchEventView::Removed(n@),
            WatchEvent::Snapshot(items) => WatchEventView::Snapshot(entry_views(items@)),
            WatchEvent::Failed => WatchEventView::Failed,
        }
    }
}

/// The mathematical value of a [`DirectoryWatch`].
pub ghost struct DirectoryWatchView {
    pub path: Seq<char>,
    pub state: WatchState,
    pub entries: Seq<DirectoryEntryView>,
}

/// `entries` with `entry` put in the place of the entry of its name, or at
/// the end where the name is new.
pub open spec fn upsert(
    entries: Seq<DirectoryEntryView>,
    entry: DirectoryEntryView,
) -> Seq<DirectoryEntryView> {
    let k = position_of(entries, entry.name);
    if k < entries.len() {
        entries.update(k, entry)
    } else {
        entries.push(entry)
    }
}

/// `entries` without the entry of the given name.
pub open spec fn without(entries: Seq<DirectoryEntryView>, name: Seq<char>) -> Seq<
    DirectoryEntryView,
> {
    let k = position_of(entries, name);
    if k < entries.len() {
        entries.remove(k)
    } else {
        entries
    }
}

/// `entries` after each of `items` was put in, one after the other.
pub open spec fn upsert_all(
    entries: Seq<DirectoryEntryView>,
    items: Seq<DirectoryEntryView>,
) -> Seq<DirectoryEntryView>
    decreases items.len(),
{
    if items.len() == 0 {
        entries
    } else {
        upsert(upsert_all(entries, items.drop_last()), items.last())
    }
}

/// Putting entries in keeps the names unique.
pub proof fn lemma_upsert_all_distinct(
    entries: Seq<DirectoryEntryView>,
    items: Seq<DirectoryEntryView>,
)
    requires
        distinct_names(entries),
    ensures
        distinct_names(upsert_all(entries, items)),
    decreases items.len(),
{
    if items.len() > 0 {
        lemma_upsert_all_distinct(entries, items.drop_last());
        lemma_position_of(upsert_all(entries, items.drop_last()), items.last().name);
    }
}

impl DirectoryWatchView {
    /// Names are unique within a directory, and a failed watch holds nothing.
    pub open spec fn wf(self) -> bool {
        &&& distinct_names(self.entries)
        &&& self.state == WatchState::Failed ==> self.entries.len() == 0
    }

    /// The watch after `event`. A failed watch stays as it is.
    pub open spec fn apply(self, event: WatchEventView) -> DirectoryWatchView {
        if self.state == WatchState::Failed {
            self
        } else {
            match event {
                WatchEventView::Loaded => DirectoryWatchView { state: WatchState::Loaded, ..self },
                WatchEventView::Inserted(e) => DirectoryWatchView {
                    entries: upsert(self.entries, e),
                    ..self
                },
                WatchEventView::Updated(e) => DirectoryWatchView {
                    entries: upsert(self.entries, e),
                    ..self
                },
                WatchEventView::Removed(n) => DirectoryWatchView {
                    entries: without(self.entries, n),
                    ..self
                },
                WatchEventView::Snapshot(items) => DirectoryWatchView {
                    entries: upsert_all(Seq::empty(), items),
                    ..self
                },
                WatchEventView::Failed => DirectoryWatchView {
                    state: WatchState::Failed,
                    entries: Seq::empty(),
                    ..self
                },
            }
        }
    }
}

/// Every event keeps the names of a watch unique.
pub proof fn lemma_apply_preserves_wf(watch: DirectoryWatchView, event: WatchEventView)
    requires
        watch.wf(),
    ensures
        watch.apply(event).wf(),
{
    let after = watch.apply(event);
    if watch.state != WatchState::Failed {
        match event {
            WatchEventView::Inserted(e) => {
                lemma_position_of(watch.entries, e.name);
            },
            WatchEventView::Updated(e) => {
                lemma_position_of(watch.entries, e.name);
            },
            WatchEventView::Removed(n) => {
                lemma_position_of(watch.entries, n);
            },
            WatchEventView::Snapshot(items) => {
                lemma_upsert_all_distinct(Seq::empty(), items);
            },
            _ => {},
        }
    }
}

/// Whether `out` holds exactly the directories among `entries`, in strictly
/// ascending ordinal order of name.
pub open spec fn is_sorted_directories(
    out: Seq<DirectoryEntryView>,
    entries: Seq<DirectoryEntryView>,
) -> bool {
    &&& forall|k: int, l: int|
        0 <= k < l < out.len() ==> name_lt((#[trigger] out[k]).name, (#[trigger] out[l]).name)
    &&& forall|k: int|
        0 <= k < out.len() ==> (#[trigger] out[k]).kind == EntryKind::Directory
            && entries.contains(out[k])
    &&& forall|m: int|
        0 <= m < entries.len() && (#[trigger] entries[m]).kind == EntryKind::Directory
            ==> out.contains(entries[m])
}

/// The watch of one directory: its path, how far it has loaded, and the
/// entries reported so far, in the order in which they were reported.
#[derive(Debug)]
pub struct DirectoryWatch {
    path: String,
    state: WatchState,
    entries: Vec<DirectoryEntry>,
}

impl View for DirectoryWatch {
    type V = DirectoryWatchView;

    closed spec fn view(&self) -> DirectoryWatchView {
        DirectoryWatchView {
            path: self.path@,
            state: self.state,
            entries: entry_views(self.entries@),
        }
    }
}

impl DirectoryWatch {
    /// The invariant of a watch: that of its value.
    pub open spec fn wf(&self) -> bool {
        self@.wf()
    }

    /// A watch on `path` that has reported nothing yet.
    pub fn open(path: &str) -> (r: Self)
        ensures
            r.wf(),
            r@ == (DirectoryWatchView {
                path: path@,
                state: WatchState::Loading,
                entries: Seq::empty(),
            }),
    {
        let r = DirectoryWatch {
            path: path.to_owned(),
            state: WatchState::Loading,
            entries: Vec::new(),
        };
        assert(entry_views(r.entries@) =~= Seq::empty());
        r
    }

    /// The watched directory's path.
    pub fn path(&self) -> (r: &String)
        ensures
            r@ == self@.path,
    {
        &self.path
    }

    /// How far the watch has come.
    pub fn state(&self) -> (r: WatchState)
        ensures
            r == self@.state,
    {
        self.state
    }

    /// Whether the initial listing is complete.
    pub fn is_loaded(&self) -> (r: bool)
        ensures
            r == (self@.state == WatchState::Loaded),
    {
        self.state == WatchState::Loaded
    }

    /// The number of entries reported so far.
    pub fn len(&self) -> (r: usize)
        ensures
            r == self@.entries.len(),
    {
        self.entries.len()
    }

    /// The entry at `index` of the current snapshot, if there is one.
    pub fn entry(&self, index: usize) -> (r: Option<&DirectoryEntry>)
        ensures
            index < self@.entries.len() ==> r.is_some() && r.unwrap()@ == self@.entries[index as int],
            index >= self@.entries.len() ==> r.is_none(),
    {
        if index < self.entries.len() {
            Some(&self.entries[index])
        } else {
            None
        }
    }

    /// The position of the entry named `name`, or the number of entries
    /// where there is none.
    fn find(&self, name: &String) -> (k: usize)
        ensures
            k == position_of(self@.entries, name@),
    {
        let mut i: usize = 0;
        proof {
            assert(self@.entries.skip(0) =~= self@.entries);
        }
        while i < self.entries.len()
            invariant
                i <= self.entries.len(),
                position_of(self@.entries, name@) == i + position_of(
                    self@.entries.skip(i as int),
                    name@,
                ),
            decreases self.entries.len() - i,
        {
            if self.entries[i].name == *name {
                return i;
            }
            proof {
                assert(self@.entries.skip(i as int).drop_first() =~= self@.entries.skip(i + 1));
            }
            i += 1;
        }
        i
    }

    /// The directories among the entries, in ascending ordinal order of
    /// name. Files are left out.
    pub fn directories(&self) -> (out: Vec<DirectoryEntry>)
        requires
            self.wf(),
        ensures
            is_sorted_directories(entry_views(out@), self@.entries),
    {
        let mut out: Vec<DirectoryEntry> = Vec::new();
        let ghost entries = self@.entries;
        let ghost mut src: Seq<int> = Seq::empty();
        let mut i: usize = 0;
        while i < self.entries.len()
            invariant
                i <= self.entries.len(),
                entries == self@.entries,
                entries.len() == self.entries.len(),
                distinct_names(entries),
                src.len() == out.len(),
                forall|k: int|
                    0 <= k < out.len() ==> 0 <= #[trigger] src[k] < i && entries[src[k]]
                        == entry_views(out@)[k] && entries[src[k]].kind == EntryKind::Directory,
                forall|k: int, l: int|
                    0 <= k < l < out.len() ==> name_lt(
                        (#[trigger] entry_views(out@)[k]).name,
                        (#[trigger] entry_views(out@)[l]).name,
                    ),
                forall|m: int|
                    0 <= m < i && (#[trigger] entries[m]).kind == EntryKind::Directory
                        ==> entry_views(out@).contains(entries[m]),
            decreases self.entries.len() - i,
        {
            if self.entries[i].is_directory() {
                let e = self.entries[i].clone();
                let ghost before = entry_views(out@);
                let mut k: usize = 0;
                while k < out.len() && !name_less(e.name.as_str(), out[k].name.as_str())
                    invariant
                        k <= out.len(),
                        before == entry_views(out@),
                        e@ == entries[i as int],
                        i < entries.len(),
                        distinct_names(entries),
                        src.len() == out.len(),
                        forall|j: int|
                            0 <= j < out.len() ==> 0 <= #[trigger] src[j] < i && entries[src[j]]
                                == before[j],
                        forall|j: int| 0 <= j < k ==> name_lt((#[trigger] before[j]).name, e@.name),
                    decreases out.len() - k,
                {
                    proof {
                        let other = before[k as int];
                        assert(entries[src[k as int]] == other);
                        assert(other.name != e@.name);
                        lemma_name_lt_strict_total(e@.name, other.name, other.name);
                    }
                    k += 1;
                }
                out.insert(k, e);
                proof {
                    let after = entry_views(out@);
                    assert(after =~= before.insert(k as int, e@));
                    src = src.insert(k as int, i as int);
                    assert forall|a: int, b: int| 0 <= a < b < after.len() implies name_lt(
                        (#[trigger] after[a]).name,
                        (#[trigger] after[b]).name,
                    ) by {
                        if a == k {
                            // e sorts before before[k], which sorts before all that follow
                            let first = before[k as int];
                            let later = before[b - 1];
                            if b - 1 > k {
                                lemma_name_lt_strict_total(e@.name, first.name, later.name);
                            }
                        } else if b == k {
                            assert(after[a] == before[a]);
                        } else {
                            let x = if a < k { a } else { a - 1 };
                            let y = if b < k { b } else { b - 1 };
                            assert(after[a] == before[x] && after[b] == before[y]);
                        }
                    }
                    assert forall|m: int|
                        0 <= m < i + 1 && (#[trigger] entries[m]).kind
                            == EntryKind::Directory implies after.contains(entries[m]) by {
                        if m == i {
                            assert(after[k as int] == entries[m]);
                        } else {
                            let j = choose|j: int| 0 <= j < before.len() && before[j] == entries[m];
                            let j2 = if j < k { j } else { j + 1 };
                            assert(after[j2] == entries[m]);
                        }
                    }
                    assert forall|j: int| 0 <= j < out.len() implies 0 <= #[trigger] src[j] < i + 1
                        && entries[src[j]] == after[j] && entries[src[j]].kind
                        == EntryKind::Directory by {
                        if j < k {
                            assert(after[j] == before[j]);
                        } else if j > k {
                            assert(after[j] == before[j - 1]);
                        }
                    }
                }
            }
            i += 1;
        }
        proof {
            let ov = entry_views(out@);
            assert forall|k: int| 0 <= k < ov.len() implies (#[trigger] ov[k]).kind
                == EntryKind::Directory && entries.contains(ov[k]) by {
                assert(entries[src[k]] == ov[k]);
            }
        }
        out
    }

    /// Brings the watch up to date with one reported change.
    pub fn notify(&mut self, event: WatchEvent)
        requires
            old(self).wf(),
        ensures
            final(self).wf(),
            final(self)@ == old(self)@.apply(event@),
    {
        proof {
            lemma_apply_preserves_wf(self@, event@);
        }
        if self.state == WatchState::Failed {
            return ;
        }
        match event {
            WatchEvent::Loaded => {
                self.state = WatchState::Loaded;
            },
            WatchEvent::Inserted(e) => {
                self.put(e);
            },
            WatchEvent::Updated(e) => {
                self.put(e);
            },
            WatchEvent::Removed(n) => {
                let k = self.find(&n);
                if k < self.entries.len() {
                    self.entries.remove(k);
                    assert(entry_views(self.entries@) =~= old(self)@.entries.remove(k as int));
                }
            },
            WatchEvent::Snapshot(items) => {
                self.entries.clear();
                let ghost iv = entry_views(items@);
                let mut i: usize = 0;
                proof {
                    assert(entry_views(self.entries@) =~= Seq::empty());
                    assert(iv.take(0) =~= Seq::empty());
                }
                while i < items.len()
                    invariant
                        i <= items.len(),
                        iv == entry_views(items@),
                        self@ == (DirectoryWatchView {
                            entries: upsert_all(Seq::empty(), iv.take(i as int)),
                            ..old(self)@
                        }),
                    decreases items.len() - i,
                {
                    proof {
                        assert(iv.take(i + 1).drop_last() =~= iv.take(i as int));
                        assert(iv.take(i + 1).last() == iv[i as int]);
                    }
                    self.put(items[i].clone());
                    i += 1;
                }
                proof {
                    assert(iv.take(items.len() as int) =~= iv);
                }
            },
            WatchEvent::Failed => {
                self.state = WatchState::Failed;
                self.entries.clear();
                assert(entry_views(self.entries@) =~= Seq::empty());
            },
        }
    }

    /// Stores `entry` in the place of the entry of its name, or at the end.
    fn put(&mut self, entry: DirectoryEntry)
        ensures
            final(self)@ == (DirectoryWatchView {
                entries: upsert(old(self)@.entries, entry@),
                ..old(self)@
            }),
    {
        let k = self.find(&entry.name);
        if k < self.entries.len() {
            self.entries.set(k, entry);
            assert(entry_views(self.entries@) =~= old(self)@.entries.update(k as int, entry@));
        } else {
            self.entries.push(entry);
            assert(entry_views(self.entries@) =~= old(self)@.entries.push(entry@));
        }
    }
}

} // verus!
