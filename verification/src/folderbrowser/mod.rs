//! The folder browser's model: the directory tree, what is selected in it,
//! and how a change of selection reaches the collection of tag records.

pub mod selection;
pub mod tree;

use crate::directorywatch::WatchEvent;
use crate::folderbrowser::selection::{
    live_selection, resolved_paths, selection_in, SelectionCoordinator,
};
use crate::folderbrowser::tree::{DirectoryTreeIndex, DirectoryTreeView, TreeError};
use crate::taggablefile::taggablefilelist::{ModelError, TaggableFileListModel};
use crate::text::text_views;
use vstd::prelude::*;

verus! {

/// The mathematical value of a [`FolderBrowser`].
pub ghost struct FolderBrowserView {
    pub tree: DirectoryTreeView,
    pub selected: Seq<usize>,
}

impl FolderBrowserView {
    /// The invariant of the browser: the tree is well formed, and what is
    /// selected is part of it.
    pub open spec fn wf(self) -> bool {
        self.tree.wf() && selection_in(self.tree, self.selected)
    }
}

/// Every folder that the selection stands for is a directory of the tree:
/// the path of a node that is part of it.
pub proof fn lemma_selection_names_directories(browser: FolderBrowserView, path: Seq<char>)
    requires
        browser.wf(),
        resolved_paths(browser.tree, browser.selected).contains(path),
    ensures
        exists|id: usize|
            #[trigger] browser.tree.contains(id) && browser.tree.nodes[id as int].entry.path == path
                && browser.tree.nodes[id as int].entry.kind
                == crate::directorywatch::EntryKind::Directory,
{
    crate::folderbrowser::selection::lemma_resolved_paths(browser.tree, browser.selected);
    let k = choose|k: int|
        0 <= k < browser.selected.len() && browser.tree.nodes[(
        #[trigger] browser.selected[k]) as int].entry.path == path;
    let id = browser.selected[k];
    assert(browser.tree.contains(id));
    assert(browser.tree.node_wf(id));
}

/// What a refresh did beyond the tree itself.
#[derive(Debug, PartialEq, Eq)]
pub struct Refreshed {
    /// The paths of the directories whose watches are to be closed.
    pub closed_watches: Vec<String>,
    /// The folders that the selection stands for now, where the refresh took
    /// a selected node away.
    pub selection: Option<Vec<String>>,
}

/// The tree of directories together with its selection.
#[derive(Debug)]
pub struct FolderBrowser {
    primary_dirlist: DirectoryTreeIndex,
    selection: SelectionCoordinator,
}

impl View for FolderBrowser {
    type V = FolderBrowserView;

    closed spec fn view(&self) -> FolderBrowserView {
        FolderBrowserView { tree: self.primary_dirlist@, selected: self.selection@ }
    }
}

impl FolderBrowser {
    /// The invariant of the browser: that of its value.
    pub open spec fn wf(&self) -> bool {
        self@.wf()
    }

    /// A browser of the directory at `path`, shown under `name`, with
    /// nothing expanded and nothing selected.
    pub fn new(name: &str, path: &str) -> (r: Self)
        ensures
            r.wf(),
            r@.selected == Seq::<usize>::empty(),
            r@.tree.nodes.len() == 1,
            r@.tree.nodes[0].entry.name == name@,
            r@.tree.nodes[0].entry.path == path@,
            !r@.tree.materialized(0),
    {
        FolderBrowser {
            primary_dirlist: DirectoryTreeIndex::new(name, path),
            selection: SelectionCoordinator::new(),
        }
    }

    /// Opens the root, so that the top directories can be listed. The result
    /// says whether this was the first time, in which case the caller starts
    /// watching the root directory.
    pub fn init(&mut self) -> (opened: bool)
        requires
            old(self).wf(),
        ensures
            final(self).wf(),
            opened == !old(self)@.tree.materialized(0),
            final(self)@.selected == old(self)@.selected,
            final(self)@.tree.materialized(0),
            final(self)@.tree.nodes.len() == old(self)@.tree.nodes.len(),
            final(self)@.tree.nodes[0].expanded,
            forall|i: int|
                1 <= i < old(self)@.tree.nodes.len() ==> final(self)@.tree.nodes[i] == old(self)@.tree.nodes[i],
    {
        match self.primary_dirlist.expand(0) {
            Ok(opened) => opened,
            Err(_) => false,
        }
    }

    /// The tree.
    pub fn primary_dirlist(&self) -> (r: &DirectoryTreeIndex)
        ensures
            r@ == self@.tree,
    {
        &self.primary_dirlist
    }

    /// The rows of the tree as a list shows them; see
    /// [`DirectoryTreeIndex::visible_rows`].
    pub fn visible_rows(&self) -> (rows: Vec<usize>)
        requires
            self.wf(),
        ensures
            rows@ == self@.tree.rows_below(0),
    {
        self.primary_dirlist.visible_rows()
    }

    /// The selection.
    pub fn selection(&self) -> (r: &SelectionCoordinator)
        ensures
            r@ == self@.selected,
    {
        &self.selection
    }

    /// Shows the node open; see [`DirectoryTreeIndex::expand`].
    pub fn expand(&mut self, id: usize) -> (r: Result<bool, TreeError>)
        requires
            old(self).wf(),
        ensures
            final(self).wf(),
            final(self)@.selected == old(self)@.selected,
            final(self)@.tree.nodes.len() == old(self)@.tree.nodes.len(),
            match r {
                Ok(opened) => old(self)@.tree.contains(id) && opened == !old(self)@.tree.materialized(id) && final(self)@.tree.materialized(id) && final(self)@.tree.nodes[id as int].expanded,
                Err(e) => e == TreeError::UnknownNode && !old(self)@.tree.contains(id) && final(self)@ == old(self)@,
            },
            forall|i: int|
                0 <= i < old(self)@.tree.nodes.len() && i != id ==> final(self)@.tree.nodes[i]
                    == old(self)@.tree.nodes[i],
    {
        self.primary_dirlist.expand(id)
    }

    /// Shows the node closed; see [`DirectoryTreeIndex::collapse`].
    pub fn collapse(&mut self, id: usize) -> (r: Result<(), TreeError>)
        requires
            old(self).wf(),
        ensures
            final(self).wf(),
            final(self)@.selected == old(self)@.selected,
            final(self)@.tree.nodes.len() == old(self)@.tree.nodes.len(),
            match r {
                Ok(_) => old(self)@.tree.contains(id) && !final(self)@.tree.nodes[id as int].expanded,
                Err(e) => e == TreeError::UnknownNode && !old(self)@.tree.contains(id) && final(self)@ == old(self)@,
            },
            forall|i: int|
                0 <= i < old(self)@.tree.nodes.len() && i != id ==> final(self)@.tree.nodes[i]
                    == old(self)@.tree.nodes[i],
    {
        self.primary_dirlist.collapse(id)
    }

    /// Hands a change reported for the directory of `id` to its watch; see
    /// [`DirectoryTreeIndex::notify`].
    pub fn notify(&mut self, id: usize, event: WatchEvent) -> (r: Result<(), TreeError>)
        requires
            old(self).wf(),
        ensures
            final(self).wf(),
            final(self)@.selected == old(self)@.selected,
            final(self)@.tree.nodes.len() == old(self)@.tree.nodes.len(),
            match r {
                Ok(_) => old(self)@.tree.materialized(id) && final(self)@.tree.nodes[id as int].watch
                    == Some(old(self)@.tree.nodes[id as int].watch.unwrap().apply(event@)),
                Err(TreeError::UnknownNode) => !old(self)@.tree.contains(id) && final(self)@
                    == old(self)@,
                Err(TreeError::NotExpanded) => old(self)@.tree.contains(id) && !old(self)@.tree.materialized(id) && final(self)@ == old(self)@,
            },
            forall|i: int|
                0 <= i < old(self)@.tree.nodes.len() && i != id ==> final(self)@.tree.nodes[i]
                    == old(self)@.tree.nodes[i],
    {
        self.primary_dirlist.notify(id, event)
    }

    /// Refreshes the children of `id` from its watch, then drops from the
    /// selection what the refresh removed; see
    /// [`DirectoryTreeIndex::refresh`]. Where the selection lost a node, the
    /// folders that it stands for now are part of the result, to be sent on
    /// as a change of selection.
    pub fn refresh(&mut self, id: usize) -> (r: Result<Refreshed, TreeError>)
        requires
            old(self).wf(),
        ensures
            final(self).wf(),
            match r {
                Ok(done) => {
                    &&& old(self)@.tree.materialized(id)
                    &&& old(self)@.tree.refreshed(id, final(self)@.tree)
                    &&& text_views(done.closed_watches@) == old(self)@.tree.closed_watches(
                        old(self)@.tree.vanished(id),
                        old(self)@.tree.nodes.len() as usize,
                    )
                    &&& final(self)@.selected == live_selection(
                        final(self)@.tree,
                        old(self)@.selected,
                    )
                    &&& done.selection.is_some() == (final(self)@.selected != old(self)@.selected)
                    &&& done.selection.is_some() ==> text_views(done.selection.unwrap()@)
                        == resolved_paths(final(self)@.tree, final(self)@.selected)
                },
                Err(TreeError::UnknownNode) => !old(self)@.tree.contains(id) && final(self)@
                    == old(self)@,
                Err(TreeError::NotExpanded) => old(self)@.tree.contains(id) && !old(self)@.tree.materialized(id) && final(self)@ == old(self)@,
            },
    {
        match self.primary_dirlist.refresh(id) {
            Ok(closed_watches) => {
                let selection = self.selection.refresh(&self.primary_dirlist);
                Ok(Refreshed { closed_watches, selection })
            },
            Err(e) => Err(e),
        }
    }

    /// Selects the nodes `node_ids`, as far as they are part of the tree, and
    /// returns the folders that the selection stands for.
    pub fn set_selection(&mut self, node_ids: &Vec<usize>) -> (paths: Vec<String>)
        requires
            old(self).wf(),
        ensures
            final(self).wf(),
            final(self)@.tree == old(self)@.tree,
            final(self)@.selected == live_selection(old(self)@.tree, node_ids@),
            text_views(paths@) == resolved_paths(final(self)@.tree, final(self)@.selected),
    {
        self.selection.set_selection(&self.primary_dirlist, node_ids)
    }

    /// The folders that the selection stands for.
    pub fn current_paths(&self) -> (paths: Vec<String>)
        requires
            self.wf(),
        ensures
            text_views(paths@) == resolved_paths(self@.tree, self@.selected),
    {
        self.selection.current_paths(&self.primary_dirlist)
    }

    /// Takes a change of selection through to the collection in one step:
    /// selects `node_ids`, and replaces the folders of `filelist` by those
    /// that the selection stands for. The result holds the identifiers under
    /// which `filelist` knows the new folders, in the order of
    /// `current_paths`. The rebuild is due once the folders have loaded.
    pub fn selection_changed(
        &mut self,
        node_ids: &Vec<usize>,
        filelist: &mut TaggableFileListModel,
    ) -> (r: Result<Vec<u64>, ModelError>)
        requires
            old(self).wf(),
            old(filelist).wf(),
        ensures
            final(self).wf(),
            final(filelist).wf(),
            final(self)@.tree == old(self)@.tree,
            final(self)@.selected == live_selection(old(self)@.tree, node_ids@),
            match r {
                Ok(ids) => {
                    let paths = resolved_paths(final(self)@.tree, final(self)@.selected);
                    &&& old(filelist)@.next_watcher + paths.len() <= u64::MAX
                    &&& final(filelist)@ == old(filelist)@.select_folders(paths)
                    &&& ids.len() == paths.len()
                    &&& forall|k: int|
                        0 <= k < ids.len() ==> #[trigger] ids[k] == old(filelist)@.next_watcher + k
                },
                Err(e) => e == ModelError::Exhausted && old(filelist)@.next_watcher
                    + resolved_paths(final(self)@.tree, final(self)@.selected).len() > u64::MAX
                    && final(filelist)@ == old(filelist)@,
            },
    {
        let paths = self.selection.set_selection(&self.primary_dirlist, node_ids);
        filelist.select_folders(&paths)
    }
}

} // verus!
