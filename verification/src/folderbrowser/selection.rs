//! What is selected in the tree, and the folders that the selection stands
//! for.

use crate::folderbrowser::tree::{DirectoryTreeIndex, DirectoryTreeView};
use crate::text::{has_id, has_text, text_views};
use vstd::prelude::*;

verus! {

/// The nodes among `ids` that are part of the tree, each once, in the order
/// of their first occurrence.
pub open spec fn live_selection(tree: DirectoryTreeView, ids: Seq<usize>) -> Seq<usize>
    decreases ids.len(),
{
    if ids.len() == 0 {
        Seq::empty()
    } else {
        let before = live_selection(tree, ids.drop_last());
        if tree.contains(ids.last()) && !before.contains(ids.last()) {
            before.push(ids.last())
        } else {
            before
        }
    }
}

/// The paths of the nodes `ids`, each once, in the order of their first
/// occurrence.
pub open spec fn resolved_paths(tree: DirectoryTreeView, ids: Seq<usize>) -> Seq<Seq<char>>
    decreases ids.len(),
{
    if ids.len() == 0 {
        Seq::empty()
    } else {
        let before = resolved_paths(tree, ids.drop_last());
        let path = tree.nodes[ids.last() as int].entry.path;
        if before.contains(path) {
            before
        } else {
            before.push(path)
        }
    }
}

/// Whether `ids` is a selection in `tree`: nodes of the tree, none twice.
pub open spec fn selection_in(tree: DirectoryTreeView, ids: Seq<usize>) -> bool {
    &&& ids.no_duplicates()
    &&& forall|k: int| 0 <= k < ids.len() ==> tree.contains(#[trigger] ids[k])
}

/// `live_selection` gives a selection: exactly the nodes of the tree among
/// `ids`. It drops nothing from what is a selection already, and whatever it
/// returns at full length is what it was given.
pub proof fn lemma_live_selection(tree: DirectoryTreeView, ids: Seq<usize>)
    ensures
        selection_in(tree, live_selection(tree, ids)),
        forall|id: usize|
            live_selection(tree, ids).contains(id) <==> ids.contains(id) && tree.contains(id),
        live_selection(tree, ids).len() <= ids.len(),
        live_selection(tree, ids).len() == ids.len() <==> live_selection(tree, ids) == ids,
        selection_in(tree, ids) ==> live_selection(tree, ids) == ids,
    decreases ids.len(),
{
    if ids.len() > 0 {
        let front = ids.drop_last();
        let last = ids.last();
        let before = live_selection(tree, front);
        let out = live_selection(tree, ids);
        lemma_live_selection(tree, front);
        assert(ids =~= front.push(last));
        assert forall|id: usize| out.contains(id) <==> ids.contains(id) && tree.contains(id) by {
            if out.contains(id) {
                let k = choose|k: int| 0 <= k < out.len() && out[k] == id;
                if k < before.len() {
                    assert(before[k] == id);
                    assert(before.contains(id));
                    let j = choose|j: int| 0 <= j < front.len() && front[j] == id;
                    assert(ids[j] == id);
                } else {
                    assert(ids[ids.len() - 1] == id);
                }
            }
            if ids.contains(id) && tree.contains(id) {
                let j = choose|j: int| 0 <= j < ids.len() && ids[j] == id;
                if j < front.len() {
                    assert(front[j] == id);
                    assert(before.contains(id));
                    let k = choose|k: int| 0 <= k < before.len() && before[k] == id;
                    assert(out[k] == id);
                } else if before.contains(id) {
                    let k = choose|k: int| 0 <= k < before.len() && before[k] == id;
                    assert(out[k] == id);
                } else {
                    assert(out[before.len() as int] == id);
                }
            }
        }
        if out.len() == ids.len() {
            assert(before == front);
            assert(out =~= ids);
        }
        if selection_in(tree, ids) {
            assert(selection_in(tree, front)) by {
                assert forall|k: int| 0 <= k < front.len() implies tree.contains(
                    #[trigger] front[k],
                ) by {
                    assert(front[k] == ids[k]);
                }
            }
            if before.contains(last) {
                let j = choose|j: int| 0 <= j < front.len() && front[j] == last;
                assert(ids[j] == ids[ids.len() - 1]);
            }
            assert(out =~= ids);
        }
    } else {
        assert(live_selection(tree, ids) =~= ids);
    }
}

/// `resolved_paths` is a set of paths: none twice, and exactly the paths of
/// the nodes.
pub proof fn lemma_resolved_paths(tree: DirectoryTreeView, ids: Seq<usize>)
    ensures
        resolved_paths(tree, ids).no_duplicates(),
        forall|p: Seq<char>|
            resolved_paths(tree, ids).contains(p) <==> exists|k: int|
                0 <= k < ids.len() && tree.nodes[(#[trigger] ids[k]) as int].entry.path == p,
    decreases ids.len(),
{
    if ids.len() > 0 {
        let front = ids.drop_last();
        let last = ids.last();
        let before = resolved_paths(tree, front);
        let out = resolved_paths(tree, ids);
        let path = tree.nodes[last as int].entry.path;
        lemma_resolved_paths(tree, front);
        assert forall|p: Seq<char>|
            out.contains(p) <==> exists|k: int|
                0 <= k < ids.len() && tree.nodes[(#[trigger] ids[k]) as int].entry.path == p by {
            if out.contains(p) {
                let j = choose|j: int| 0 <= j < out.len() && out[j] == p;
                if j < before.len() {
                    assert(before[j] == p);
                    assert(before.contains(p));
                    let k = choose|k: int|
                        0 <= k < front.len() && tree.nodes[(#[trigger] front[k]) as int].entry.path
                            == p;
                    assert(ids[k] == front[k]);
                } else {
                    assert(tree.nodes[ids[ids.len() - 1] as int].entry.path == p);
                }
            }
            if exists|k: int|
                0 <= k < ids.len() && tree.nodes[(#[trigger] ids[k]) as int].entry.path == p {
                let k = choose|k: int|
                    0 <= k < ids.len() && tree.nodes[(#[trigger] ids[k]) as int].entry.path == p;
                if k < front.len() {
                    assert(front[k] == ids[k]);
                    assert(before.contains(p));
                }
                if before.contains(p) {
                    let j = choose|j: int| 0 <= j < before.len() && before[j] == p;
                    assert(out[j] == p);
                } else {
                    assert(out[before.len() as int] == p);
                }
            }
        }
    }
}

/// Which nodes of the tree are selected.
#[derive(Debug)]
pub struct SelectionCoordinator {
    selected: Vec<usize>,
}

impl View for SelectionCoordinator {
    type V = Seq<usize>;

    closed spec fn view(&self) -> Seq<usize> {
        self.selected@
    }
}

impl SelectionCoordinator {
    /// A coordinator with nothing selected.
    pub fn new() -> (r: Self)
        ensures
            r@ == Seq::<usize>::empty(),
    {
        SelectionCoordinator { selected: Vec::new() }
    }

    /// The selected nodes.
    pub fn selected(&self) -> (r: &Vec<usize>)
        ensures
            r@ == self@,
    {
        &self.selected
    }

    /// The nodes of `tree` among `ids`, each once.
    fn live(tree: &DirectoryTreeIndex, ids: &Vec<usize>) -> (out: Vec<usize>)
        ensures
            out@ == live_selection(tree@, ids@),
    {
        let mut out: Vec<usize> = Vec::new();
        let mut k: usize = 0;
        assert(ids@.take(0) =~= Seq::empty());
        while k < ids.len()
            invariant
                k <= ids.len(),
                out@ == live_selection(tree@, ids@.take(k as int)),
            decreases ids.len() - k,
        {
            proof {
                assert(ids@.take(k + 1).drop_last() =~= ids@.take(k as int));
                assert(ids@.take(k + 1).last() == ids[k as int]);
            }
            let id = ids[k];
            if tree.contains(id) && !has_id(&out, id) {
                out.push(id);
            }
            k += 1;
        }
        assert(ids@.take(ids.len() as int) =~= ids@);
        out
    }

    /// Selects the nodes `node_ids`, as far as they are part of `tree`, and
    /// returns the folders that the selection stands for: the one event that
    /// a change of selection sends on.
    pub fn set_selection(&mut self, tree: &DirectoryTreeIndex, node_ids: &Vec<usize>) -> (paths:
        Vec<String>)
        ensures
            final(self)@ == live_selection(tree@, node_ids@),
            selection_in(tree@, final(self)@),
            text_views(paths@) == resolved_paths(tree@, final(self)@),
    {
        self.selected = Self::live(tree, node_ids);
        proof {
            lemma_live_selection(tree@, node_ids@);
        }
        self.current_paths(tree)
    }

    /// The folders that the selection stands for: the paths of the selected
    /// nodes, each once.
    pub fn current_paths(&self, tree: &DirectoryTreeIndex) -> (paths: Vec<String>)
        requires
            selection_in(tree@, self@),
        ensures
            text_views(paths@) == resolved_paths(tree@, self@),
    {
        let mut paths: Vec<String> = Vec::new();
        let mut k: usize = 0;
        proof {
            assert(self@.take(0) =~= Seq::empty());
            assert(text_views(paths@) =~= Seq::empty());
        }
        while k < self.selected.len()
            invariant
                k <= self.selected.len(),
                selection_in(tree@, self@),
                text_views(paths@) == resolved_paths(tree@, self@.take(k as int)),
            decreases self.selected.len() - k,
        {
            let ghost before = text_views(paths@);
            proof {
                assert(self@.take(k + 1).drop_last() =~= self@.take(k as int));
                assert(self@.take(k + 1).last() == self@[k as int]);
                assert(tree@.contains(self@[k as int]));
            }
            match tree.node(self.selected[k]) {
                Some(node) => {
                    if !has_text(&paths, node.path()) {
                        paths.push(node.path().clone());
                        proof {
                            assert(text_views(paths@) =~= before.push(node@.entry.path));
                        }
                    }
                },
                None => {},
            }
            k += 1;
        }
        proof {
            assert(self@.take(self.selected.len() as int) =~= self@);
        }
        paths
    }

    /// Drops from the selection what is no longer part of `tree`. Where that
    /// changed the selection, the result is the event to send on: the folders
    /// that the selection stands for now.
    pub fn refresh(&mut self, tree: &DirectoryTreeIndex) -> (event: Option<Vec<String>>)
        ensures
            final(self)@ == live_selection(tree@, old(self)@),
            selection_in(tree@, final(self)@),
            event.is_some() == (final(self)@ != old(self)@),
            event.is_some() ==> text_views(event.unwrap()@) == resolved_paths(tree@, final(self)@),
    {
        let kept = Self::live(tree, &self.selected);
        proof {
            lemma_live_selection(tree@, self@);
        }
        let changed = kept.len() != self.selected.len();
        self.selected = kept;
        if changed {
            Some(self.current_paths(tree))
        } else {
            None
        }
    }
}

} // verus!
