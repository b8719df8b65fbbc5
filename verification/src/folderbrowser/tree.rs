//! A lazily expanded tree of directories, held as an arena of nodes that are
//! addressed by their index. A node's children are listed only once it has
//! been expanded; from then on a watch of its directory stands behind them.
//! Indices are never reused: a removed node leaves a tombstone.

use crate::directorywatch::{
    DirectoryEntry, DirectoryEntryView, DirectoryWatch, DirectoryWatchView, EntryKind,
    WatchEvent, WatchState,
};
use crate::directorywatch::{entry_views, is_sorted_directories};
use crate::text::{has_id, lemma_name_lt_strict_total, name_lt, text_views};
use vstd::prelude::*;

verus! {

/// Why the tree refused an operation.
#[derive(Clone, Copy, Debug, PartialEq, Eq, Structural)]
pub enum TreeError {
    /// The node does not exist, or no longer.
    UnknownNode,
    /// The node has never been expanded, so it has no children to speak of.
    NotExpanded,
}

/// What stands behind an expanded node.
#[derive(Debug)]
struct Branch {
    watch: DirectoryWatch,
    children: Vec<usize>,
}

/// One directory in the tree.
#[derive(Debug)]
pub struct TreeNode {
    entry: DirectoryEntry,
    parent: Option<usize>,
    depth: usize,
    expanded: bool,
    unreadable: bool,
    alive: bool,
    branch: Option<Branch>,
}

/// The mathematical value of a [`TreeNode`].
pub ghost struct TreeNodeView {
    /// The directory that the node stands for.
    pub entry: DirectoryEntryView,
    /// The node above, none for the root.
    pub parent: Option<usize>,
    /// The number of nodes above.
    pub depth: nat,
    /// Whether the node is shown open.
    pub expanded: bool,
    /// Whether the directory could not be read at the last refresh.
    pub unreadable: bool,
    /// Whether the node is part of the tree; false for a tombstone.
    pub alive: bool,
    /// The watch of the directory, once the node has been expanded.
    pub watch: Option<DirectoryWatchView>,
    /// The nodes below in display order, once the node has been expanded.
    pub children: Option<Seq<usize>>,
}

impl View for TreeNode {
    type V = TreeNodeView;

    closed spec fn view(&self) -> TreeNodeView {
        TreeNodeView {
            entry: self.entry@,
            parent: self.parent,
            depth: self.depth as nat,
            expanded: self.expanded,
            unreadable: self.unreadable,
            alive: self.alive,
            watch: match self.branch {
                Some(b) => Some(b.watch@),
                None => None,
            },
            children: match self.branch {
                Some(b) => Some(b.children@),
                None => None,
            },
        }
    }
}

impl TreeNode {
    /// The directory's name.
    pub fn name(&self) -> (r: &String)
        ensures
            r@ == self@.entry.name,
    {
        &self.entry.name
    }

    /// The directory's absolute path.
    pub fn path(&self) -> (r: &String)
        ensures
            r@ == self@.entry.path,
    {
        &self.entry.path
    }

    /// The node above, none for the root.
    pub fn parent(&self) -> (r: Option<usize>)
        ensures
            r == self@.parent,
    {
        self.parent
    }

    /// The number of nodes above.
    pub fn depth(&self) -> (r: usize)
        ensures
            r == self@.depth,
    {
        self.depth
    }

    /// Whether the node is shown open.
    pub fn is_expanded(&self) -> (r: bool)
        ensures
            r == self@.expanded,
    {
        self.expanded
    }

    /// Whether the directory could not be read at the last refresh.
    pub fn is_unreadable(&self) -> (r: bool)
        ensures
            r == self@.unreadable,
    {
        self.unreadable
    }

    /// Whether the node has ever been expanded.
    pub fn is_materialized(&self) -> (r: bool)
        ensures
            r == self@.children.is_some(),
    {
        self.branch.is_some()
    }
}

/// The node for a directory that was just found below `parent`.
pub open spec fn fresh_node(entry: DirectoryEntryView, parent: usize, depth: nat) -> TreeNodeView {
    TreeNodeView {
        entry,
        parent: Some(parent),
        depth,
        expanded: false,
        unreadable: false,
        alive: true,
        watch: None,
        children: None,
    }
}

/// What is left of a node that was removed: its watch and its children are
/// gone.
pub open spec fn tombstone(node: TreeNodeView) -> TreeNodeView {
    TreeNodeView { alive: false, watch: None, children: None, ..node }
}

/// Whether `entries` holds a directory of the given name.
pub open spec fn has_directory(entries: Seq<DirectoryEntryView>, name: Seq<char>) -> bool {
    exists|m: int|
        0 <= m < entries.len() && (#[trigger] entries[m]).name == name && entries[m].kind
            == EntryKind::Directory
}

/// The mathematical value of a [`DirectoryTreeIndex`]: its arena.
pub ghost struct DirectoryTreeView {
    pub nodes: Seq<TreeNodeView>,
}

impl DirectoryTreeView {
    /// Whether `id` names a node of the tree.
    pub open spec fn contains(self, id: usize) -> bool {
        id < self.nodes.len() && self.nodes[id as int].alive
    }

    /// Whether `id` names a node that has been expanded at some time.
    pub open spec fn materialized(self, id: usize) -> bool {
        self.contains(id) && self.nodes[id as int].children.is_some()
    }

    /// The names of the nodes in `children`.
    pub open spec fn names_of(self, children: Seq<usize>) -> Seq<Seq<char>> {
        children.map_values(|c: usize| self.nodes[c as int].entry.name)
    }

    /// `child` hangs below `parent`.
    pub open spec fn linked(self, parent: usize, child: usize) -> bool {
        &&& parent < child
        &&& self.contains(parent)
        &&& self.nodes[parent as int].children.is_some()
        &&& self.nodes[parent as int].children.unwrap().contains(child)
        &&& self.nodes[child as int].depth == self.nodes[parent as int].depth + 1
    }

    /// The children listed for `parent` are nodes of the tree that name it as
    /// their parent, and they stand in strictly ascending order of name.
    pub open spec fn children_wf(self, parent: usize, children: Seq<usize>) -> bool {
        &&& forall|k: int|
            0 <= k < children.len() ==> parent < (#[trigger] children[k]) && self.contains(
                children[k],
            ) && self.nodes[children[k] as int].parent == Some(parent)
        &&& forall|k: int, l: int|
            0 <= k < l < children.len() ==> name_lt(
                self.nodes[(#[trigger] children[k]) as int].entry.name,
                self.nodes[(#[trigger] children[l]) as int].entry.name,
            )
    }

    /// What holds of a node of the tree.
    pub open spec fn node_wf(self, id: usize) -> bool {
        let n = self.nodes[id as int];
        &&& n.entry.kind == EntryKind::Directory
        &&& n.depth <= id
        &&& n.watch.is_some() == n.children.is_some()
        &&& n.watch.is_some() ==> n.watch.unwrap().wf() && n.watch.unwrap().path == n.entry.path
        &&& n.expanded || n.unreadable ==> n.children.is_some()
        &&& id == 0 ==> n.parent.is_none()
        &&& id > 0 ==> n.parent.is_some() && self.linked(n.parent.unwrap(), id)
        &&& n.children.is_some() ==> self.children_wf(id, n.children.unwrap())
    }

    /// The invariant of the tree: node 0 is the root, and every node but the
    /// root hangs below a node that was made before it.
    pub open spec fn wf(self) -> bool {
        &&& self.nodes.len() >= 1
        &&& self.nodes[0].alive
        &&& forall|id: usize| self.contains(id) ==> #[trigger] self.node_wf(id)
    }

    /// Whether `id` is one of `removed` or lies below one of them.
    pub open spec fn doomed(self, removed: Set<usize>, id: usize) -> bool
        decreases id,
    {
        if id >= self.nodes.len() {
            false
        } else if removed.contains(id) {
            true
        } else {
            match self.nodes[id as int].parent {
                Some(p) => p < id && self.doomed(removed, p),
                None => false,
            }
        }
    }

    /// The paths of the nodes before `upto` that hold a watch and are doomed,
    /// in ascending order of index.
    pub open spec fn closed_watches(self, removed: Set<usize>, upto: usize) -> Seq<Seq<char>>
        decreases upto,
    {
        if upto == 0 {
            Seq::empty()
        } else {
            let i = (upto - 1) as usize;
            let before = self.closed_watches(removed, i);
            if self.materialized(i) && self.doomed(removed, i) {
                before.push(self.nodes[i as int].entry.path)
            } else {
                before
            }
        }
    }

    /// What refreshing `id` makes of one of its children `c`: an earlier
    /// child that is kept because the watch still holds a directory of its
    /// name, or a node made for a directory that had none.
    pub open spec fn child_refreshed(self, id: usize, after: DirectoryTreeView, c: usize) -> bool {
        let before = self.nodes[id as int];
        let entries = before.watch.unwrap().entries;
        if c < self.nodes.len() {
            before.children.unwrap().contains(c) && has_directory(
                entries,
                self.nodes[c as int].entry.name,
            )
        } else {
            &&& c < after.nodes.len()
            &&& after.nodes[c as int] == fresh_node(
                after.nodes[c as int].entry,
                id,
                before.depth + 1,
            )
            &&& after.nodes[c as int].entry.kind == EntryKind::Directory
            &&& entries.contains(after.nodes[c as int].entry)
            &&& !self.names_of(before.children.unwrap()).contains(after.nodes[c as int].entry.name)
        }
    }

    /// What a refresh of `id` makes of the tree. The children of `id` become
    /// the directories that its watch holds, in ascending order of name: a
    /// child whose directory is still there is kept with all below it, a new
    /// directory gets a new node at the end of the arena, and a child whose
    /// directory is gone becomes a tombstone together with everything below
    /// it. Nothing else changes.
    pub open spec fn refreshed(self, id: usize, after: DirectoryTreeView) -> bool {
        let before = self.nodes[id as int];
        let watch = before.watch.unwrap();
        let now = after.nodes[id as int];
        let children = now.children.unwrap();
        &&& after.nodes.len() >= self.nodes.len()
        &&& now.children.is_some()
        &&& now == (TreeNodeView {
            children: now.children,
            unreadable: watch.state == WatchState::Failed,
            ..before
        })
        &&& forall|k: int|
            0 <= k < children.len() ==> self.child_refreshed(id, after, #[trigger] children[k])
        &&& forall|k: int, l: int|
            0 <= k < l < children.len() ==> name_lt(
                after.nodes[(#[trigger] children[k]) as int].entry.name,
                after.nodes[(#[trigger] children[l]) as int].entry.name,
            ) && (children[k] >= self.nodes.len() && children[l] >= self.nodes.len() ==> children[k]
                < children[l])
        &&& forall|m: int|
            0 <= m < watch.entries.len() && (#[trigger] watch.entries[m]).kind
                == EntryKind::Directory ==> after.names_of(children).contains(
                watch.entries[m].name,
            )
        &&& forall|i: usize|
            self.nodes.len() <= i < after.nodes.len() ==> #[trigger] children.contains(i)
        &&& forall|i: usize|
            i < self.nodes.len() && i != id ==> #[trigger] after.nodes[i as int] == if self.contains(
                i,
            ) && self.doomed(self.vanished(id), i) {
                tombstone(self.nodes[i as int])
            } else {
                self.nodes[i as int]
            }
    }

    /// The state between the two halves of a refresh of `id`: `children`
    /// lists a node for each of the directories `dirs`, the kept ones among
    /// the earlier nodes and the new ones behind them, and the earlier nodes
    /// are all as they were.
    spec fn grafted(
        self,
        id: usize,
        dirs: Seq<DirectoryEntryView>,
        after: DirectoryTreeView,
        children: Seq<usize>,
    ) -> bool {
        let before = self.nodes[id as int];
        let earlier = before.children.unwrap();
        &&& after.nodes.len() >= self.nodes.len()
        &&& forall|i: int| 0 <= i < self.nodes.len() ==> #[trigger] after.nodes[i] == self.nodes[i]
        &&& children.len() == dirs.len()
        &&& forall|k: int|
            0 <= k < children.len() ==> {
                let c = #[trigger] children[k];
                &&& c < after.nodes.len()
                &&& after.nodes[c as int].entry.name == dirs[k].name
                &&& c < self.nodes.len() ==> earlier.contains(c)
                &&& c >= self.nodes.len() ==> after.nodes[c as int] == fresh_node(
                    dirs[k],
                    id,
                    before.depth + 1,
                ) && !self.names_of(earlier).contains(dirs[k].name)
            }
        &&& forall|i: usize|
            self.nodes.len() <= i < after.nodes.len() ==> #[trigger] children.contains(i)
        &&& forall|k: int, l: int|
            0 <= k < l < children.len() && (#[trigger] children[k]) >= self.nodes.len() && (
            #[trigger] children[l]) >= self.nodes.len() ==> children[k] < children[l]
    }

    /// The number of children listed for `id`.
    pub open spec fn fanout(self, id: usize) -> nat {
        match self.nodes[id as int].children {
            Some(c) => c.len(),
            None => 0,
        }
    }

    /// The nodes shown below `id`, from top to bottom: each child of an
    /// expanded node, followed by what is shown below that child.
    pub open spec fn rows_below(self, id: usize) -> Seq<usize>
        decreases self.nodes.len() - id, self.fanout(id) + 1,
    {
        if self.materialized(id) && self.nodes[id as int].expanded {
            self.rows_of(id, self.nodes[id as int].children.unwrap())
        } else {
            Seq::empty()
        }
    }

    /// The rows that the nodes `children` of `parent` bring, with what is
    /// shown below each.
    pub open spec fn rows_of(self, parent: usize, children: Seq<usize>) -> Seq<usize>
        decreases self.nodes.len() - parent, children.len(),
    {
        if children.len() == 0 {
            Seq::empty()
        } else {
            let c = children.last();
            let before = self.rows_of(parent, children.drop_last());
            if parent < c < self.nodes.len() {
                before.push(c) + self.rows_below(c)
            } else {
                before
            }
        }
    }

    /// The children of `id` whose directory the node's watch no longer holds.
    pub open spec fn vanished(self, id: usize) -> Set<usize> {
        Set::new(
            |c: usize|
                self.nodes[id as int].children.unwrap().contains(c) && !has_directory(
                    self.nodes[id as int].watch.unwrap().entries,
                    self.nodes[c as int].entry.name,
                ),
        )
    }
}

/// Replacing a node by one that has the same place in the tree, and the
/// same children unless it had none listed and now has an empty list, keeps
/// the tree's invariant.
pub proof fn lemma_local_update(tree: DirectoryTreeView, id: usize, node: TreeNodeView)
    requires
        tree.wf(),
        tree.contains(id),
        node.entry == tree.nodes[id as int].entry,
        node.parent == tree.nodes[id as int].parent,
        node.depth == tree.nodes[id as int].depth,
        node.alive,
        node.children == tree.nodes[id as int].children || (tree.nodes[id as int].children.is_none()
            && node.children == Some(Seq::<usize>::empty())),
        node.watch.is_some() == node.children.is_some(),
        node.watch.is_some() ==> node.watch.unwrap().wf() && node.watch.unwrap().path
            == node.entry.path,
        node.expanded || node.unreadable ==> node.children.is_some(),
    ensures
        (DirectoryTreeView { nodes: tree.nodes.update(id as int, node) }).wf(),
{
    let after = DirectoryTreeView { nodes: tree.nodes.update(id as int, node) };
    assert forall|j: usize| after.contains(j) implies #[trigger] after.node_wf(j) by {
        assert(tree.contains(j));
        assert(tree.node_wf(j));
        let n = after.nodes[j as int];
        if j > 0 {
            let p = n.parent.unwrap();
            assert(tree.linked(p, j));
            assert(after.linked(p, j));
        }
        if n.children.is_some() {
            let c = n.children.unwrap();
            if j == id && tree.nodes[id as int].children.is_none() {
                assert(after.children_wf(j, c));
            } else {
                assert(tree.children_wf(j, c));
                assert forall|k: int| 0 <= k < c.len() implies j < (#[trigger] c[k])
                    && after.contains(c[k]) && after.nodes[c[k] as int].parent == Some(j) by {
                    assert(tree.contains(c[k]));
                }
                assert(after.children_wf(j, c));
            }
        }
    }
}

/// Nothing at or before `floor` is doomed when everything removed lies
/// after it.
pub proof fn lemma_doomed_floor(tree: DirectoryTreeView, removed: Set<usize>, floor: usize, id: usize)
    requires
        forall|r: usize| removed.contains(r) ==> floor < r,
        id <= floor,
    ensures
        !tree.doomed(removed, id),
    decreases id,
{
    if id < tree.nodes.len() {
        match tree.nodes[id as int].parent {
            Some(p) => {
                if p < id {
                    lemma_doomed_floor(tree, removed, floor, p);
                }
            },
            None => {},
        }
    }
}

/// The children that a refresh of `id` takes away lie after `id` and name
/// it as their parent, so neither `id` nor anything above it is doomed.
pub proof fn lemma_vanished(tree: DirectoryTreeView, id: usize)
    requires
        tree.wf(),
        tree.materialized(id),
    ensures
        forall|c: usize| #[trigger]
            tree.vanished(id).contains(c) ==> id < c && tree.contains(c)
                && tree.nodes[c as int].parent == Some(id),
        forall|j: usize| j <= id ==> !#[trigger] tree.doomed(tree.vanished(id), j),
{
    let gone = tree.vanished(id);
    let children = tree.nodes[id as int].children.unwrap();
    assert(tree.node_wf(id));
    assert forall|c: usize| #[trigger] gone.contains(c) implies id < c && tree.contains(c)
        && tree.nodes[c as int].parent == Some(id) by {
        let k = choose|k: int| 0 <= k < children.len() && children[k] == c;
        assert(children[k] == c);
    }
    assert forall|j: usize| j <= id implies !#[trigger] tree.doomed(gone, j) by {
        lemma_doomed_floor(tree, gone, id, j);
    }
}

/// A refresh keeps the tree's invariant.
pub proof fn lemma_refreshed_wf(tree: DirectoryTreeView, id: usize, after: DirectoryTreeView)
    requires
        tree.wf(),
        tree.materialized(id),
        tree.refreshed(id, after),
    ensures
        after.wf(),
{
    let gone = tree.vanished(id);
    let before = tree.nodes[id as int];
    let now = after.nodes[id as int];
    let oc = before.children.unwrap();
    let nc = now.children.unwrap();
    let entries = before.watch.unwrap().entries;
    let n0 = tree.nodes.len();
    lemma_vanished(tree, id);
    assert(tree.node_wf(id));
    assert(!tree.doomed(gone, 0));
    assert(after.nodes[0].alive);
    // what was kept among the earlier children is untouched
    assert forall|k: int| 0 <= k < nc.len() && (#[trigger] nc[k]) < n0 implies id < nc[k]
        && tree.contains(nc[k]) && after.nodes[nc[k] as int] == tree.nodes[nc[k] as int]
        && tree.nodes[nc[k] as int].parent == Some(id) by {
        let c = nc[k];
        assert(tree.child_refreshed(id, after, c));
        let a = choose|a: int| 0 <= a < oc.len() && oc[a] == c;
        assert(oc[a] == c);
        assert(!gone.contains(c));
        assert(!tree.doomed(gone, id));
        assert(!tree.doomed(gone, c));
    }
    assert forall|j: usize| after.contains(j) implies #[trigger] after.node_wf(j) by {
        let n = after.nodes[j as int];
        if j == id {
            if id > 0 {
                let p = before.parent.unwrap();
                assert(tree.linked(p, id));
                assert(!tree.doomed(gone, p));
                assert(after.nodes[p as int] == tree.nodes[p as int]);
                assert(after.linked(p, id));
            }
            assert forall|k: int| 0 <= k < nc.len() implies id < (#[trigger] nc[k])
                && after.contains(nc[k]) && after.nodes[nc[k] as int].parent == Some(id) by {
                assert(tree.child_refreshed(id, after, nc[k]));
            }
            assert(after.children_wf(id, nc));
            assert(after.node_wf(j));
        } else if j >= n0 {
            assert(nc.contains(j));
            let k = choose|k: int| 0 <= k < nc.len() && nc[k] == j;
            assert(tree.child_refreshed(id, after, nc[k]));
            assert(after.linked(id, j));
            assert(after.node_wf(j));
        } else {
            assert(after.nodes[j as int] == tree.nodes[j as int]);
            assert(tree.contains(j));
            assert(!tree.doomed(gone, j));
            assert(tree.node_wf(j));
            if j > 0 {
                let p = n.parent.unwrap();
                assert(tree.linked(p, j));
                assert(!gone.contains(j));
                assert(!tree.doomed(gone, p));
                if p != id {
                    assert(after.nodes[p as int] == tree.nodes[p as int]);
                    assert(after.linked(p, j));
                } else {
                    // j was a child of id and its directory is still there
                    let a = choose|a: int| 0 <= a < oc.len() && oc[a] == j;
                    assert(oc[a] == j);
                    let name = tree.nodes[j as int].entry.name;
                    assert(has_directory(entries, name));
                    let m = choose|m: int|
                        0 <= m < entries.len() && (#[trigger] entries[m]).name == name
                            && entries[m].kind == EntryKind::Directory;
                    assert(after.names_of(nc).contains(entries[m].name));
                    let k = choose|k: int|
                        0 <= k < nc.len() && after.names_of(nc)[k] == entries[m].name;
                    let c = nc[k];
                    assert(after.nodes[c as int].entry.name == name);
                    assert(tree.child_refreshed(id, after, c));
                    if c < n0 {
                        let b = choose|b: int| 0 <= b < oc.len() && oc[b] == c;
                        assert(oc[b] == c);
                        lemma_name_lt_strict_total(name, name, name);
                        if a < b {
                            assert(name_lt(
                                tree.nodes[oc[a] as int].entry.name,
                                tree.nodes[oc[b] as int].entry.name,
                            ));
                        } else if b < a {
                            assert(name_lt(
                                tree.nodes[oc[b] as int].entry.name,
                                tree.nodes[oc[a] as int].entry.name,
                            ));
                        }
                        assert(c == j);
                    } else {
                        assert(tree.names_of(oc)[a] == name);
                        assert(false);
                    }
                    assert(nc[k] == j);
                    assert(after.linked(p, j));
                }
            }
            if n.children.is_some() {
                let cs = n.children.unwrap();
                assert(tree.children_wf(j, cs));
                assert forall|k: int| 0 <= k < cs.len() implies j < (#[trigger] cs[k])
                    && after.contains(cs[k]) && after.nodes[cs[k] as int].parent == Some(j)
                    && after.nodes[cs[k] as int].entry == tree.nodes[cs[k] as int].entry by {
                    let ch = cs[k];
                    assert(tree.contains(ch));
                    if ch != id {
                        assert(!gone.contains(ch));
                        assert(!tree.doomed(gone, ch));
                        assert(after.nodes[ch as int] == tree.nodes[ch as int]);
                    }
                }
                assert(after.children_wf(j, cs));
            }
            assert(after.node_wf(j));
        }
    }
}

/// A refresh removes exactly the children whose directories are gone and
/// everything below them, and closes exactly their watches: an earlier node
/// is part of the tree afterwards if and only if it was before and is not
/// doomed, the same holds of its watch, and what was removed has no watch
/// left that could take an event.
pub proof fn lemma_refresh_removes_subtrees(
    tree: DirectoryTreeView,
    id: usize,
    after: DirectoryTreeView,
)
    requires
        tree.wf(),
        tree.materialized(id),
        tree.refreshed(id, after),
    ensures
        forall|i: usize|
            i < tree.nodes.len() ==> (#[trigger] after.contains(i) <==> tree.contains(i)
                && !tree.doomed(tree.vanished(id), i)),
        forall|i: usize|
            i < tree.nodes.len() && i != id ==> (#[trigger] after.materialized(i)
                <==> tree.materialized(i) && !tree.doomed(tree.vanished(id), i)),
        forall|i: usize|
            i < tree.nodes.len() && !after.contains(i) && i != id ==> (
            #[trigger] after.nodes[i as int]).watch.is_none() || !tree.contains(i),
        forall|i: usize|
            i < tree.nodes.len() && i != id && after.contains(i) ==> #[trigger] after.nodes[i as int]
                == tree.nodes[i as int],
{
    lemma_vanished(tree, id);
    assert(!tree.doomed(tree.vanished(id), id));
    assert forall|i: usize| i < tree.nodes.len() implies (#[trigger] after.contains(i)
        <==> tree.contains(i) && !tree.doomed(tree.vanished(id), i)) by {
        if i != id {
            assert(after.nodes[i as int] == if tree.contains(i) && tree.doomed(
                tree.vanished(id),
                i,
            ) {
                tombstone(tree.nodes[i as int])
            } else {
                tree.nodes[i as int]
            });
        }
    }
    assert forall|i: usize| i < tree.nodes.len() && i != id implies (#[trigger] after.materialized(
        i,
    ) <==> tree.materialized(i) && !tree.doomed(tree.vanished(id), i)) by {
        assert(after.nodes[i as int] == if tree.contains(i) && tree.doomed(tree.vanished(id), i) {
            tombstone(tree.nodes[i as int])
        } else {
            tree.nodes[i as int]
        });
    }
}

/// The first of `children` whose node bears `name`.
fn find_named(nodes: &Vec<TreeNode>, children: &Vec<usize>, name: &String) -> (r: Option<usize>)
    requires
        forall|k: int| 0 <= k < children.len() ==> (#[trigger] children[k]) < nodes.len(),
    ensures
        match r {
            Some(c) => children@.contains(c) && c < nodes.len() && node_views(
                nodes@,
            )[c as int].entry.name == name@,
            None => forall|k: int|
                0 <= k < children.len() ==> node_views(nodes@)[(#[trigger] children[k]) as int].entry.name
                    != name@,
        },
{
    let mut k: usize = 0;
    while k < children.len()
        invariant
            k <= children.len(),
            forall|j: int| 0 <= j < children.len() ==> (#[trigger] children[j]) < nodes.len(),
            forall|j: int|
                0 <= j < k ==> node_views(nodes@)[(#[trigger] children[j]) as int].entry.name
                    != name@,
        decreases children.len() - k,
    {
        let c = children[k];
        if nodes[c].entry.name == *name {
            return Some(c);
        }
        k += 1;
    }
    None
}

/// After the first half of a refresh, an earlier child of `id` is listed
/// again exactly if the watch still holds a directory of its name.
proof fn lemma_grafted_keeps(
    tree: DirectoryTreeView,
    id: usize,
    dirs: Seq<DirectoryEntryView>,
    after: DirectoryTreeView,
    children: Seq<usize>,
)
    requires
        tree.wf(),
        tree.materialized(id),
        is_sorted_directories(dirs, tree.nodes[id as int].watch.unwrap().entries),
        tree.grafted(id, dirs, after, children),
    ensures
        forall|c: usize|
            tree.nodes[id as int].children.unwrap().contains(c) ==> (#[trigger] children.contains(c)
                <==> !tree.vanished(id).contains(c)),
{
    let earlier = tree.nodes[id as int].children.unwrap();
    let entries = tree.nodes[id as int].watch.unwrap().entries;
    let gone = tree.vanished(id);
    assert(tree.node_wf(id));
    assert forall|c: usize| earlier.contains(c) implies (#[trigger] children.contains(c)
        <==> !gone.contains(c)) by {
        let a = choose|a: int| 0 <= a < earlier.len() && earlier[a] == c;
        assert(earlier[a] == c);
        assert(tree.contains(c));
        let name = tree.nodes[c as int].entry.name;
        if children.contains(c) {
            let k = choose|k: int| 0 <= k < children.len() && children[k] == c;
            assert(children[k] == c);
            assert(after.nodes[c as int] == tree.nodes[c as int]);
            assert(dirs[k].name == name);
            assert(entries.contains(dirs[k]));
            let m = choose|m: int| 0 <= m < entries.len() && entries[m] == dirs[k];
            assert(entries[m].name == name && entries[m].kind == EntryKind::Directory);
            assert(has_directory(entries, name));
        }
        if has_directory(entries, name) {
            let m = choose|m: int|
                0 <= m < entries.len() && (#[trigger] entries[m]).name == name && entries[m].kind
                    == EntryKind::Directory;
            assert(dirs.contains(entries[m]));
            let k = choose|k: int| 0 <= k < dirs.len() && dirs[k] == entries[m];
            let d = children[k];
            if d < tree.nodes.len() {
                assert(after.nodes[d as int] == tree.nodes[d as int]);
                let b = choose|b: int| 0 <= b < earlier.len() && earlier[b] == d;
                assert(earlier[b] == d);
                lemma_name_lt_strict_total(name, name, name);
                if a < b {
                    assert(name_lt(
                        tree.nodes[earlier[a] as int].entry.name,
                        tree.nodes[earlier[b] as int].entry.name,
                    ));
                } else if b < a {
                    assert(name_lt(
                        tree.nodes[earlier[b] as int].entry.name,
                        tree.nodes[earlier[a] as int].entry.name,
                    ));
                }
                assert(d == c);
            } else {
                assert(tree.names_of(earlier)[a] == name);
                assert(false);
            }
            assert(children.contains(c));
        }
    }
}

/// The two halves of a refresh together make the refreshed tree.
proof fn lemma_grafted_refreshed(
    tree: DirectoryTreeView,
    id: usize,
    dirs: Seq<DirectoryEntryView>,
    grafted: DirectoryTreeView,
    children: Seq<usize>,
    after: DirectoryTreeView,
)
    requires
        tree.wf(),
        tree.materialized(id),
        is_sorted_directories(dirs, tree.nodes[id as int].watch.unwrap().entries),
        tree.grafted(id, dirs, grafted, children),
        after.nodes.len() == grafted.nodes.len(),
        forall|i: int|
            tree.nodes.len() <= i < after.nodes.len() ==> #[trigger] after.nodes[i]
                == grafted.nodes[i],
        after.nodes[id as int] == (TreeNodeView {
            children: Some(children),
            unreadable: tree.nodes[id as int].watch.unwrap().state == WatchState::Failed,
            ..tree.nodes[id as int]
        }),
        forall|i: usize|
            i < tree.nodes.len() && i != id ==> #[trigger] after.nodes[i as int] == if tree.contains(
                i,
            ) && tree.doomed(tree.vanished(id), i) {
                tombstone(tree.nodes[i as int])
            } else {
                tree.nodes[i as int]
            },
    ensures
        tree.refreshed(id, after),
{
    let entries = tree.nodes[id as int].watch.unwrap().entries;
    let earlier = tree.nodes[id as int].children.unwrap();
    let n0 = tree.nodes.len();
    assert(tree.node_wf(id));
    assert forall|k: int| 0 <= k < children.len() implies after.nodes[(
    #[trigger] children[k]) as int].entry.name == dirs[k].name by {
        let c = children[k];
        if c < n0 {
            assert(grafted.nodes[c as int] == tree.nodes[c as int]);
            let a = choose|a: int| 0 <= a < earlier.len() && earlier[a] == c;
            assert(earlier[a] == c);
            assert(c != id);
        }
    }
    assert forall|k: int| 0 <= k < children.len() implies tree.child_refreshed(
        id,
        after,
        #[trigger] children[k],
    ) by {
        let c = children[k];
        assert(entries.contains(dirs[k]));
        if c < n0 {
            assert(grafted.nodes[c as int] == tree.nodes[c as int]);
            let m = choose|m: int| 0 <= m < entries.len() && entries[m] == dirs[k];
            assert(entries[m].name == dirs[k].name && entries[m].kind == EntryKind::Directory);
        }
    }
    assert forall|m: int|
        0 <= m < entries.len() && (#[trigger] entries[m]).kind
            == EntryKind::Directory implies after.names_of(children).contains(entries[m].name) by {
        assert(dirs.contains(entries[m]));
        let k = choose|k: int| 0 <= k < dirs.len() && dirs[k] == entries[m];
        assert(after.names_of(children)[k] == entries[m].name);
    }
}

/// The tree of directories.
#[derive(Debug)]
pub struct DirectoryTreeIndex {
    nodes: Vec<TreeNode>,
}

/// The values of the nodes of an arena.
pub closed spec fn node_views(nodes: Seq<TreeNode>) -> Seq<TreeNodeView> {
    nodes.map_values(|n: TreeNode| n@)
}

impl View for DirectoryTreeIndex {
    type V = DirectoryTreeView;

    closed spec fn view(&self) -> DirectoryTreeView {
        DirectoryTreeView { nodes: node_views(self.nodes@) }
    }
}

impl DirectoryTreeIndex {
    /// The invariant of the tree: that of its value.
    pub open spec fn wf(&self) -> bool {
        self@.wf()
    }

    /// A tree that holds only its root, the directory at `path`, not yet
    /// expanded.
    pub fn new(name: &str, path: &str) -> (r: Self)
        ensures
            r.wf(),
            r@.nodes.len() == 1,
            r@.nodes[0] == (TreeNodeView {
                entry: DirectoryEntryView {
                    name: name@,
                    kind: EntryKind::Directory,
                    mime_hint: None,
                    path: path@,
                },
                parent: None,
                depth: 0,
                expanded: false,
                unreadable: false,
                alive: true,
                watch: None,
                children: None,
            }),
    {
        let root = TreeNode {
            entry: DirectoryEntry::new(name, EntryKind::Directory, None, path),
            parent: None,
            depth: 0,
            expanded: false,
            unreadable: false,
            alive: true,
            branch: None,
        };
        let mut nodes: Vec<TreeNode> = Vec::new();
        nodes.push(root);
        let r = DirectoryTreeIndex { nodes };
        assert(r@.nodes[0] == root@);
        assert(r@.node_wf(0));
        r
    }

    /// The number of indices handed out so far, tombstones included.
    pub fn len(&self) -> (r: usize)
        ensures
            r == self@.nodes.len(),
    {
        self.nodes.len()
    }

    /// Whether `id` names a node of the tree.
    pub fn contains(&self, id: usize) -> (r: bool)
        ensures
            r == self@.contains(id),
    {
        id < self.nodes.len() && self.nodes[id].alive
    }

    /// The node `id`, if it is part of the tree.
    pub fn node(&self, id: usize) -> (r: Option<&TreeNode>)
        ensures
            r.is_some() == self@.contains(id),
            r.is_some() ==> r.unwrap()@ == self@.nodes[id as int],
    {
        if id < self.nodes.len() && self.nodes[id].alive {
            Some(&self.nodes[id])
        } else {
            None
        }
    }

    /// The children of `id` in display order. An unknown node and a node that
    /// was never expanded are refused.
    pub fn children_of(&self, id: usize) -> (r: Result<&Vec<usize>, TreeError>)
        ensures
            match r {
                Ok(children) => self@.materialized(id) && children@ == self@.nodes[id as int].children.unwrap(),
                Err(TreeError::UnknownNode) => !self@.contains(id),
                Err(TreeError::NotExpanded) => self@.contains(id) && !self@.materialized(id),
            },
    {
        if !self.contains(id) {
            return Err(TreeError::UnknownNode);
        }
        match &self.nodes[id].branch {
            Some(b) => Ok(&b.children),
            None => Err(TreeError::NotExpanded),
        }
    }

    /// Shows the node open. The first expansion gives the node an empty list
    /// of children and a watch of its directory that has reported nothing
    /// yet; the result then is `true`, and the caller starts watching the
    /// directory. Expanding a node that is open changes nothing.
    pub fn expand(&mut self, id: usize) -> (r: Result<bool, TreeError>)
        requires
            old(self).wf(),
        ensures
            final(self).wf(),
            match r {
                Ok(opened) => {
                    &&& old(self)@.contains(id)
                    &&& opened == !old(self)@.materialized(id)
                    &&& final(self)@.nodes == old(self)@.nodes.update(
                        id as int,
                        if opened {
                            TreeNodeView {
                                expanded: true,
                                watch: Some(
                                    DirectoryWatchView {
                                        path: old(self)@.nodes[id as int].entry.path,
                                        state: WatchState::Loading,
                                        entries: Seq::empty(),
                                    },
                                ),
                                children: Some(Seq::empty()),
                                ..old(self)@.nodes[id as int]
                            }
                        } else {
                            TreeNodeView { expanded: true, ..old(self)@.nodes[id as int] }
                        },
                    )
                },
                Err(e) => e == TreeError::UnknownNode && !old(self)@.contains(id) && final(self)@
                    == old(self)@,
            },
            old(self)@.contains(id) && old(self)@.nodes[id as int].expanded ==> final(self)@
                == old(self)@,
    {
        if !self.contains(id) {
            return Err(TreeError::UnknownNode);
        }
        proof {
            assert(old(self)@.node_wf(id));
        }
        let opened = self.nodes[id].branch.is_none();
        if opened {
            let watch = DirectoryWatch::open(self.nodes[id].entry.path.as_str());
            self.nodes[id].branch = Some(Branch { watch, children: Vec::new() });
        }
        self.nodes[id].expanded = true;
        proof {
            let node = self.nodes@[id as int]@;
            assert(self@.nodes =~= old(self)@.nodes.update(id as int, node));
            lemma_local_update(old(self)@, id, node);
            if old(self)@.nodes[id as int].expanded {
                assert(self@.nodes =~= old(self)@.nodes);
            }
        }
        Ok(opened)
    }

    /// Shows the node closed. What is cached below it stays.
    pub fn collapse(&mut self, id: usize) -> (r: Result<(), TreeError>)
        requires
            old(self).wf(),
        ensures
            final(self).wf(),
            match r {
                Ok(_) => old(self)@.contains(id) && final(self)@.nodes == old(self)@.nodes.update(
                    id as int,
                    TreeNodeView { expanded: false, ..old(self)@.nodes[id as int] },
                ),
                Err(e) => e == TreeError::UnknownNode && !old(self)@.contains(id) && final(self)@
                    == old(self)@,
            },
    {
        if !self.contains(id) {
            return Err(TreeError::UnknownNode);
        }
        proof {
            assert(old(self)@.node_wf(id));
        }
        if self.nodes[id].branch.is_some() {
            self.nodes[id].expanded = false;
        }
        proof {
            let node = self.nodes@[id as int]@;
            assert(self@.nodes =~= old(self)@.nodes.update(id as int, node));
            lemma_local_update(old(self)@, id, node);
        }
        Ok(())
    }

    /// Hands a change reported for the directory of `id` to the node's watch.
    /// The children stay as they are until the next refresh. A node that is
    /// gone, or was never expanded, has no watch, and the event is refused.
    pub fn notify(&mut self, id: usize, event: WatchEvent) -> (r: Result<(), TreeError>)
        requires
            old(self).wf(),
        ensures
            final(self).wf(),
            match r {
                Ok(_) => old(self)@.materialized(id) && final(self)@.nodes
                    == old(self)@.nodes.update(
                    id as int,
                    TreeNodeView {
                        watch: Some(old(self)@.nodes[id as int].watch.unwrap().apply(event@)),
                        ..old(self)@.nodes[id as int]
                    },
                ),
                Err(TreeError::UnknownNode) => !old(self)@.contains(id) && final(self)@ == old(self)@,
                Err(TreeError::NotExpanded) => old(self)@.contains(id) && !old(self)@.materialized(
                    id,
                ) && final(self)@ == old(self)@,
            },
    {
        if !self.contains(id) {
            return Err(TreeError::UnknownNode);
        }
        proof {
            assert(old(self)@.node_wf(id));
        }
        if self.nodes[id].branch.is_none() {
            return Err(TreeError::NotExpanded);
        }
        match &mut self.nodes[id].branch {
            Some(b) => {
                b.watch.notify(event);
            },
            None => {},
        }
        proof {
            let node = self.nodes@[id as int]@;
            assert(self@.nodes =~= old(self)@.nodes.update(id as int, node));
            lemma_local_update(old(self)@, id, node);
        }
        Ok(())
    }
    /// The rows of the tree as a list shows them: the nodes below the root
    /// from top to bottom, with the children of a node right after it where
    /// the node is expanded. The root itself has no row.
    pub fn visible_rows(&self) -> (rows: Vec<usize>)
        requires
            self.wf(),
        ensures
            rows@ == self@.rows_below(0),
    {
        let mut rows: Vec<usize> = Vec::new();
        self.collect_rows(0, &mut rows);
        assert(Seq::<usize>::empty() + self@.rows_below(0) =~= self@.rows_below(0));
        rows
    }

    /// Appends to `rows` what is shown below `id`.
    fn collect_rows(&self, id: usize, rows: &mut Vec<usize>)
        requires
            self.wf(),
            self@.contains(id),
        ensures
            final(rows)@ == old(rows)@ + self@.rows_below(id),
        decreases self@.nodes.len() - id,
    {
        let ghost start = rows@;
        proof {
            assert(self@.node_wf(id));
        }
        if !self.nodes[id].expanded {
            assert(start + Seq::<usize>::empty() =~= start);
            return ;
        }
        match &self.nodes[id].branch {
            Some(b) => {
                let ghost cs = b.children@;
                let mut k: usize = 0;
                proof {
                    assert(cs.take(0) =~= Seq::empty());
                    assert(start + self@.rows_of(id, cs.take(0)) =~= start);
                }
                while k < b.children.len()
                    invariant
                        k <= b.children.len(),
                        self.wf(),
                        self@.contains(id),
                        cs == b.children@,
                        self@.nodes[id as int].children == Some(cs),
                        self@.children_wf(id, cs),
                        rows@ == start + self@.rows_of(id, cs.take(k as int)),
                    decreases b.children.len() - k,
                {
                    let c = b.children[k];
                    let ghost before = rows@;
                    proof {
                        assert(cs.take(k + 1).drop_last() =~= cs.take(k as int));
                        assert(cs.take(k + 1).last() == c);
                        assert(id < cs[k as int] && self@.contains(cs[k as int]));
                    }
                    rows.push(c);
                    self.collect_rows(c, rows);
                    proof {
                        assert(rows@ =~= start + self@.rows_of(id, cs.take(k + 1)));
                    }
                    k += 1;
                }
                proof {
                    assert(cs.take(b.children.len() as int) =~= cs);
                }
            },
            None => {},
        }
    }

    /// The first half of a refresh: lists a node for each directory of
    /// `dirs`, an earlier child of `id` where one bears the name and a new
    /// node otherwise.
    fn graft(&mut self, id: usize, dirs: &Vec<DirectoryEntry>, earlier: &Vec<usize>) -> (children:
        Vec<usize>)
        requires
            old(self).wf(),
            old(self)@.materialized(id),
            earlier@ == old(self)@.nodes[id as int].children.unwrap(),
        ensures
            old(self)@.grafted(id, entry_views(dirs@), final(self)@, children@),
    {
        let ghost tree = old(self)@;
        let ghost dv = entry_views(dirs@);
        let n0 = self.nodes.len();
        proof {
            assert(tree.node_wf(id));
            assert(tree.children_wf(id, earlier@));
            assert forall|j: int| 0 <= j < earlier.len() implies (#[trigger] earlier[j]) < n0 by {
                assert(tree.contains(earlier[j]));
            }
        }
        let depth = self.nodes[id].depth + 1;
        let mut children: Vec<usize> = Vec::new();
        let mut k: usize = 0;
        while k < dirs.len()
            invariant
                k <= dirs.len(),
                dv == entry_views(dirs@),
                n0 == tree.nodes.len(),
                id < n0,
                depth == tree.nodes[id as int].depth + 1,
                earlier@ == tree.nodes[id as int].children.unwrap(),
                forall|j: int| 0 <= j < earlier.len() ==> (#[trigger] earlier[j]) < n0,
                self.nodes.len() >= n0,
                forall|i: int| 0 <= i < n0 ==> #[trigger] self@.nodes[i] == tree.nodes[i],
                children.len() == k,
                forall|j: int|
                    0 <= j < k ==> {
                        let c = #[trigger] children[j];
                        &&& c < self.nodes.len()
                        &&& self@.nodes[c as int].entry.name == dv[j].name
                        &&& c < n0 ==> earlier@.contains(c)
                        &&& c >= n0 ==> self@.nodes[c as int] == fresh_node(dv[j], id, depth as nat)
                            && !tree.names_of(earlier@).contains(dv[j].name)
                    },
                forall|i: usize| n0 <= i < self.nodes.len() ==> #[trigger] children@.contains(i),
                forall|a: int, b: int|
                    0 <= a < b < k && (#[trigger] children[a]) >= n0 && (#[trigger] children[b])
                        >= n0 ==> children[a] < children[b],
            decreases dirs.len() - k,
        {
            let ghost nodes_before = self@.nodes;
            let ghost children_before = children@;
            let found = find_named(&self.nodes, earlier, &dirs[k].name);
            match found {
                Some(c) => {
                    children.push(c);
                    proof {
                        assert(children@[k as int] == c);
                        assert(c < n0) by {
                            let j = choose|j: int| 0 <= j < earlier.len() && earlier[j] == c;
                            assert(earlier[j] == c);
                        }
                    }
                },
                None => {
                    let c = self.nodes.len();
                    let node = TreeNode {
                        entry: dirs[k].clone(),
                        parent: Some(id),
                        depth,
                        expanded: false,
                        unreadable: false,
                        alive: true,
                        branch: None,
                    };
                    self.nodes.push(node);
                    children.push(c);
                    proof {
                        assert(self@.nodes =~= nodes_before.push(node@));
                        assert(node@ == fresh_node(dv[k as int], id, depth as nat));
                        let names = tree.names_of(earlier@);
                        assert forall|j: int| 0 <= j < names.len() implies names[j] != dv[k as int].name by {
                            assert(nodes_before[earlier[j] as int] == tree.nodes[earlier[j] as int]);
                        }
                    }
                },
            }
            proof {
                assert forall|j: int| 0 <= j < k + 1 implies {
                    let c = #[trigger] children[j];
                    &&& c < self.nodes.len()
                    &&& self@.nodes[c as int].entry.name == dv[j].name
                    &&& c < n0 ==> earlier@.contains(c)
                    &&& c >= n0 ==> self@.nodes[c as int] == fresh_node(dv[j], id, depth as nat)
                        && !tree.names_of(earlier@).contains(dv[j].name)
                } by {
                    if j < k {
                        assert(children[j] == children_before[j]);
                        assert(self@.nodes[children[j] as int] == nodes_before[children[j] as int]);
                    }
                }
                assert forall|i: usize| n0 <= i < self.nodes.len() implies #[trigger] children@.contains(
                    i,
                ) by {
                    if i < nodes_before.len() {
                        assert(children_before.contains(i));
                        let j = choose|j: int| 0 <= j < children_before.len() && children_before[j] == i;
                        assert(children@[j] == i);
                    } else {
                        assert(children@[k as int] == i);
                    }
                }
                assert forall|a: int, b: int|
                    0 <= a < b < k + 1 && (#[trigger] children[a]) >= n0 && (#[trigger] children[b])
                        >= n0 implies children[a] < children[b] by {
                    assert(children[a] == children_before[a]);
                    if b < k {
                        assert(children[b] == children_before[b]);
                    }
                }
            }
            k += 1;
        }
        children
    }

    /// The second half of a refresh: turns into tombstones the earlier
    /// children of `id` that `children` no longer lists, with everything
    /// below them, and says which watches that closed.
    fn prune(&mut self, id: usize, children: &Vec<usize>, n0: usize, Ghost(tree): Ghost<
        DirectoryTreeView,
    >) -> (closed: Vec<String>)
        requires
            tree.wf(),
            tree.materialized(id),
            n0 == tree.nodes.len(),
            old(self).nodes.len() >= n0,
            forall|i: int| 0 <= i < n0 ==> #[trigger] old(self)@.nodes[i] == tree.nodes[i],
            forall|c: usize|
                tree.nodes[id as int].children.unwrap().contains(c) ==> (#[trigger] children@.contains(
                    c,
                ) <==> !tree.vanished(id).contains(c)),
        ensures
            final(self).nodes.len() == old(self).nodes.len(),
            forall|i: int|
                n0 <= i < final(self).nodes.len() ==> #[trigger] final(self)@.nodes[i] == old(self)@.nodes[i],
            final(self)@.nodes[id as int] == tree.nodes[id as int],
            forall|i: usize|
                i < n0 && i != id ==> #[trigger] final(self)@.nodes[i as int] == if tree.contains(i)
                    && tree.doomed(tree.vanished(id), i) {
                    tombstone(tree.nodes[i as int])
                } else {
                    tree.nodes[i as int]
                },
            text_views(closed@) == tree.closed_watches(tree.vanished(id), n0),
    {
        let ghost gone = tree.vanished(id);
        let ghost earlier = tree.nodes[id as int].children.unwrap();
        let mut closed: Vec<String> = Vec::new();
        let mut i: usize = 0;
        proof {
            lemma_vanished(tree, id);
            assert(text_views(closed@) =~= tree.closed_watches(gone, 0));
        }
        while i < n0
            invariant
                i <= n0,
                tree.wf(),
                tree.materialized(id),
                gone == tree.vanished(id),
                earlier == tree.nodes[id as int].children.unwrap(),
                n0 == tree.nodes.len(),
                self.nodes.len() == old(self).nodes.len(),
                self.nodes.len() >= n0,
                forall|c: usize| #[trigger]
                    gone.contains(c) ==> id < c && tree.contains(c) && tree.nodes[c as int].parent
                        == Some(id),
                forall|j: usize| j <= id ==> !#[trigger] tree.doomed(gone, j),
                forall|c: usize|
                    earlier.contains(c) ==> (#[trigger] children@.contains(c) <==> !gone.contains(c)),
                forall|j: int|
                    i <= j < self.nodes.len() ==> #[trigger] self@.nodes[j] == old(self)@.nodes[j],
                forall|j: int| 0 <= j < n0 ==> #[trigger] old(self)@.nodes[j] == tree.nodes[j],
                forall|j: usize|
                    j < i && j != id ==> #[trigger] self@.nodes[j as int] == if tree.contains(j)
                        && tree.doomed(gone, j) {
                        tombstone(tree.nodes[j as int])
                    } else {
                        tree.nodes[j as int]
                    },
                id < i ==> self@.nodes[id as int] == tree.nodes[id as int],
                text_views(closed@) == tree.closed_watches(gone, i),
            decreases n0 - i,
        {
            let ghost nodes_before = self@.nodes;
            let ghost closed_before = text_views(closed@);
            proof {
                assert(self@.nodes[i as int] == tree.nodes[i as int]);
                if tree.contains(i) {
                    assert(tree.node_wf(i));
                }
            }
            let mut doomed = false;
            if i != id && self.nodes[i].alive {
                match self.nodes[i].parent {
                    Some(p) => {
                        proof {
                            assert(tree.linked(p, i));
                        }
                        if p == id {
                            doomed = !has_id(children, i);
                            proof {
                                assert(earlier.contains(i));
                                assert(!tree.doomed(gone, id));
                                assert(tree.doomed(gone, i) == gone.contains(i));
                            }
                        } else {
                            doomed = !self.nodes[p].alive;
                            proof {
                                assert(tree.contains(p));
                                assert(!gone.contains(i));
                                assert(self@.nodes[p as int].alive == !tree.doomed(gone, p));
                                assert(tree.doomed(gone, i) == tree.doomed(gone, p));
                            }
                        }
                    },
                    None => {
                        proof {
                            assert(!tree.doomed(gone, 0));
                        }
                    },
                }
            }
            proof {
                assert(doomed == (i != id && tree.contains(i) && tree.doomed(gone, i)));
            }
            if doomed {
                if self.nodes[i].branch.is_some() {
                    closed.push(self.nodes[i].entry.path.clone());
                }
                self.nodes[i].alive = false;
                self.nodes[i].branch = None;
            }
            proof {
                if doomed {
                    assert(self@.nodes =~= nodes_before.update(
                        i as int,
                        tombstone(tree.nodes[i as int]),
                    ));
                    if tree.materialized(i) {
                        assert(text_views(closed@) =~= closed_before.push(
                            tree.nodes[i as int].entry.path,
                        ));
                    }
                } else {
                    assert(self@.nodes =~= nodes_before);
                }
                assert(text_views(closed@) == tree.closed_watches(gone, (i + 1) as usize));
            }
            i += 1;
        }
        closed
    }

    /// Brings the children of `id` in line with what the node's watch holds
    /// now, and returns the paths of the directories whose watches this
    /// closed: those of the removed nodes that had been expanded. A watch that
    /// has failed leaves the node without children and marks it unreadable.
    /// A removed node is gone for good: its index is refused from then on.
    pub fn refresh(&mut self, id: usize) -> (r: Result<Vec<String>, TreeError>)
        requires
            old(self).wf(),
        ensures
            final(self).wf(),
            match r {
                Ok(closed) => {
                    &&& old(self)@.materialized(id)
                    &&& old(self)@.refreshed(id, final(self)@)
                    &&& text_views(closed@) == old(self)@.closed_watches(
                        old(self)@.vanished(id),
                        old(self)@.nodes.len() as usize,
                    )
                },
                Err(TreeError::UnknownNode) => !old(self)@.contains(id) && final(self)@ == old(self)@,
                Err(TreeError::NotExpanded) => old(self)@.contains(id) && !old(self)@.materialized(
                    id,
                ) && final(self)@ == old(self)@,
            },
    {
        if !self.contains(id) {
            return Err(TreeError::UnknownNode);
        }
        let ghost tree = self@;
        proof {
            assert(tree.node_wf(id));
        }
        let (dirs, failed, earlier) = match &self.nodes[id].branch {
            Some(b) => (
                b.watch.directories(),
                b.watch.state() == WatchState::Failed,
                b.children.clone(),
            ),
            None => {
                return Err(TreeError::NotExpanded);
            },
        };
        let ghost dv = entry_views(dirs@);
        let ghost entries = tree.nodes[id as int].watch.unwrap().entries;
        let ghost earlier_ids = tree.nodes[id as int].children.unwrap();
        assert(earlier@ =~= earlier_ids);
        let n0 = self.nodes.len();
        let children = self.graft(id, &dirs, &earlier);
        let ghost grafted = self@;
        proof {
            lemma_grafted_keeps(tree, id, dv, grafted, children@);
        }
        let closed = self.prune(id, &children, n0, Ghost(tree));
        let ghost pruned = self@;
        let ghost ids = children@;
        match &mut self.nodes[id].branch {
            Some(b) => {
                b.children = children;
            },
            None => {},
        }
        self.nodes[id].unreadable = failed;
        proof {
            let after = self@;
            let now = after.nodes[id as int];
            assert(after.nodes =~= pruned.nodes.update(id as int, now));
            assert(now.children == Some(ids));
            lemma_grafted_refreshed(tree, id, dv, grafted, ids, after);
            lemma_refreshed_wf(tree, id, after);
        }
        Ok(closed)
    }
}

} // verus!
