//! The manifest: a tree of named nodes, each a folder, a leaf that refers to
//! a source file, or both.
//!
//! The nodes live in an arena and know their parent by its index; the
//! contracts speak of the tree through its view, a map from key paths to
//! what stands there.

use vstd::prelude::*;
use crate::placement::{
    blocked_at, can_add_group, created_folder, first_block, is_tree, lemma_folders_exist,
    place_outcome, place_state, with_folders, with_group, with_leaf, CollisionView, NodeView,
};
use crate::text::{key_below, prefix_of};

verus! {

/// The view of an optional text.
pub open spec fn text_of(s: Option<String>) -> Option<Seq<char>> {
    match s {
        Some(t) => Some(t@),
        None => None,
    }
}

/// One node of the arena.
pub struct Node {
    name: String,
    parent: usize,
    children: Vec<usize>,
    folder: bool,
    class_name: Option<String>,
    source: Option<String>,
}

/// What a lookup reports of a node.
#[derive(Debug)]
pub struct NodeInfo {
    pub folder: bool,
    pub class_name: Option<String>,
    pub source: Option<String>,
}

impl View for NodeInfo {
    type V = NodeView;

    open spec fn view(&self) -> NodeView {
        NodeView {
            folder: self.folder,
            class_name: text_of(self.class_name),
            source: text_of(self.source),
        }
    }
}

/// Two source files that claim one key of the manifest.
#[derive(Debug)]
pub struct NamingCollision {
    /// The key path both resolve to.
    pub key: Vec<String>,
    /// The source path that holds the key.
    pub existing: String,
    /// The source path that was to be inserted.
    pub incoming: String,
}

impl View for NamingCollision {
    type V = CollisionView;

    open spec fn view(&self) -> CollisionView {
        CollisionView {
            key: self.key.deep_view(),
            existing: self.existing@,
            incoming: self.incoming@,
        }
    }
}

/// The manifest tree.
pub struct Manifest {
    nodes: Vec<Node>,
}

spec fn node_view(n: Node) -> NodeView {
    NodeView { folder: n.folder, class_name: text_of(n.class_name), source: text_of(n.source) }
}

/// The key path of node `i`: its parent's path, then its own name.
spec fn node_path(nodes: Seq<Node>, i: int) -> Seq<Seq<char>>
    decreases i,
{
    if 0 < i < nodes.len() && (nodes[i].parent as int) < i {
        node_path(nodes, nodes[i].parent as int).push(nodes[i].name@)
    } else {
        Seq::empty()
    }
}

/// Node `i` hangs below an earlier node, a folder that lists it.
spec fn linked(nodes: Seq<Node>, i: int) -> bool {
    &&& nodes[i].parent < i
    &&& nodes[nodes[i].parent as int].folder
    &&& nodes[nodes[i].parent as int].children@.contains(i as usize)
}

/// Node `i` is a folder or a leaf, and bears a class marker only as a folder.
spec fn shaped(nodes: Seq<Node>, i: int) -> bool {
    &&& nodes[i].folder || nodes[i].source is Some
    &&& nodes[i].class_name is Some ==> nodes[i].folder
}

spec fn names_differ(nodes: Seq<Node>, i: int, j: int) -> bool {
    nodes[i].name@ != nodes[j].name@
}

/// The `k`-th child that node `i` lists is a node hung below `i`.
spec fn listed(nodes: Seq<Node>, i: int, k: int) -> bool {
    &&& 0 < nodes[i].children[k] < nodes.len()
    &&& nodes[nodes[i].children[k] as int].parent == i
}

/// Node `i` does not list the same child at the places `k` and `l`.
spec fn once_each(nodes: Seq<Node>, i: int, k: int, l: int) -> bool {
    nodes[i].children[k] != nodes[i].children[l]
}

spec fn arena_wf(nodes: Seq<Node>) -> bool {
    &&& 0 < nodes.len() <= usize::MAX
    &&& nodes[0].folder
    &&& forall|i: int| 0 < i < nodes.len() ==> #[trigger] linked(nodes, i)
    &&& forall|i: int| 0 <= i < nodes.len() ==> #[trigger] shaped(nodes, i)
    &&& forall|i: int, j: int|
        0 < i < nodes.len() && 0 < j < nodes.len() && i != j && nodes[i].parent == nodes[j].parent
            ==> #[trigger] names_differ(nodes, i, j)
    &&& forall|i: int, k: int|
        0 <= i < nodes.len() && 0 <= k < nodes[i].children.len() ==> #[trigger] listed(nodes, i, k)
    &&& forall|i: int, k: int, l: int|
        0 <= i < nodes.len() && 0 <= k < l < nodes[i].children.len() ==> #[trigger] once_each(
            nodes,
            i,
            k,
            l,
        )
}

/// Node `i` stands at key path `p`.
spec fn stands_at(nodes: Seq<Node>, p: Seq<Seq<char>>, i: int) -> bool {
    0 <= i < nodes.len() && node_path(nodes, i) == p
}

#[verifier::opaque]
spec fn arena_view(nodes: Seq<Node>) -> Map<Seq<Seq<char>>, NodeView> {
    Map::new(
        |p: Seq<Seq<char>>| exists|i: int| stands_at(nodes, p, i),
        |p: Seq<Seq<char>>| node_view(nodes[choose|i: int| stands_at(nodes, p, i)]),
    )
}

/// The path of a child is the path of its parent, then the child's name.
proof fn lemma_child_path(nodes: Seq<Node>, c: int)
    requires
        arena_wf(nodes),
        0 < c < nodes.len(),
    ensures
        nodes[c].parent < c,
        node_path(nodes, c) == node_path(nodes, nodes[c].parent as int).push(nodes[c].name@),
        node_path(nodes, c).len() > 0,
        node_path(nodes, 0).len() == 0,
{
    assert(linked(nodes, c));
}

/// A node's key path is no longer than its index.
proof fn lemma_path_length(nodes: Seq<Node>, i: int)
    requires
        0 <= i < nodes.len(),
    ensures
        node_path(nodes, i).len() <= i,
    decreases i,
{
    if 0 < i && (nodes[i].parent as int) < i {
        lemma_path_length(nodes, nodes[i].parent as int);
    }
}

/// No two nodes stand at the same key path.
proof fn lemma_paths_differ(nodes: Seq<Node>, i: int, j: int)
    requires
        arena_wf(nodes),
        0 <= i < nodes.len(),
        0 <= j < nodes.len(),
        node_path(nodes, i) == node_path(nodes, j),
    ensures
        i == j,
    decreases i,
{
    if i == 0 {
        if j > 0 {
            lemma_child_path(nodes, j);
        }
    } else {
        lemma_child_path(nodes, i);
        if j > 0 {
            lemma_child_path(nodes, j);
            let pi = nodes[i].parent as int;
            let pj = nodes[j].parent as int;
            let a = node_path(nodes, pi);
            let b = node_path(nodes, pj);
            assert(a.push(nodes[i].name@).drop_last() =~= a);
            assert(b.push(nodes[j].name@).drop_last() =~= b);
            assert(a.push(nodes[i].name@).last() == nodes[i].name@);
            assert(b.push(nodes[j].name@).last() == nodes[j].name@);
            lemma_paths_differ(nodes, pi, pj);
            if i != j {
                assert(names_differ(nodes, i, j));
            }
        }
    }
}

/// The view holds, at the path of each node, what that node is.
proof fn lemma_view_at(nodes: Seq<Node>, i: int)
    requires
        arena_wf(nodes),
        0 <= i < nodes.len(),
    ensures
        arena_view(nodes).contains_key(node_path(nodes, i)),
        arena_view(nodes)[node_path(nodes, i)] == node_view(nodes[i]),
{
    reveal(arena_view);
    let p = node_path(nodes, i);
    assert(stands_at(nodes, p, i));
    let j = choose|j: int| stands_at(nodes, p, j);
    lemma_paths_differ(nodes, i, j);
}

/// Whatever the view holds is held by some node.
proof fn lemma_view_witness(nodes: Seq<Node>, p: Seq<Seq<char>>) -> (i: int)
    requires
        arena_wf(nodes),
        arena_view(nodes).contains_key(p),
    ensures
        stands_at(nodes, p, i),
        arena_view(nodes)[p] == node_view(nodes[i]),
{
    reveal(arena_view);
    let i = choose|i: int| stands_at(nodes, p, i);
    lemma_view_at(nodes, i);
    i
}

/// Paths do not change when names and parents stay as they are.
proof fn lemma_paths_kept(before: Seq<Node>, after: Seq<Node>, i: int)
    requires
        0 <= i < before.len() <= after.len(),
        forall|k: int|
            0 <= k < before.len() ==> (#[trigger] after[k]).parent == before[k].parent && after[k].name
                == before[k].name,
    ensures
        node_path(after, i) == node_path(before, i),
    decreases i,
{
    if 0 < i && (before[i].parent as int) < i {
        lemma_paths_kept(before, after, before[i].parent as int);
    }
}

/// The arena `after` is `before` with one node more, hung below `h`.
spec fn grown_by_child(before: Seq<Node>, after: Seq<Node>, h: int) -> bool {
    let c = before.len() as int;
    &&& 0 <= h < c
    &&& after.len() == c + 1 <= usize::MAX
    &&& forall|i: int| 0 <= i < c && i != h ==> #[trigger] after[i] == before[i]
    &&& after[h].name == before[h].name
    &&& after[h].parent == before[h].parent
    &&& after[h].folder == before[h].folder
    &&& after[h].class_name == before[h].class_name
    &&& after[h].source == before[h].source
    &&& after[h].children@ == before[h].children@.push(c as usize)
    &&& after[c].parent == h
    &&& after[c].children@.len() == 0
}

proof fn lemma_grown_wf(before: Seq<Node>, after: Seq<Node>, h: int)
    requires
        arena_wf(before),
        grown_by_child(before, after, h),
        before[h].folder,
        shaped(after, before.len() as int),
        forall|j: int|
            0 < j < before.len() && (#[trigger] before[j]).parent == h ==> before[j].name@
                != after[before.len() as int].name@,
    ensures
        arena_wf(after),
{
    let c = before.len() as int;
    assert forall|i: int| 0 < i < after.len() implies #[trigger] linked(after, i) by {
        if i < c {
            assert(linked(before, i));
            let pi = before[i].parent as int;
            if pi == h {
                let k = choose|k: int|
                    0 <= k < before[h].children@.len() && before[h].children@[k] == i as usize;
                assert(after[h].children@[k] == i as usize);
            }
        } else {
            assert(after[h].children@[before[h].children@.len() as int] == c as usize);
        }
    }
    assert forall|i: int| 0 <= i < after.len() implies #[trigger] shaped(after, i) by {
        if i < c {
            assert(shaped(before, i));
        }
    }
    assert forall|i: int, j: int|
        0 < i < after.len() && 0 < j < after.len() && i != j && after[i].parent
            == after[j].parent implies #[trigger] names_differ(after, i, j) by {
        if i < c && j < c {
            assert(names_differ(before, i, j));
        }
    }
    assert forall|i: int, k: int, l: int|
        0 <= i < after.len() && 0 <= k < l < after[i].children.len() implies #[trigger] once_each(
        after,
        i,
        k,
        l,
    ) by {
        if i < c {
            if i != h || l < before[h].children.len() {
                assert(once_each(before, i, k, l));
            } else {
                assert(listed(before, h, k));
            }
        }
    }
    assert forall|i: int, k: int|
        0 <= i < after.len() && 0 <= k < after[i].children.len() implies #[trigger] listed(
        after,
        i,
        k,
    ) by {
        if i < c {
            if i != h || k < before[h].children.len() {
                assert(listed(before, i, k));
                let child = before[i].children[k] as int;
                assert(after[i].children[k] == child);
                assert(after[child].parent == before[child].parent);
            } else {
                assert(after[h].children@[k] == c as usize);
            }
        }
    }
}

proof fn lemma_grown_by_child(before: Seq<Node>, after: Seq<Node>, h: int)
    requires
        arena_wf(before),
        grown_by_child(before, after, h),
        before[h].folder,
        shaped(after, before.len() as int),
        forall|j: int|
            0 < j < before.len() && (#[trigger] before[j]).parent == h ==> before[j].name@
                != after[before.len() as int].name@,
    ensures
        arena_wf(after),
        forall|i: int| 0 <= i < before.len() ==> node_path(after, i) == node_path(before, i),
        node_path(after, before.len() as int) == node_path(before, h).push(
            after[before.len() as int].name@,
        ),
        arena_view(after) == arena_view(before).insert(
            node_path(before, h).push(after[before.len() as int].name@),
            node_view(after[before.len() as int]),
        ),
{
    let c = before.len() as int;
    lemma_grown_wf(before, after, h);
    assert forall|i: int| 0 <= i < c implies node_path(after, i) == node_path(before, i) by {
        lemma_paths_kept(before, after, i);
    }
    lemma_child_path(after, c);
    let new_path = node_path(before, h).push(after[c].name@);
    let grown = arena_view(before).insert(new_path, node_view(after[c]));
    assert forall|p: Seq<Seq<char>>| #[trigger]
        arena_view(after).dom().contains(p) == grown.dom().contains(p) by {
        if arena_view(after).contains_key(p) {
            let i = lemma_view_witness(after, p);
            if i < c {
                lemma_view_at(before, i);
            }
        }
        if grown.contains_key(p) {
            if p == new_path {
                lemma_view_at(after, c);
            } else {
                let i = lemma_view_witness(before, p);
                lemma_view_at(after, i);
            }
        }
    }
    assert forall|p: Seq<Seq<char>>| arena_view(after).dom().contains(p) implies #[trigger]
        arena_view(after)[p] == grown[p] by {
        let i = lemma_view_witness(after, p);
        if i < c {
            lemma_view_at(before, i);
            if p == new_path {
                lemma_paths_differ(after, i, c);
            }
        }
    }
    assert(arena_view(after) =~= grown);
}

/// The arena `after` is `before` with a source path set on node `h`.
spec fn with_source_on(before: Seq<Node>, after: Seq<Node>, h: int) -> bool {
    &&& 0 <= h < before.len()
    &&& after.len() == before.len()
    &&& forall|i: int| 0 <= i < before.len() && i != h ==> #[trigger] after[i] == before[i]
    &&& after[h].name == before[h].name
    &&& after[h].parent == before[h].parent
    &&& after[h].folder == before[h].folder
    &&& after[h].class_name == before[h].class_name
    &&& after[h].children == before[h].children
    &&& after[h].source is Some
}

proof fn lemma_with_source_wf(before: Seq<Node>, after: Seq<Node>, h: int)
    requires
        arena_wf(before),
        with_source_on(before, after, h),
    ensures
        arena_wf(after),
{
    assert forall|i: int| 0 < i < after.len() implies #[trigger] linked(after, i) by {
        assert(linked(before, i));
    }
    assert forall|i: int| 0 <= i < after.len() implies #[trigger] shaped(after, i) by {
        assert(shaped(before, i));
    }
    assert forall|i: int, j: int|
        0 < i < after.len() && 0 < j < after.len() && i != j && after[i].parent
            == after[j].parent implies #[trigger] names_differ(after, i, j) by {
        assert(names_differ(before, i, j));
    }
    assert forall|i: int, k: int|
        0 <= i < after.len() && 0 <= k < after[i].children.len() implies #[trigger] listed(
        after,
        i,
        k,
    ) by {
        assert(listed(before, i, k));
    }
    assert forall|i: int, k: int, l: int|
        0 <= i < after.len() && 0 <= k < l < after[i].children.len() implies #[trigger] once_each(
        after,
        i,
        k,
        l,
    ) by {
        assert(once_each(before, i, k, l));
    }
}

proof fn lemma_with_source_on(before: Seq<Node>, after: Seq<Node>, h: int)
    requires
        arena_wf(before),
        with_source_on(before, after, h),
    ensures
        arena_wf(after),
        forall|i: int| 0 <= i < before.len() ==> node_path(after, i) == node_path(before, i),
        arena_view(after) == arena_view(before).insert(
            node_path(before, h),
            node_view(after[h]),
        ),
{
    lemma_with_source_wf(before, after, h);
    assert forall|i: int| 0 <= i < before.len() implies node_path(after, i) == node_path(
        before,
        i,
    ) by {
        lemma_paths_kept(before, after, i);
    }
    let at = node_path(before, h);
    let updated = arena_view(before).insert(at, node_view(after[h]));
    assert forall|p: Seq<Seq<char>>| #[trigger]
        arena_view(after).dom().contains(p) == updated.dom().contains(p) by {
        if arena_view(after).contains_key(p) {
            let i = lemma_view_witness(after, p);
            lemma_view_at(before, i);
        }
        if updated.contains_key(p) {
            if p == at {
                lemma_view_at(after, h);
            } else {
                let i = lemma_view_witness(before, p);
                lemma_view_at(after, i);
            }
        }
    }
    assert forall|p: Seq<Seq<char>>| arena_view(after).dom().contains(p) implies #[trigger]
        arena_view(after)[p] == updated[p] by {
        let i = lemma_view_witness(after, p);
        lemma_view_at(before, i);
        if p == at {
            lemma_paths_differ(before, i, h);
        }
    }
    assert(arena_view(after) =~= updated);
}

/// Where no node below `h` bears the name `key`, the view holds nothing at
/// the path of `h` followed by `key`.
proof fn lemma_absent_child(nodes: Seq<Node>, h: int, key: Seq<char>)
    requires
        arena_wf(nodes),
        0 <= h < nodes.len(),
        forall|j: int|
            0 < j < nodes.len() && (#[trigger] nodes[j]).parent == h ==> nodes[j].name@ != key,
    ensures
        !arena_view(nodes).contains_key(node_path(nodes, h).push(key)),
{
    let p = node_path(nodes, h).push(key);
    if arena_view(nodes).contains_key(p) {
        let j = lemma_view_witness(nodes, p);
        if j > 0 {
            lemma_child_path(nodes, j);
            let pj = nodes[j].parent as int;
            let a = node_path(nodes, pj);
            assert(a.push(nodes[j].name@).drop_last() =~= a);
            assert(node_path(nodes, h).push(key).drop_last() =~= node_path(nodes, h));
            assert(a.push(nodes[j].name@).last() == nodes[j].name@);
            lemma_paths_differ(nodes, pj, h);
        }
    }
}

/// The key paths of the first `k` nodes.
spec fn paths_upto(nodes: Seq<Node>, k: int) -> Set<Seq<Seq<char>>> {
    Set::new(|p: Seq<Seq<char>>| exists|i: int| 0 <= i < k && stands_at(nodes, p, i))
}

/// The first `k` nodes stand at `k` key paths.
proof fn lemma_paths_counted(nodes: Seq<Node>, k: int)
    requires
        arena_wf(nodes),
        0 <= k <= nodes.len(),
    ensures
        paths_upto(nodes, k).finite(),
        paths_upto(nodes, k).len() == k,
    decreases k,
{
    if k == 0 {
        assert(paths_upto(nodes, 0) =~= Set::<Seq<Seq<char>>>::empty());
    } else {
        lemma_paths_counted(nodes, k - 1);
        let fewer = paths_upto(nodes, k - 1);
        let p = node_path(nodes, k - 1);
        if fewer.contains(p) {
            let i = choose|i: int| 0 <= i < k - 1 && stands_at(nodes, p, i);
            lemma_paths_differ(nodes, i, k - 1);
        }
        assert forall|q: Seq<Seq<char>>| #[trigger]
            paths_upto(nodes, k).contains(q) == fewer.insert(p).contains(q) by {
            if paths_upto(nodes, k).contains(q) {
                let i = choose|i: int| 0 <= i < k && stands_at(nodes, q, i);
                if i < k - 1 {
                    assert(stands_at(nodes, q, i));
                }
            }
            if fewer.contains(q) {
                let i = choose|i: int| 0 <= i < k - 1 && stands_at(nodes, q, i);
                assert(stands_at(nodes, q, i));
            }
            if q == p {
                assert(stands_at(nodes, q, k - 1));
            }
        }
        assert(paths_upto(nodes, k) =~= fewer.insert(p));
    }
}

/// The view has as many key paths as the arena has nodes.
proof fn lemma_view_counted(nodes: Seq<Node>)
    requires
        arena_wf(nodes),
    ensures
        arena_view(nodes).dom().finite(),
        arena_view(nodes).dom().len() == nodes.len(),
{
    reveal(arena_view);
    lemma_paths_counted(nodes, nodes.len() as int);
    assert(arena_view(nodes).dom() =~= paths_upto(nodes, nodes.len() as int));
}

/// Whatever stands in the view stands below a folder of the view.
proof fn lemma_parent_in_view(nodes: Seq<Node>, p: Seq<Seq<char>>)
    requires
        arena_wf(nodes),
        arena_view(nodes).contains_key(p),
        p.len() > 0,
    ensures
        arena_view(nodes).contains_key(p.drop_last()),
        arena_view(nodes)[p.drop_last()].folder,
{
    let j = lemma_view_witness(nodes, p);
    if j > 0 {
        lemma_child_path(nodes, j);
        assert(linked(nodes, j));
        let pj = nodes[j].parent as int;
        assert(node_path(nodes, pj).push(nodes[j].name@).drop_last() =~= node_path(nodes, pj));
        lemma_view_at(nodes, pj);
    }
}

/// Every prefix of a key path of the view is a key path of the view.
proof fn lemma_prefix_in_view(nodes: Seq<Node>, p: Seq<Seq<char>>, k: int)
    requires
        arena_wf(nodes),
        arena_view(nodes).contains_key(p),
        0 <= k <= p.len(),
    ensures
        arena_view(nodes).contains_key(p.take(k)),
    decreases p.len() - k,
{
    if k == p.len() {
        assert(p.take(k) =~= p);
    } else {
        lemma_prefix_in_view(nodes, p, k + 1);
        lemma_parent_in_view(nodes, p.take(k + 1));
        assert(p.take(k + 1).drop_last() =~= p.take(k));
    }
}

impl View for Manifest {
    type V = Map<Seq<Seq<char>>, NodeView>;

    /// The manifest as a map from key paths to what stands there.
    closed spec fn view(&self) -> Map<Seq<Seq<char>>, NodeView> {
        arena_view(self.nodes@)
    }
}

impl Manifest {
    /// The arena holds a tree: every node hangs below an earlier folder that
    /// lists it, and no two children of a node share a name.
    pub closed spec fn wf(&self) -> bool {
        arena_wf(self.nodes@)
    }

    /// A manifest that holds its root folder only.
    pub fn new(class_name: Option<String>) -> (m: Manifest)
        ensures
            m.wf(),
            m@ == Map::<Seq<Seq<char>>, NodeView>::empty().insert(
                Seq::empty(),
                NodeView { folder: true, class_name: text_of(class_name), source: None },
            ),
    {
        let mut nodes: Vec<Node> = Vec::new();
        nodes.push(
            Node {
                name: String::new(),
                parent: 0,
                children: Vec::new(),
                folder: true,
                class_name,
                source: None,
            },
        );
        let m = Manifest { nodes };
        proof {
            assert(shaped(m.nodes@, 0));
            assert(arena_wf(m.nodes@));
            lemma_view_at(m.nodes@, 0);
            let only = Map::<Seq<Seq<char>>, NodeView>::empty().insert(
                Seq::empty(),
                node_view(m.nodes@[0]),
            );
            assert forall|p: Seq<Seq<char>>| #[trigger]
                m@.dom().contains(p) == only.dom().contains(p) by {
                if m@.contains_key(p) {
                    let i = lemma_view_witness(m.nodes@, p);
                }
            }
            assert(m@ =~= only);
        }
        m
    }

    /// The child of node `h` that bears the name `key`.
    fn find_child(&self, h: usize, key: &String) -> (r: Option<usize>)
        requires
            self.wf(),
            h < self.nodes.len(),
        ensures
            match r {
                Some(c) => 0 < c < self.nodes.len() && self.nodes[c as int].parent == h
                    && self.nodes[c as int].name@ == key@ && node_path(self.nodes@, c as int)
                    == node_path(self.nodes@, h as int).push(key@),
                None => !self@.contains_key(node_path(self.nodes@, h as int).push(key@)),
            },
    {
        let mut k: usize = 0;
        while k < self.nodes[h].children.len()
            invariant
                self.wf(),
                h < self.nodes.len(),
                k <= self.nodes[h as int].children.len(),
                forall|t: int|
                    0 <= t < k ==> self.nodes[self.nodes[h as int].children[t] as int].name@
                        != key@,
            decreases self.nodes[h as int].children.len() - k,
        {
            assert(listed(self.nodes@, h as int, k as int));
            let c = self.nodes[h].children[k];
            if self.nodes[c].name == *key {
                proof {
                    lemma_child_path(self.nodes@, c as int);
                }
                return Some(c);
            }
            k += 1;
        }
        proof {
            assert forall|j: int|
                0 < j < self.nodes.len() && (#[trigger] self.nodes@[j]).parent == h implies self.nodes[j].name@
                != key@ by {
                assert(linked(self.nodes@, j));
                let t = choose|t: int|
                    0 <= t < self.nodes[h as int].children@.len()
                        && self.nodes[h as int].children@[t] == j as usize;
                assert(self.nodes[self.nodes[h as int].children[t] as int].name@ != key@);
            }
            lemma_absent_child(self.nodes@, h as int, key@);
        }
        None
    }

    /// Hangs a new node below `h`.
    fn push_child(
        &mut self,
        h: usize,
        name: String,
        folder: bool,
        class_name: Option<String>,
        source: Option<String>,
    ) -> (c: usize)
        requires
            old(self).wf(),
            h < old(self).nodes.len(),
            old(self).nodes[h as int].folder,
            folder || source is Some,
            class_name is Some ==> folder,
            !old(self)@.contains_key(node_path(old(self).nodes@, h as int).push(name@)),
        ensures
            final(self).wf(),
            c == old(self).nodes.len(),
            final(self).nodes.len() == c + 1,
            forall|i: int|
                0 <= i < c ==> node_path(final(self).nodes@, i) == node_path(old(self).nodes@, i)
                    && (#[trigger] final(self).nodes[i]).folder == old(self).nodes[i].folder,
            node_path(final(self).nodes@, c as int) == node_path(old(self).nodes@, h as int).push(
                name@,
            ),
            final(self).nodes[c as int].folder == folder,
            final(self)@ == old(self)@.insert(
                node_path(old(self).nodes@, h as int).push(name@),
                NodeView { folder, class_name: text_of(class_name), source: text_of(source) },
            ),
    {
        let c = self.nodes.len();
        let ghost before = self.nodes@;
        let ghost key = name@;
        proof {
            assert forall|j: int|
                0 < j < before.len() && (#[trigger] before[j]).parent == h implies before[j].name@
                != key by {
                lemma_child_path(before, j);
                lemma_view_at(before, j);
            }
        }
        self.nodes[h].children.push(c);
        self.nodes.push(Node { name, parent: h, children: Vec::new(), folder, class_name, source });
        proof {
            assert(self.nodes.len() <= usize::MAX);
            assert(shaped(self.nodes@, c as int));
            assert(grown_by_child(before, self.nodes@, h as int));
            lemma_grown_by_child(before, self.nodes@, h as int);
        }
        c
    }

    /// What node `h` refers to, copied.
    fn source_of(&self, h: usize) -> (r: Option<String>)
        requires
            h < self.nodes.len(),
        ensures
            text_of(r) == text_of(self.nodes[h as int].source),
    {
        match &self.nodes[h].source {
            Some(s) => Some(s.clone()),
            None => None,
        }
    }

    /// The class marker of node `h`, copied.
    fn class_of(&self, h: usize) -> (r: Option<String>)
        requires
            h < self.nodes.len(),
        ensures
            text_of(r) == text_of(self.nodes[h as int].class_name),
    {
        match &self.nodes[h].class_name {
            Some(s) => Some(s.clone()),
            None => None,
        }
    }

    /// The node that stands at `path`.
    fn locate(&self, path: &Vec<String>) -> (r: Option<usize>)
        requires
            self.wf(),
        ensures
            match r {
                Some(h) => h < self.nodes.len() && node_path(self.nodes@, h as int)
                    == path.deep_view() && self@.contains_key(path.deep_view()) && self@[path.deep_view()]
                    == node_view(self.nodes[h as int]),
                None => !self@.contains_key(path.deep_view()),
            },
    {
        let ghost p = path.deep_view();
        let mut h: usize = 0;
        let mut k: usize = 0;
        assert(p.take(0) =~= Seq::<Seq<char>>::empty());
        while k < path.len()
            invariant
                self.wf(),
                k <= path.len(),
                p == path.deep_view(),
                h < self.nodes.len(),
                node_path(self.nodes@, h as int) == p.take(k as int),
            decreases path.len() - k,
        {
            assert(p.take(k as int).push(path[k as int]@) =~= p.take(k + 1));
            match self.find_child(h, &path[k]) {
                Some(c) => {
                    h = c;
                },
                None => {
                    proof {
                        if self@.contains_key(p) {
                            lemma_prefix_in_view(self.nodes@, p, k + 1);
                        }
                    }
                    return None;
                },
            }
            k += 1;
        }
        proof {
            assert(p.take(path.len() as int) =~= p);
            lemma_view_at(self.nodes@, h as int);
        }
        Some(h)
    }

    /// What stands at `path`, if anything does.
    pub fn node_at(&self, path: &Vec<String>) -> (r: Option<NodeInfo>)
        requires
            self.wf(),
        ensures
            match r {
                Some(info) => self@.contains_key(path.deep_view()) && info@ == self@[path.deep_view()],
                None => !self@.contains_key(path.deep_view()),
            },
    {
        match self.locate(path) {
            Some(h) => Some(
                NodeInfo {
                    folder: self.nodes[h].folder,
                    class_name: self.class_of(h),
                    source: self.source_of(h),
                },
            ),
            None => None,
        }
    }

    /// How many nodes the manifest holds, the root included.
    pub open spec fn size(&self) -> nat {
        self@.dom().len()
    }

    /// How many nodes the manifest holds, the root included.
    pub fn len(&self) -> (n: usize)
        requires
            self.wf(),
        ensures
            n == self.size(),
            n >= 1,
    {
        proof {
            lemma_view_counted(self.nodes@);
        }
        self.nodes.len()
    }

    /// No key path is as long as the manifest has nodes.
    pub proof fn lemma_depth_below_size(&self, p: Seq<Seq<char>>)
        requires
            self.wf(),
            self@.contains_key(p),
        ensures
            p.len() < self.size(),
    {
        let i = lemma_view_witness(self.nodes@, p);
        lemma_path_length(self.nodes@, i);
        lemma_view_counted(self.nodes@);
    }

    /// The names of the children of the node at `path`, each once. Where
    /// nothing stands at `path`, there are none.
    pub fn child_names(&self, path: &Vec<String>) -> (names: Vec<String>)
        requires
            self.wf(),
        ensures
            forall|k: Seq<char>|
                names.deep_view().contains(k) <==> #[trigger] self@.contains_key(
                    path.deep_view().push(k),
                ),
            forall|i: int, j: int|
                0 <= i < j < names.len() ==> names.deep_view()[i] != names.deep_view()[j],
    {
        let ghost p = path.deep_view();
        let mut names: Vec<String> = Vec::new();
        match self.locate(path) {
            Some(h) => {
                let mut t: usize = 0;
                while t < self.nodes[h].children.len()
                    invariant
                        self.wf(),
                        h < self.nodes.len(),
                        t <= self.nodes[h as int].children.len(),
                        names.len() == t,
                        forall|i: int|
                            0 <= i < t ==> names[i]@
                                == self.nodes[self.nodes[h as int].children[i] as int].name@,
                    decreases self.nodes[h as int].children.len() - t,
                {
                    assert(listed(self.nodes@, h as int, t as int));
                    let c = self.nodes[h].children[t];
                    names.push(self.nodes[c].name.clone());
                    t += 1;
                }
                proof {
                    let nodes = self.nodes@;
                    let kids = nodes[h as int].children@;
                    assert forall|k: Seq<char>|
                        names.deep_view().contains(k) <==> #[trigger] self@.contains_key(
                            p.push(k),
                        ) by {
                        if names.deep_view().contains(k) {
                            let i = choose|i: int|
                                0 <= i < names.deep_view().len() && names.deep_view()[i] == k;
                            assert(listed(nodes, h as int, i));
                            let c = kids[i] as int;
                            lemma_child_path(nodes, c);
                            lemma_view_at(nodes, c);
                        }
                        if self@.contains_key(p.push(k)) {
                            if forall|j: int|
                                0 < j < nodes.len() && (#[trigger] nodes[j]).parent == h
                                    ==> nodes[j].name@ != k {
                                lemma_absent_child(nodes, h as int, k);
                            }
                            let j = choose|j: int|
                                0 < j < nodes.len() && (#[trigger] nodes[j]).parent == h
                                    && nodes[j].name@ == k;
                            assert(linked(nodes, j));
                            let i = choose|i: int| 0 <= i < kids.len() && kids[i] == j as usize;
                            assert(names.deep_view()[i] == k);
                        }
                    }
                    assert forall|i: int, j: int| 0 <= i < j < names.len() implies names.deep_view()[i]
                        != names.deep_view()[j] by {
                        assert(listed(nodes, h as int, i));
                        assert(listed(nodes, h as int, j));
                        let a = kids[i] as int;
                        let b = kids[j] as int;
                        if a != b {
                            assert(names_differ(nodes, a, b));
                        } else {
                            assert(once_each(nodes, h as int, i, j));
                        }
                    }
                }
            },
            None => {
                proof {
                    assert forall|k: Seq<char>|
                        names.deep_view().contains(k) <==> #[trigger] self@.contains_key(
                            p.push(k),
                        ) by {
                        if self@.contains_key(p.push(k)) {
                            lemma_parent_in_view(self.nodes@, p.push(k));
                            assert(p.push(k).drop_last() =~= p);
                        }
                    }
                }
            },
        }
        names
    }

    /// Adds a folder with the given class marker under `key` below `parent`,
    /// where `parent` is a folder that holds nothing under `key`; elsewhere
    /// the manifest stays as it is. Says whether the folder was added.
    pub fn add_group(&mut self, parent: &Vec<String>, key: &String, class_name: Option<String>) -> (added:
        bool)
        requires
            old(self).wf(),
        ensures
            final(self).wf(),
            added == can_add_group(old(self)@, parent.deep_view(), key@),
            final(self)@ == with_group(old(self)@, parent.deep_view(), key@, text_of(class_name)),
    {
        match self.locate(parent) {
            Some(h) => {
                if !self.nodes[h].folder {
                    return false;
                }
                match self.find_child(h, key) {
                    Some(c) => {
                        proof {
                            lemma_view_at(self.nodes@, c as int);
                        }
                        false
                    },
                    None => {
                        self.push_child(h, key.clone(), true, class_name, None);
                        true
                    },
                }
            },
            None => false,
        }
    }

    /// Places the leaf `name`, referring to `file`, below the folder chain
    /// `folders`, counted from the root. Folders that are missing are
    /// created on the way down. A leaf in the way of the descent, or another
    /// source file under the same key, is a collision: the leaf is then not
    /// placed.
    pub fn place(&mut self, folders: &Vec<String>, name: &String, file: &String) -> (r: Result<
        (),
        NamingCollision,
    >)
        requires
            old(self).wf(),
        ensures
            final(self).wf(),
            final(self)@ == place_state(old(self)@, folders.deep_view(), name@, file@),
            r is Err ==> final(self)@ == old(self)@,
            match r {
                Ok(_) => place_outcome(old(self)@, folders.deep_view(), name@, file@) is Ok,
                Err(c) => place_outcome(old(self)@, folders.deep_view(), name@, file@) == Err::<
                    (),
                    CollisionView,
                >(c@),
            },
    {
        let ghost m0 = self@;
        let ghost fs = folders.deep_view();
        let mut h: usize = 0;
        let mut k: usize = 0;
        proof {
            self.lemma_is_tree();
            assert(fs.take(0) =~= Seq::<Seq<char>>::empty());
            assert(self@ =~= with_folders(m0, fs, 0));
        }
        while k < folders.len()
            invariant
                self.wf(),
                k <= folders.len(),
                m0 == old(self)@,
                is_tree(m0),
                fs == folders.deep_view(),
                h < self.nodes.len(),
                self.nodes[h as int].folder,
                node_path(self.nodes@, h as int) == fs.take(k as int),
                self@ == with_folders(m0, fs, k as int),
                first_block(m0, fs, 1) == first_block(m0, fs, k + 1),
            decreases folders.len() - k,
        {
            let ghost here = fs.take(k + 1);
            let ghost grown = self@;
            proof {
                assert(fs.take(k as int).push(folders[k as int]@) =~= here);
                assert(here.len() == k + 1);
                assert(here.take(k + 1) =~= here);
            }
            match self.find_child(h, &folders[k]) {
                Some(c) => {
                    proof {
                        lemma_view_at(self.nodes@, c as int);
                        assert(m0.contains_key(here));
                        assert(m0[here] == node_view(self.nodes@[c as int]));
                    }
                    if self.nodes[c].folder {
                        h = c;
                        proof {
                            assert(with_folders(m0, fs, k + 1) =~= grown);
                        }
                    } else {
                        assert(shaped(self.nodes@, c as int));
                        assert(blocked_at(m0, fs, k + 1));
                        assert(first_block(m0, fs, 1) == Some(k + 1));
                        proof {
                            assert(here.take(k as int) =~= fs.take(k as int));
                            lemma_folders_exist(m0, fs, k as int, here);
                        }
                        return Err(
                            NamingCollision {
                                key: prefix_of(folders, k + 1),
                                existing: self.source_of(c).unwrap(),
                                incoming: file.clone(),
                            },
                        );
                    }
                },
                None => {
                    let class_name = Some(String::from_str("Folder"));
                    h = self.push_child(h, folders[k].clone(), true, class_name, None);
                    proof {
                        assert(!m0.contains_key(here));
                        assert(with_folders(m0, fs, k + 1) =~= grown.insert(here, created_folder()));
                    }
                },
            }
            k += 1;
        }
        let ghost grown = self@;
        let ghost target = fs.push(name@);
        proof {
            assert(fs.take(folders.len() as int) =~= fs);
            assert(grown.contains_key(target) == m0.contains_key(target));
            assert(m0.contains_key(target) ==> grown[target] == m0[target]);
        }
        match self.find_child(h, name) {
            Some(c) => {
                proof {
                    lemma_view_at(self.nodes@, c as int);
                }
                match self.source_of(c) {
                    Some(s) => {
                        if s == *file {
                            proof {
                                assert(with_leaf(grown, target, file@) =~= grown);
                            }
                            Ok(())
                        } else {
                            proof {
                                assert(target.take(folders.len() as int) =~= fs);
                                lemma_folders_exist(m0, fs, folders.len() as int, target);
                            }
                            Err(
                                NamingCollision {
                                    key: key_below(folders, name),
                                    existing: s,
                                    incoming: file.clone(),
                                },
                            )
                        }
                    },
                    None => {
                        self.set_source(c, file.clone());
                        Ok(())
                    },
                }
            },
            None => {
                self.push_child(h, name.clone(), false, None, Some(file.clone()));
                Ok(())
            },
        }
    }

    /// The manifest is a finite tree of folders and leaves.
    pub proof fn lemma_is_tree(&self)
        requires
            self.wf(),
        ensures
            is_tree(self@),
            self@.dom().finite(),
    {
        let nodes = self.nodes@;
        lemma_view_at(nodes, 0);
        lemma_view_counted(nodes);
        assert forall|p: Seq<Seq<char>>| #[trigger] self@.contains_key(p) && p.len() > 0 implies self@.contains_key(
            p.drop_last(),
        ) && self@[p.drop_last()].folder by {
            lemma_parent_in_view(nodes, p);
        }
        assert forall|p: Seq<Seq<char>>| #[trigger] self@.contains_key(p) implies (self@[p].folder
            || self@[p].source is Some) && (self@[p].class_name is Some ==> self@[p].folder) by {
            let i = lemma_view_witness(nodes, p);
            assert(shaped(nodes, i));
        }
    }

    /// Makes node `h` refer to the source `file`.
    fn set_source(&mut self, h: usize, file: String)
        requires
            old(self).wf(),
            h < old(self).nodes.len(),
        ensures
            final(self).wf(),
            final(self).nodes.len() == old(self).nodes.len(),
            final(self)@ == old(self)@.insert(
                node_path(old(self).nodes@, h as int),
                NodeView {
                    folder: old(self).nodes[h as int].folder,
                    class_name: text_of(old(self).nodes[h as int].class_name),
                    source: Some(file@),
                },
            ),
    {
        let ghost before = self.nodes@;
        self.nodes[h].source = Some(file);
        proof {
            assert(with_source_on(before, self.nodes@, h as int));
            lemma_with_source_on(before, self.nodes@, h as int);
        }
    }
}

} // verus!
