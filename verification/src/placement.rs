//! What placing a file in the manifest means, stated over the manifest's
//! view: a map from key paths to what stands there.
//!
//! A file is placed under its name below a chain of folders. The descent
//! creates the folders that are missing; a leaf in its way, or another
//! source file under the same key, is a collision, and a collision changes
//! nothing.

use vstd::prelude::*;

verus! {

/// What stands at one key path of the manifest.
pub struct NodeView {
    /// The node groups children: it may be descended into.
    pub folder: bool,
    /// The class marker written for the node, if it has one.
    pub class_name: Option<Seq<char>>,
    /// The source path the node refers to, if it is a leaf.
    pub source: Option<Seq<char>>,
}

/// The mathematical value of a `NamingCollision`.
pub struct CollisionView {
    pub key: Seq<Seq<char>>,
    pub existing: Seq<char>,
    pub incoming: Seq<char>,
}

/// A folder as the descent creates it.
pub open spec fn created_folder() -> NodeView {
    NodeView { folder: true, class_name: Some("Folder"@), source: None }
}

/// A leaf that refers to `file` and nothing else.
pub open spec fn plain_leaf(file: Seq<char>) -> NodeView {
    NodeView { folder: false, class_name: None, source: Some(file) }
}

/// The first `k` folders of the chain lead to a leaf that is no folder, so
/// the descent cannot go on there.
pub open spec fn blocked_at(
    m: Map<Seq<Seq<char>>, NodeView>,
    folders: Seq<Seq<char>>,
    k: int,
) -> bool {
    1 <= k <= folders.len() && m.contains_key(folders.take(k)) && !m[folders.take(k)].folder
}

/// The least depth, `from` or more, at which the descent is blocked.
pub open spec fn first_block(
    m: Map<Seq<Seq<char>>, NodeView>,
    folders: Seq<Seq<char>>,
    from: int,
) -> Option<int>
    decreases folders.len() + 1 - from,
{
    if from > folders.len() {
        None
    } else if blocked_at(m, folders, from) {
        Some(from)
    } else {
        first_block(m, folders, from + 1)
    }
}

/// The manifest with the first `depth` folders of the chain created where
/// nothing stood yet.
pub open spec fn with_folders(
    m: Map<Seq<Seq<char>>, NodeView>,
    folders: Seq<Seq<char>>,
    depth: int,
) -> Map<Seq<Seq<char>>, NodeView> {
    Map::new(
        |p: Seq<Seq<char>>|
            m.contains_key(p) || (1 <= p.len() <= depth && p.len() <= folders.len() && p
                == folders.take(p.len() as int)),
        |p: Seq<Seq<char>>|
            if m.contains_key(p) {
                m[p]
            } else {
                created_folder()
            },
    )
}

/// The manifest with `file` as the source at `key`: a new leaf, or the
/// source of the folder that stands there already.
pub open spec fn with_leaf(
    m: Map<Seq<Seq<char>>, NodeView>,
    key: Seq<Seq<char>>,
    file: Seq<char>,
) -> Map<Seq<Seq<char>>, NodeView> {
    if m.contains_key(key) {
        m.insert(
            key,
            NodeView { folder: m[key].folder, class_name: m[key].class_name, source: Some(file) },
        )
    } else {
        m.insert(key, plain_leaf(file))
    }
}

/// `key` already refers to another source file than `file`.
pub open spec fn leaf_clash(
    m: Map<Seq<Seq<char>>, NodeView>,
    key: Seq<Seq<char>>,
    file: Seq<char>,
) -> bool {
    m.contains_key(key) && m[key].source is Some && m[key].source != Some(file)
}

/// Whether `file` can be placed under `name` below the folder chain, and the
/// collision that prevents it if not: a leaf in the way of the descent, the
/// shallowest one, or another source file under the same key.
pub open spec fn place_outcome(
    m: Map<Seq<Seq<char>>, NodeView>,
    folders: Seq<Seq<char>>,
    name: Seq<char>,
    file: Seq<char>,
) -> Result<(), CollisionView> {
    match first_block(m, folders, 1) {
        Some(k) => Err(
            CollisionView {
                key: folders.take(k),
                existing: m[folders.take(k)].source.unwrap(),
                incoming: file,
            },
        ),
        None => if leaf_clash(m, folders.push(name), file) {
            Err(
                CollisionView {
                    key: folders.push(name),
                    existing: m[folders.push(name)].source.unwrap(),
                    incoming: file,
                },
            )
        } else {
            Ok(())
        },
    }
}

/// The manifest after the attempt to place `file`: with the missing folders
/// of the chain and the leaf where placing succeeds, unchanged where it
/// does not.
pub open spec fn place_state(
    m: Map<Seq<Seq<char>>, NodeView>,
    folders: Seq<Seq<char>>,
    name: Seq<char>,
    file: Seq<char>,
) -> Map<Seq<Seq<char>>, NodeView> {
    if place_outcome(m, folders, name, file) is Ok {
        with_leaf(with_folders(m, folders, folders.len() as int), folders.push(name), file)
    } else {
        m
    }
}

/// The manifest with a folder of the given class below `parent`, where
/// `parent` is a folder and nothing stands under `key` yet.
pub open spec fn with_group(
    m: Map<Seq<Seq<char>>, NodeView>,
    parent: Seq<Seq<char>>,
    key: Seq<char>,
    class_name: Option<Seq<char>>,
) -> Map<Seq<Seq<char>>, NodeView> {
    if can_add_group(m, parent, key) {
        m.insert(parent.push(key), NodeView { folder: true, class_name, source: None })
    } else {
        m
    }
}

/// `parent` is a folder of the manifest and holds nothing under `key`.
pub open spec fn can_add_group(
    m: Map<Seq<Seq<char>>, NodeView>,
    parent: Seq<Seq<char>>,
    key: Seq<char>,
) -> bool {
    m.contains_key(parent) && m[parent].folder && !m.contains_key(parent.push(key))
}

/// The shape every manifest has: the root is a folder, every other key
/// stands below a folder, and every node is a folder or refers to a source.
pub open spec fn is_tree(m: Map<Seq<Seq<char>>, NodeView>) -> bool {
    &&& m.contains_key(Seq::empty())
    &&& m[Seq::empty()].folder
    &&& forall|p: Seq<Seq<char>>| #[trigger]
        m.contains_key(p) && p.len() > 0 ==> m.contains_key(p.drop_last()) && m[p.drop_last()].folder
    &&& forall|p: Seq<Seq<char>>| #[trigger]
        m.contains_key(p) ==> (m[p].folder || m[p].source is Some) && (m[p].class_name is Some
            ==> m[p].folder)
}

/// In a tree, every prefix of a key path is a key path.
pub proof fn lemma_tree_prefix(m: Map<Seq<Seq<char>>, NodeView>, p: Seq<Seq<char>>, k: int)
    requires
        is_tree(m),
        m.contains_key(p),
        0 <= k <= p.len(),
    ensures
        m.contains_key(p.take(k)),
    decreases p.len() - k,
{
    if k == p.len() {
        assert(p.take(k) =~= p);
    } else {
        lemma_tree_prefix(m, p, k + 1);
        assert(p.take(k + 1).drop_last() =~= p.take(k));
    }
}

/// `first_block` finds the least depth at which the descent is blocked, and
/// finds none only where none exists.
pub proof fn lemma_first_block_is_least(
    m: Map<Seq<Seq<char>>, NodeView>,
    folders: Seq<Seq<char>>,
    from: int,
)
    requires
        1 <= from,
    ensures
        match first_block(m, folders, from) {
            Some(k) => from <= k && blocked_at(m, folders, k) && forall|j: int|
                from <= j < k ==> !blocked_at(m, folders, j),
            None => forall|j: int| from <= j ==> !blocked_at(m, folders, j),
        },
    decreases folders.len() + 1 - from,
{
    if from <= folders.len() && !blocked_at(m, folders, from) {
        lemma_first_block_is_least(m, folders, from + 1);
    }
}

/// Placing a file never removes an entry, never turns a folder into a leaf
/// or changes its class, and never replaces a source path by another.
pub proof fn lemma_place_keeps_entries(
    m: Map<Seq<Seq<char>>, NodeView>,
    folders: Seq<Seq<char>>,
    name: Seq<char>,
    file: Seq<char>,
    p: Seq<Seq<char>>,
)
    requires
        m.contains_key(p),
    ensures
        place_state(m, folders, name, file).contains_key(p),
        place_state(m, folders, name, file)[p].folder == m[p].folder,
        place_state(m, folders, name, file)[p].class_name == m[p].class_name,
        m[p].source is Some ==> place_state(m, folders, name, file)[p].source == m[p].source,
{
}

/// Where placing succeeds, the leaf stands under its name below the folder
/// chain and refers to the file, and every folder of the chain is a folder
/// of the manifest.
pub proof fn lemma_placed_leaf(
    m: Map<Seq<Seq<char>>, NodeView>,
    folders: Seq<Seq<char>>,
    name: Seq<char>,
    file: Seq<char>,
)
    requires
        place_outcome(m, folders, name, file) is Ok,
    ensures
        place_state(m, folders, name, file).contains_key(folders.push(name)),
        place_state(m, folders, name, file)[folders.push(name)].source == Some(file),
        forall|k: int|
            1 <= k <= folders.len() ==> place_state(m, folders, name, file).contains_key(
                #[trigger] folders.take(k),
            ) && place_state(m, folders, name, file)[folders.take(k)].folder,
{
    lemma_first_block_is_least(m, folders, 1);
    let after = place_state(m, folders, name, file);
    assert forall|k: int| 1 <= k <= folders.len() implies after.contains_key(
        #[trigger] folders.take(k),
    ) && after[folders.take(k)].folder by {
        assert(!blocked_at(m, folders, k));
        assert(folders.take(k).len() == k);
        assert(folders.take(k).take(k) =~= folders.take(k));
    }
}

/// Where every folder of the chain exists and nothing stands under the
/// name yet, placing adds the leaf and nothing else.
pub proof fn lemma_place_fresh_leaf(
    m: Map<Seq<Seq<char>>, NodeView>,
    folders: Seq<Seq<char>>,
    name: Seq<char>,
    file: Seq<char>,
)
    requires
        forall|k: int|
            1 <= k <= folders.len() ==> m.contains_key(#[trigger] folders.take(k))
                && m[folders.take(k)].folder,
        !m.contains_key(folders.push(name)),
    ensures
        place_outcome(m, folders, name, file) is Ok,
        place_state(m, folders, name, file) == m.insert(folders.push(name), plain_leaf(file)),
{
    lemma_unblocked(m, folders, 1);
    assert(with_folders(m, folders, folders.len() as int) =~= m);
}

/// A collision names a key of the manifest, the source path that holds it,
/// and the file that was to be placed.
pub proof fn lemma_collision_names_both(
    m: Map<Seq<Seq<char>>, NodeView>,
    folders: Seq<Seq<char>>,
    name: Seq<char>,
    file: Seq<char>,
)
    requires
        is_tree(m),
        place_outcome(m, folders, name, file) is Err,
    ensures
        ({
            let c = place_outcome(m, folders, name, file)->Err_0;
            &&& m.contains_key(c.key)
            &&& m[c.key].source == Some(c.existing)
            &&& c.incoming == file
            &&& c.key == folders.push(name) ==> c.existing != file
        }),
{
    lemma_first_block_is_least(m, folders, 1);
    match first_block(m, folders, 1) {
        Some(k) => {
            assert(blocked_at(m, folders, k));
            assert(folders.take(k).len() != folders.push(name).len());
        },
        None => {},
    }
}

/// Where a key path of the tree runs along the folder chain down to
/// `depth` or further, the folders down to `depth` exist already.
pub proof fn lemma_folders_exist(
    m: Map<Seq<Seq<char>>, NodeView>,
    folders: Seq<Seq<char>>,
    depth: int,
    held: Seq<Seq<char>>,
)
    requires
        is_tree(m),
        m.contains_key(held),
        0 <= depth <= folders.len(),
        depth <= held.len(),
        held.take(depth) == folders.take(depth),
    ensures
        with_folders(m, folders, depth) == m,
{
    assert forall|p: Seq<Seq<char>>| #[trigger]
        with_folders(m, folders, depth).dom().contains(p) == m.dom().contains(p) by {
        if 1 <= p.len() <= depth && p == folders.take(p.len() as int) {
            lemma_tree_prefix(m, held, p.len() as int);
            assert(held.take(p.len() as int) =~= held.take(depth).take(p.len() as int));
            assert(folders.take(p.len() as int) =~= folders.take(depth).take(p.len() as int));
        }
    }
    assert(with_folders(m, folders, depth) =~= m);
}

/// Once a file is placed, another file under the same key collides with it,
/// and the collision names both; the same file again changes nothing.
pub proof fn lemma_same_key_collides(
    m: Map<Seq<Seq<char>>, NodeView>,
    folders: Seq<Seq<char>>,
    name: Seq<char>,
    first: Seq<char>,
    second: Seq<char>,
)
    requires
        place_outcome(m, folders, name, first) is Ok,
    ensures
        ({
            let after = place_state(m, folders, name, first);
            &&& second != first ==> place_outcome(after, folders, name, second) == Err::<
                (),
                CollisionView,
            >(CollisionView { key: folders.push(name), existing: first, incoming: second })
            &&& second == first ==> place_outcome(after, folders, name, second) is Ok
                && place_state(after, folders, name, second) == after
        }),
{
    let after = place_state(m, folders, name, first);
    lemma_placed_leaf(m, folders, name, first);
    lemma_unblocked(after, folders, 1);
    if second == first {
        assert(with_folders(after, folders, folders.len() as int) =~= after);
        assert(with_leaf(after, folders.push(name), first) =~= after);
    }
}

/// Where every folder of the chain is a folder of the manifest, nothing
/// blocks the descent.
proof fn lemma_unblocked(m: Map<Seq<Seq<char>>, NodeView>, folders: Seq<Seq<char>>, from: int)
    requires
        1 <= from,
        forall|k: int|
            1 <= k <= folders.len() ==> m.contains_key(#[trigger] folders.take(k))
                && m[folders.take(k)].folder,
    ensures
        first_block(m, folders, from) is None,
    decreases folders.len() + 1 - from,
{
    if from <= folders.len() {
        lemma_unblocked(m, folders, from + 1);
    }
}

} // verus!
