//! The tree builder: folds classified files, in the order they arrive, into
//! one manifest. A folder that an init file has claimed takes no further
//! files; a file that arrived before the claim stays where it was put.

use vstd::prelude::*;
use crate::classify::{Target, VirtualPath, VirtualPathView};
use crate::manifest::{Manifest, NamingCollision};
use crate::placement::{
    lemma_place_fresh_leaf, lemma_place_keeps_entries, lemma_placed_leaf,
    lemma_same_key_collides, place_outcome, place_state, plain_leaf, with_group, CollisionView,
    NodeView,
};
use crate::text::{join_with_slash, slash_join};

verus! {

/// The mathematical value of a tree builder.
pub struct BuilderView {
    /// The manifest built so far.
    pub manifest: Map<Seq<Seq<char>>, NodeView>,
    /// The joined folder chains of the init files processed so far.
    pub claimed: Set<Seq<char>>,
}

/// The state of one pass: the manifest, and the folders claimed so far.
pub struct TreeBuilder {
    manifest: Manifest,
    claimed: Vec<String>,
}

/// The views of a sequence of classified files.
pub open spec fn views(items: Seq<VirtualPath>) -> Seq<VirtualPathView> {
    Seq::new(items.len(), |i: int| items[i]@)
}

/// The folder below which the files of a group are inserted: the server
/// root itself, or the `Shared` folder beneath the storage root.
pub open spec fn scope_of(target: Target) -> Seq<Seq<char>> {
    match target {
        Target::ServerGroup => seq!["ServerScriptService"@],
        Target::SharedGroup => seq!["ReplicatedStorage"@, "Shared"@],
    }
}

/// The folders to descend for a file, counted from the group's scope: its
/// whole folder chain, or, for an init file, the chain without its last
/// folder, which the file itself stands for.
pub open spec fn descent_of(vp: VirtualPathView) -> Seq<Seq<char>> {
    if vp.is_init && vp.folder.len() > 0 {
        vp.folder.drop_last()
    } else {
        vp.folder
    }
}

/// The folders to descend for a file, counted from the root.
pub open spec fn key_chain(vp: VirtualPathView) -> Seq<Seq<char>> {
    scope_of(vp.target) + descent_of(vp)
}

/// The key under which a folder chain is claimed.
pub open spec fn folder_key(vp: VirtualPathView) -> Seq<char> {
    slash_join(vp.folder)
}

/// The file is left out: it is no init file, and an init file has claimed
/// its folder before.
pub open spec fn is_skipped(s: BuilderView, vp: VirtualPathView) -> bool {
    !vp.is_init && s.claimed.contains(folder_key(vp))
}

/// Whether processing one file succeeds, and the collision if it does not.
pub open spec fn step_outcome(s: BuilderView, vp: VirtualPathView) -> Result<(), CollisionView> {
    if is_skipped(s, vp) {
        Ok(())
    } else {
        place_outcome(s.manifest, key_chain(vp), vp.name, vp.file)
    }
}

/// The builder after processing one file.
pub open spec fn step_state(s: BuilderView, vp: VirtualPathView) -> BuilderView {
    if is_skipped(s, vp) {
        s
    } else {
        BuilderView {
            manifest: place_state(s.manifest, key_chain(vp), vp.name, vp.file),
            claimed: if vp.is_init && place_outcome(s.manifest, key_chain(vp), vp.name, vp.file)
                is Ok {
                s.claimed.insert(folder_key(vp))
            } else {
                s.claimed
            },
        }
    }
}

/// The result of processing the files one after another: the builder after
/// the last one, or the first collision.
pub open spec fn run(s: BuilderView, items: Seq<VirtualPathView>) -> Result<
    BuilderView,
    CollisionView,
>
    decreases items.len(),
{
    if items.len() == 0 {
        Ok(s)
    } else {
        match step_outcome(s, items[0]) {
            Err(c) => Err(c),
            Ok(_) => run(step_state(s, items[0]), items.drop_first()),
        }
    }
}

/// The manifest that holds the root, marked as the data model, and nothing
/// else.
pub open spec fn root_only() -> Map<Seq<Seq<char>>, NodeView> {
    Map::<Seq<Seq<char>>, NodeView>::empty().insert(
        Seq::empty(),
        NodeView { folder: true, class_name: Some("DataModel"@), source: None },
    )
}

/// The top-level groups: the storage root with its `Shared` folder, the
/// server root, and the player scripts.
pub open spec fn scaffold_groups() -> Map<Seq<Seq<char>>, NodeView> {
    let m = root_only();
    let m = with_group(m, Seq::empty(), "ReplicatedStorage"@, None);
    let m = with_group(m, seq!["ReplicatedStorage"@], "Shared"@, Some("Folder"@));
    let m = with_group(m, Seq::empty(), "ServerScriptService"@, None);
    let m = with_group(m, Seq::empty(), "StarterPlayer"@, None);
    with_group(m, seq!["StarterPlayer"@], "StarterPlayerScripts"@, None)
}

/// The entries every manifest starts from, none of them found by the scan:
/// the groups, the package mount points and the two start scripts.
pub open spec fn scaffold() -> Map<Seq<Seq<char>>, NodeView> {
    let shared = seq!["ReplicatedStorage"@, "Shared"@];
    let storage = seq!["ReplicatedStorage"@];
    let server = seq!["ServerScriptService"@];
    let player = seq!["StarterPlayer"@, "StarterPlayerScripts"@];
    let m = scaffold_groups();
    let m = place_state(m, shared, "Classes"@, "src/Others/Shared/Classes"@);
    let m = place_state(m, shared, "Modules"@, "src/Others/Shared/Modules"@);
    let m = place_state(m, storage, "Packages"@, "Packages"@);
    let m = place_state(m, storage, "UI"@, "src/UI"@);
    let m = place_state(m, server, "Initialize"@, "src/Start/Server.server.luau"@);
    let m = place_state(m, server, "Packages"@, "ServerPackages"@);
    let m = place_state(m, server, "Classes"@, "src/Others/Server/Classes"@);
    let m = place_state(m, server, "Modules"@, "src/Others/Server/Modules"@);
    place_state(m, player, "Initialize"@, "src/Start/Client.client.luau"@)
}

/// A folder without a source path.
pub open spec fn group(class_name: Option<Seq<char>>) -> NodeView {
    NodeView { folder: true, class_name, source: None }
}

/// The scaffold, entry by entry.
pub open spec fn scaffold_entries() -> Map<Seq<Seq<char>>, NodeView> {
    let storage = "ReplicatedStorage"@;
    let server = "ServerScriptService"@;
    let starter = "StarterPlayer"@;
    let scripts = "StarterPlayerScripts"@;
    root_only().insert(seq![storage], group(None)).insert(
        seq![storage, "Shared"@],
        group(Some("Folder"@)),
    ).insert(seq![server], group(None)).insert(seq![starter], group(None)).insert(
        seq![starter, scripts],
        group(None),
    ).insert(seq![storage, "Shared"@, "Classes"@], plain_leaf("src/Others/Shared/Classes"@)).insert(
        seq![storage, "Shared"@, "Modules"@],
        plain_leaf("src/Others/Shared/Modules"@),
    ).insert(seq![storage, "Packages"@], plain_leaf("Packages"@)).insert(
        seq![storage, "UI"@],
        plain_leaf("src/UI"@),
    ).insert(seq![server, "Initialize"@], plain_leaf("src/Start/Server.server.luau"@)).insert(
        seq![server, "Packages"@],
        plain_leaf("ServerPackages"@),
    ).insert(seq![server, "Classes"@], plain_leaf("src/Others/Server/Classes"@)).insert(
        seq![server, "Modules"@],
        plain_leaf("src/Others/Server/Modules"@),
    ).insert(seq![starter, scripts, "Initialize"@], plain_leaf("src/Start/Client.client.luau"@))
}

/// The names of the scaffold differ from one another where they must.
proof fn lemma_scaffold_names()
    ensures
        "ReplicatedStorage"@ != "ServerScriptService"@,
        "ReplicatedStorage"@ != "StarterPlayer"@,
        "ServerScriptService"@ != "StarterPlayer"@,
        "Shared"@ != "Packages"@,
        "Shared"@ != "UI"@,
        "Packages"@ != "UI"@,
        "Initialize"@ != "Packages"@,
        "Initialize"@ != "Classes"@,
        "Initialize"@ != "Modules"@,
        "Packages"@ != "Classes"@,
        "Packages"@ != "Modules"@,
        "Classes"@ != "Modules"@,
{
    reveal_strlit("ReplicatedStorage");
    reveal_strlit("ServerScriptService");
    reveal_strlit("StarterPlayer");
    reveal_strlit("Shared");
    reveal_strlit("Packages");
    reveal_strlit("UI");
    reveal_strlit("Initialize");
    reveal_strlit("Classes");
    reveal_strlit("Modules");
    assert("ReplicatedStorage"@.len() == 17);
    assert("ServerScriptService"@.len() == 19);
    assert("StarterPlayer"@.len() == 13);
    assert("Shared"@.len() == 6);
    assert("Packages"@.len() == 8);
    assert("UI"@.len() == 2);
    assert("Initialize"@.len() == 10);
    assert("Classes"@.len() == 7);
    assert("Modules"@.len() == 7);
    assert("Classes"@[0] == 'C');
    assert("Modules"@[0] == 'M');
}

/// The groups of the scaffold, entry by entry.
proof fn lemma_scaffold_groups()
    ensures
        scaffold_groups() == root_only().insert(seq!["ReplicatedStorage"@], group(None)).insert(
            seq!["ReplicatedStorage"@, "Shared"@],
            group(Some("Folder"@)),
        ).insert(seq!["ServerScriptService"@], group(None)).insert(
            seq!["StarterPlayer"@],
            group(None),
        ).insert(seq!["StarterPlayer"@, "StarterPlayerScripts"@], group(None)),
{
    lemma_scaffold_names();
    let storage = "ReplicatedStorage"@;
    let server = "ServerScriptService"@;
    let starter = "StarterPlayer"@;
    let scripts = "StarterPlayerScripts"@;
    let top = Seq::<Seq<char>>::empty();
    let m0 = root_only();
    let m1 = m0.insert(seq![storage], group(None));
    let m2 = m1.insert(seq![storage, "Shared"@], group(Some("Folder"@)));
    let m3 = m2.insert(seq![server], group(None));
    let m4 = m3.insert(seq![starter], group(None));
    let m5 = m4.insert(seq![starter, scripts], group(None));
    assert(top.push(storage) =~= seq![storage]);
    assert(top.push(server) =~= seq![server]);
    assert(top.push(starter) =~= seq![starter]);
    assert(seq![storage].push("Shared"@) =~= seq![storage, "Shared"@]);
    assert(seq![starter].push(scripts) =~= seq![starter, scripts]);
    assert(seq![storage].len() == 1 && seq![server].len() == 1 && seq![starter].len() == 1);
    assert(seq![storage, "Shared"@].len() == 2 && seq![starter, scripts].len() == 2);
    assert(seq![storage][0] == storage && seq![server][0] == server && seq![starter][0]
        == starter);
    assert(seq![storage, "Shared"@][0] == storage && seq![starter, scripts][0] == starter);
    assert(with_group(m0, top, storage, None) == m1);
    assert(with_group(m1, seq![storage], "Shared"@, Some("Folder"@)) == m2);
    assert(with_group(m2, top, server, None) == m3);
    assert(with_group(m3, top, starter, None) == m4);
    assert(with_group(m4, seq![starter], scripts, None) == m5);
}

/// Placing a leaf below one folder that exists, under a name that is free.
proof fn lemma_leaf_below_one(
    m: Map<Seq<Seq<char>>, NodeView>,
    a: Seq<char>,
    name: Seq<char>,
    file: Seq<char>,
)
    requires
        m.contains_key(seq![a]),
        m[seq![a]].folder,
        !m.contains_key(seq![a, name]),
    ensures
        place_state(m, seq![a], name, file) == m.insert(seq![a, name], plain_leaf(file)),
{
    let folders = seq![a];
    assert(folders.push(name) =~= seq![a, name]);
    assert forall|k: int| 1 <= k <= folders.len() implies m.contains_key(
        #[trigger] folders.take(k),
    ) && m[folders.take(k)].folder by {
        assert(folders.take(k) =~= folders);
    }
    lemma_place_fresh_leaf(m, folders, name, file);
}

/// Placing a leaf below two folders that exist, under a name that is free.
proof fn lemma_leaf_below_two(
    m: Map<Seq<Seq<char>>, NodeView>,
    a: Seq<char>,
    b: Seq<char>,
    name: Seq<char>,
    file: Seq<char>,
)
    requires
        m.contains_key(seq![a]),
        m[seq![a]].folder,
        m.contains_key(seq![a, b]),
        m[seq![a, b]].folder,
        !m.contains_key(seq![a, b, name]),
    ensures
        place_state(m, seq![a, b], name, file) == m.insert(seq![a, b, name], plain_leaf(file)),
{
    let folders = seq![a, b];
    assert(folders.push(name) =~= seq![a, b, name]);
    assert forall|k: int| 1 <= k <= folders.len() implies m.contains_key(
        #[trigger] folders.take(k),
    ) && m[folders.take(k)].folder by {
        if k == 1 {
            assert(folders.take(k) =~= seq![a]);
        } else {
            assert(folders.take(k) =~= folders);
        }
    }
    lemma_place_fresh_leaf(m, folders, name, file);
}

/// The scaffold holds the five groups and the nine mount points and start
/// scripts, each where it is written here, and nothing else.
pub proof fn lemma_scaffold_entries()
    ensures
        scaffold() == scaffold_entries(),
{
    lemma_scaffold_names();
    lemma_scaffold_groups();
    let storage = "ReplicatedStorage"@;
    let server = "ServerScriptService"@;
    let starter = "StarterPlayer"@;
    let scripts = "StarterPlayerScripts"@;
    let shared = "Shared"@;
    let k1 = seq![storage];
    let k2 = seq![storage, shared];
    let k3 = seq![server];
    let k4 = seq![starter];
    let k5 = seq![starter, scripts];
    let k6 = seq![storage, shared, "Classes"@];
    let k7 = seq![storage, shared, "Modules"@];
    let k8 = seq![storage, "Packages"@];
    let k9 = seq![storage, "UI"@];
    let k10 = seq![server, "Initialize"@];
    let k11 = seq![server, "Packages"@];
    let k12 = seq![server, "Classes"@];
    let k13 = seq![server, "Modules"@];
    let k14 = seq![starter, scripts, "Initialize"@];
    assert(k1.len() == 1 && k3.len() == 1 && k4.len() == 1);
    assert(k2.len() == 2 && k5.len() == 2 && k8.len() == 2 && k9.len() == 2);
    assert(k10.len() == 2 && k11.len() == 2 && k12.len() == 2 && k13.len() == 2);
    assert(k6.len() == 3 && k7.len() == 3 && k14.len() == 3);
    assert(k1[0] == storage && k3[0] == server && k4[0] == starter);
    assert(k2[0] == storage && k5[0] == starter && k8[0] == storage && k9[0] == storage);
    assert(k10[0] == server && k11[0] == server && k12[0] == server && k13[0] == server);
    assert(k2[1] == shared && k8[1] == "Packages"@ && k9[1] == "UI"@);
    assert(k10[1] == "Initialize"@ && k11[1] == "Packages"@ && k12[1] == "Classes"@ && k13[1]
        == "Modules"@);
    assert(k6[0] == storage && k7[0] == storage && k14[0] == starter);
    assert(k6[2] == "Classes"@ && k7[2] == "Modules"@);
    let m5 = scaffold_groups();
    let m6 = m5.insert(k6, plain_leaf("src/Others/Shared/Classes"@));
    let m7 = m6.insert(k7, plain_leaf("src/Others/Shared/Modules"@));
    let m8 = m7.insert(k8, plain_leaf("Packages"@));
    let m9 = m8.insert(k9, plain_leaf("src/UI"@));
    let m10 = m9.insert(k10, plain_leaf("src/Start/Server.server.luau"@));
    let m11 = m10.insert(k11, plain_leaf("ServerPackages"@));
    let m12 = m11.insert(k12, plain_leaf("src/Others/Server/Classes"@));
    let m13 = m12.insert(k13, plain_leaf("src/Others/Server/Modules"@));
    let m14 = m13.insert(k14, plain_leaf("src/Start/Client.client.luau"@));
    lemma_leaf_below_two(m5, storage, shared, "Classes"@, "src/Others/Shared/Classes"@);
    lemma_leaf_below_two(m6, storage, shared, "Modules"@, "src/Others/Shared/Modules"@);
    lemma_leaf_below_one(m7, storage, "Packages"@, "Packages"@);
    lemma_leaf_below_one(m8, storage, "UI"@, "src/UI"@);
    lemma_leaf_below_one(m9, server, "Initialize"@, "src/Start/Server.server.luau"@);
    lemma_leaf_below_one(m10, server, "Packages"@, "ServerPackages"@);
    lemma_leaf_below_one(m11, server, "Classes"@, "src/Others/Server/Classes"@);
    lemma_leaf_below_one(m12, server, "Modules"@, "src/Others/Server/Modules"@);
    lemma_leaf_below_two(m13, starter, scripts, "Initialize"@, "src/Start/Client.client.luau"@);
    assert(scaffold() == m14);
}

fn path_of_one(a: &str) -> (out: Vec<String>)
    ensures
        out.deep_view() == seq![a@],
{
    let mut out: Vec<String> = Vec::new();
    out.push(String::from_str(a));
    assert(out.deep_view() =~= seq![a@]);
    out
}

fn path_of_two(a: &str, b: &str) -> (out: Vec<String>)
    ensures
        out.deep_view() == seq![a@, b@],
{
    let mut out: Vec<String> = Vec::new();
    out.push(String::from_str(a));
    out.push(String::from_str(b));
    assert(out.deep_view() =~= seq![a@, b@]);
    out
}

fn place_fixed(manifest: &mut Manifest, folders: &Vec<String>, name: &str, file: &str)
    requires
        old(manifest).wf(),
    ensures
        final(manifest).wf(),
        final(manifest)@ == place_state(old(manifest)@, folders.deep_view(), name@, file@),
{
    let _ = manifest.place(folders, &String::from_str(name), &String::from_str(file));
}

fn add_fixed_group(manifest: &mut Manifest, parent: &Vec<String>, key: &str, class_name: Option<&str>)
    requires
        old(manifest).wf(),
    ensures
        final(manifest).wf(),
        final(manifest)@ == with_group(
            old(manifest)@,
            parent.deep_view(),
            key@,
            match class_name {
                Some(c) => Some(c@),
                None => None,
            },
        ),
{
    let class = match class_name {
        Some(c) => Some(String::from_str(c)),
        None => None,
    };
    let _ = manifest.add_group(parent, &String::from_str(key), class);
}

/// The texts that the list holds, as a set.
spec fn text_set(list: Seq<String>) -> Set<Seq<char>> {
    Set::new(|k: Seq<char>| exists|i: int| 0 <= i < list.len() && list[i]@ == k)
}

proof fn lemma_text_set_push(list: Seq<String>, s: String)
    ensures
        text_set(list.push(s)) == text_set(list).insert(s@),
{
    let longer = list.push(s);
    assert forall|k: Seq<char>| #[trigger]
        text_set(longer).contains(k) == text_set(list).insert(s@).contains(k) by {
        if text_set(longer).contains(k) {
            let i = choose|i: int| 0 <= i < longer.len() && longer[i]@ == k;
            if i < list.len() {
                assert(list[i]@ == k);
            }
        }
        if text_set(list).contains(k) {
            let i = choose|i: int| 0 <= i < list.len() && list[i]@ == k;
            assert(longer[i]@ == k);
        }
        if k == s@ {
            assert(longer[list.len() as int]@ == k);
        }
    }
    assert(text_set(longer) =~= text_set(list).insert(s@));
}

impl View for TreeBuilder {
    type V = BuilderView;

    closed spec fn view(&self) -> BuilderView {
        BuilderView { manifest: self.manifest@, claimed: text_set(self.claimed@) }
    }
}

impl TreeBuilder {
    /// The builder's manifest is well formed.
    pub closed spec fn wf(&self) -> bool {
        self.manifest.wf()
    }

    /// A builder whose manifest holds the scaffold and no scanned file, and
    /// in which no folder is claimed.
    pub fn new() -> (b: TreeBuilder)
        ensures
            b.wf(),
            b@.manifest == scaffold(),
            b@.manifest == scaffold_entries(),
            b@.claimed == Set::<Seq<char>>::empty(),
    {
        proof {
            lemma_scaffold_entries();
        }
        let top: Vec<String> = Vec::new();
        assert(top.deep_view() =~= Seq::<Seq<char>>::empty());
        let storage = path_of_one("ReplicatedStorage");
        let shared = path_of_two("ReplicatedStorage", "Shared");
        let server = path_of_one("ServerScriptService");
        let starter = path_of_one("StarterPlayer");
        let player = path_of_two("StarterPlayer", "StarterPlayerScripts");
        let mut manifest = Manifest::new(Some(String::from_str("DataModel")));
        add_fixed_group(&mut manifest, &top, "ReplicatedStorage", None);
        add_fixed_group(&mut manifest, &storage, "Shared", Some("Folder"));
        add_fixed_group(&mut manifest, &top, "ServerScriptService", None);
        add_fixed_group(&mut manifest, &top, "StarterPlayer", None);
        add_fixed_group(&mut manifest, &starter, "StarterPlayerScripts", None);
        assert(manifest@ == scaffold_groups());
        place_fixed(&mut manifest, &shared, "Classes", "src/Others/Shared/Classes");
        place_fixed(&mut manifest, &shared, "Modules", "src/Others/Shared/Modules");
        place_fixed(&mut manifest, &storage, "Packages", "Packages");
        place_fixed(&mut manifest, &storage, "UI", "src/UI");
        place_fixed(&mut manifest, &server, "Initialize", "src/Start/Server.server.luau");
        place_fixed(&mut manifest, &server, "Packages", "ServerPackages");
        place_fixed(&mut manifest, &server, "Classes", "src/Others/Server/Classes");
        place_fixed(&mut manifest, &server, "Modules", "src/Others/Server/Modules");
        place_fixed(&mut manifest, &player, "Initialize", "src/Start/Client.client.luau");
        let b = TreeBuilder { manifest, claimed: Vec::new() };
        assert(b@.claimed =~= Set::<Seq<char>>::empty());
        b
    }

    /// Whether an init file has claimed the folder chain with this key.
    pub fn is_claimed(&self, key: &String) -> (b: bool)
        ensures
            b == self@.claimed.contains(key@),
    {
        let mut i: usize = 0;
        while i < self.claimed.len()
            invariant
                i <= self.claimed.len(),
                forall|k: int| 0 <= k < i ==> self.claimed[k]@ != key@,
            decreases self.claimed.len() - i,
        {
            if self.claimed[i] == *key {
                return true;
            }
            i += 1;
        }
        false
    }

    /// The folders to descend for a file, counted from the root.
    fn chain_for(vp: &VirtualPath) -> (out: Vec<String>)
        ensures
            out.deep_view() == key_chain(vp@),
    {
        let mut out = match vp.target {
            Target::ServerGroup => path_of_one("ServerScriptService"),
            Target::SharedGroup => path_of_two("ReplicatedStorage", "Shared"),
        };
        let ghost scope = out.deep_view();
        let upto = if vp.is_init && vp.folder.len() > 0 {
            vp.folder.len() - 1
        } else {
            vp.folder.len()
        };
        assert(vp.folder.deep_view().take(upto as int) =~= descent_of(vp@));
        let mut i: usize = 0;
        while i < upto
            invariant
                i <= upto <= vp.folder.len(),
                out.deep_view() == scope + vp.folder.deep_view().take(i as int),
            decreases upto - i,
        {
            let ghost before = out.deep_view();
            out.push(vp.folder[i].clone());
            assert(out.deep_view() =~= before.push(vp.folder[i as int]@));
            assert(out.deep_view() =~= scope + vp.folder.deep_view().take(i + 1));
            i += 1;
        }
        out
    }

    /// Processes one classified file: an init file is placed at its
    /// folder's parent scope and claims the folder; another file is left
    /// out where its folder is claimed, and placed below its folder chain
    /// otherwise.
    pub fn process(&mut self, vp: &VirtualPath) -> (r: Result<(), NamingCollision>)
        requires
            old(self).wf(),
        ensures
            final(self).wf(),
            final(self)@ == step_state(old(self)@, vp@),
            r is Err ==> final(self)@ == old(self)@,
            match r {
                Ok(_) => step_outcome(old(self)@, vp@) is Ok,
                Err(c) => step_outcome(old(self)@, vp@) == Err::<(), CollisionView>(c@),
            },
    {
        let key = join_with_slash(&vp.folder);
        if !vp.is_init && self.is_claimed(&key) {
            return Ok(());
        }
        let chain = Self::chain_for(vp);
        let ghost before = self@;
        match self.manifest.place(&chain, &vp.name, &vp.file) {
            Ok(_) => {
                if vp.is_init {
                    proof {
                        lemma_text_set_push(self.claimed@, key);
                    }
                    self.claimed.push(key);
                }
                Ok(())
            },
            Err(c) => Err(c),
        }
    }

    /// Hands the manifest over.
    pub fn into_manifest(self) -> (m: Manifest)
        requires
            self.wf(),
        ensures
            m.wf(),
            m@ == self@.manifest,
    {
        self.manifest
    }

    /// The manifest built so far.
    pub fn manifest(&self) -> (m: &Manifest)
        requires
            self.wf(),
        ensures
            m.wf(),
            m@ == self@.manifest,
    {
        &self.manifest
    }
}

/// A folder that an init file has claimed takes no further files: a file of
/// that folder that is processed later is left out, and the builder stays
/// as it is.
pub proof fn lemma_claimed_folder_is_closed(
    s: BuilderView,
    init: VirtualPathView,
    later: VirtualPathView,
)
    requires
        init.is_init,
        step_outcome(s, init) is Ok,
        !later.is_init,
        later.folder == init.folder,
    ensures
        step_outcome(step_state(s, init), later) is Ok,
        step_state(step_state(s, init), later) == step_state(s, init),
{
}

/// A claim is never given up.
pub proof fn lemma_claims_persist(s: BuilderView, vp: VirtualPathView, key: Seq<char>)
    requires
        s.claimed.contains(key),
    ensures
        step_state(s, vp).claimed.contains(key),
{
}

/// A file that is not left out and does not collide stands in the manifest
/// afterwards: under its name, below its folder chain, each folder of which
/// is a folder of the manifest.
pub proof fn lemma_unclaimed_file_is_placed(s: BuilderView, vp: VirtualPathView)
    requires
        !is_skipped(s, vp),
        step_outcome(s, vp) is Ok,
    ensures
        step_state(s, vp).manifest.contains_key(key_chain(vp).push(vp.name)),
        step_state(s, vp).manifest[key_chain(vp).push(vp.name)].source == Some(vp.file),
        forall|k: int|
            1 <= k <= key_chain(vp).len() ==> step_state(s, vp).manifest.contains_key(
                #[trigger] key_chain(vp).take(k),
            ) && step_state(s, vp).manifest[key_chain(vp).take(k)].folder,
{
    lemma_placed_leaf(s.manifest, key_chain(vp), vp.name, vp.file);
}

/// No step removes an entry or replaces the source path it refers to. So a
/// file that was placed before an init file claimed its folder stays in the
/// manifest beside the init file's leaf.
pub proof fn lemma_step_keeps_entries(s: BuilderView, vp: VirtualPathView, p: Seq<Seq<char>>)
    requires
        s.manifest.contains_key(p),
    ensures
        step_state(s, vp).manifest.contains_key(p),
        s.manifest[p].source is Some ==> step_state(s, vp).manifest[p].source
            == s.manifest[p].source,
{
    lemma_place_keeps_entries(s.manifest, key_chain(vp), vp.name, vp.file, p);
}

/// What a run leaves behind holds every entry and every claim it began
/// with.
pub proof fn lemma_run_keeps_entries(
    s: BuilderView,
    items: Seq<VirtualPathView>,
    p: Seq<Seq<char>>,
    key: Seq<char>,
)
    requires
        run(s, items) is Ok,
    ensures
        s.manifest.contains_key(p) ==> run(s, items)->Ok_0.manifest.contains_key(p),
        s.manifest.contains_key(p) && s.manifest[p].source is Some ==> run(
            s,
            items,
        )->Ok_0.manifest[p].source == s.manifest[p].source,
        s.claimed.contains(key) ==> run(s, items)->Ok_0.claimed.contains(key),
    decreases items.len(),
{
    if items.len() > 0 {
        if s.manifest.contains_key(p) {
            lemma_step_keeps_entries(s, items[0], p);
        }
        lemma_run_keeps_entries(step_state(s, items[0]), items.drop_first(), p, key);
    }
}

/// Two files that resolve to the same key but are declared by different
/// source paths collide, and the collision names the key and both paths.
pub proof fn lemma_same_key_files_collide(s: BuilderView, a: VirtualPathView, b: VirtualPathView)
    requires
        !a.is_init,
        !b.is_init,
        a.target == b.target,
        a.folder == b.folder,
        a.name == b.name,
        a.file != b.file,
        !is_skipped(s, a),
        step_outcome(s, a) is Ok,
    ensures
        step_outcome(step_state(s, a), b) == Err::<(), CollisionView>(
            CollisionView { key: key_chain(a).push(a.name), existing: a.file, incoming: b.file },
        ),
{
    lemma_same_key_collides(s.manifest, key_chain(a), a.name, a.file, b.file);
}

/// The builder at the start of a pass: the scaffold, and no folder claimed.
pub open spec fn fresh() -> BuilderView {
    BuilderView { manifest: scaffold(), claimed: Set::empty() }
}

/// The manifest of a whole pass over the files, or its first collision.
pub open spec fn built(items: Seq<VirtualPathView>) -> Result<
    Map<Seq<Seq<char>>, NodeView>,
    CollisionView,
> {
    match run(fresh(), items) {
        Ok(s) => Ok(s.manifest),
        Err(c) => Err(c),
    }
}

/// Folds the classified files, in the order given, into a fresh manifest
/// that starts from the scaffold. The first collision fails the pass.
pub fn build_manifest(items: &Vec<VirtualPath>) -> (r: Result<Manifest, NamingCollision>)
    ensures
        match r {
            Ok(m) => m.wf() && built(views(items@)) == Ok::<
                Map<Seq<Seq<char>>, NodeView>,
                CollisionView,
            >(m@),
            Err(c) => built(views(items@)) == Err::<Map<Seq<Seq<char>>, NodeView>, CollisionView>(
                c@,
            ),
        },
{
    let mut builder = TreeBuilder::new();
    let ghost start = builder@;
    assert(start == fresh());
    let ghost all = views(items@);
    let mut i: usize = 0;
    assert(all.skip(0) =~= all);
    while i < items.len()
        invariant
            i <= items.len(),
            builder.wf(),
            all == views(items@),
            start == fresh(),
            run(start, all) == run(builder@, all.skip(i as int)),
        decreases items.len() - i,
    {
        let ghost rest = all.skip(i as int);
        assert(rest[0] == items[i as int]@);
        let ghost prev = builder@;
        assert(rest.drop_first() =~= all.skip(i + 1));
        match builder.process(&items[i]) {
            Ok(_) => {
                assert(run(prev, rest) == run(builder@, all.skip(i + 1)));
            },
            Err(c) => {
                assert(run(prev, rest) == Err::<BuilderView, CollisionView>(c@));
                return Err(c);
            },
        }
        i += 1;
    }
    Ok(builder.into_manifest())
}

} // verus!
