use rojo_tree::builder::{build_manifest, TreeBuilder};
use rojo_tree::classify::{get_virtual_path, Target, VirtualPath};
use rojo_tree::manifest::{Manifest, NodeInfo};

fn strings(parts: &[&str]) -> Vec<String> {
    parts.iter().map(|s| s.to_string()).collect()
}

fn file(path: &str) -> VirtualPath {
    get_virtual_path(&path.split('/').map(|s| s.to_string()).collect())
}

fn at(m: &Manifest, path: &[&str]) -> Option<NodeInfo> {
    m.node_at(&strings(path))
}

fn source(m: &Manifest, path: &[&str]) -> Option<String> {
    at(m, path).and_then(|n| n.source)
}

const SHARED: [&str; 2] = ["ReplicatedStorage", "Shared"];

fn shared(rest: &[&str]) -> Vec<String> {
    SHARED.iter().chain(rest).map(|s| s.to_string()).collect()
}

fn at_shared(m: &Manifest, rest: &[&str]) -> Option<NodeInfo> {
    m.node_at(&shared(rest))
}

fn source_shared(m: &Manifest, rest: &[&str]) -> Option<String> {
    at_shared(m, rest).and_then(|n| n.source)
}

#[test]
fn a_fresh_builder_holds_the_scaffold() {
    let b = TreeBuilder::new();
    let m = b.manifest();
    assert_eq!(m.len(), 15);
    let root = at(m, &[]).unwrap();
    assert_eq!(root.class_name.as_deref(), Some("DataModel"));
    assert!(root.folder);
    for group in ["ReplicatedStorage", "ServerScriptService", "StarterPlayer"] {
        let g = at(m, &[group]).unwrap();
        assert!(g.folder);
        assert_eq!(g.class_name, None);
        assert_eq!(g.source, None);
    }
    assert_eq!(at(m, &SHARED).unwrap().class_name.as_deref(), Some("Folder"));
    assert_eq!(at(m, &["StarterPlayer", "StarterPlayerScripts"]).unwrap().class_name, None);
    assert_eq!(source_shared(m, &["Classes"]).as_deref(), Some("src/Others/Shared/Classes"));
    assert_eq!(source_shared(m, &["Modules"]).as_deref(), Some("src/Others/Shared/Modules"));
    assert_eq!(source(m, &["ReplicatedStorage", "Packages"]).as_deref(), Some("Packages"));
    assert_eq!(source(m, &["ReplicatedStorage", "UI"]).as_deref(), Some("src/UI"));
    assert_eq!(
        source(m, &["ServerScriptService", "Initialize"]).as_deref(),
        Some("src/Start/Server.server.luau")
    );
    assert_eq!(source(m, &["ServerScriptService", "Packages"]).as_deref(), Some("ServerPackages"));
    assert_eq!(
        source(m, &["ServerScriptService", "Classes"]).as_deref(),
        Some("src/Others/Server/Classes")
    );
    assert_eq!(
        source(m, &["ServerScriptService", "Modules"]).as_deref(),
        Some("src/Others/Server/Modules")
    );
    assert_eq!(
        source(m, &["StarterPlayer", "StarterPlayerScripts", "Initialize"]).as_deref(),
        Some("src/Start/Client.client.luau")
    );
    assert!(!b.is_claimed(&"A".to_string()));
    assert!(!b.is_claimed(&"".to_string()));
}

#[test]
fn a_file_in_an_unclaimed_folder_becomes_a_leaf_below_it() {
    let m = build_manifest(&vec![file("a/Foo.luau")]).unwrap();
    let folder = at_shared(&m, &["A"]).unwrap();
    assert!(folder.folder);
    assert_eq!(folder.class_name.as_deref(), Some("Folder"));
    assert_eq!(folder.source, None);
    let leaf = at_shared(&m, &["A", "Foo"]).unwrap();
    assert!(!leaf.folder);
    assert_eq!(leaf.source.as_deref(), Some("src/a/Foo.luau"));
    assert_eq!(m.len(), 17);
}

#[test]
fn server_files_go_below_the_server_root() {
    let m = build_manifest(&vec![file("combat/Server.luau"), file("combat/Client.luau")]).unwrap();
    assert_eq!(
        source(&m, &["ServerScriptService", "Combat", "CombatServer"]).as_deref(),
        Some("src/combat/Server.luau")
    );
    assert_eq!(
        source_shared(&m, &["Combat", "CombatClient"]).as_deref(),
        Some("src/combat/Client.luau")
    );
    assert!(at_shared(&m, &["Combat", "CombatServer"]).is_none());
    assert!(at(&m, &["ServerScriptService", "Combat", "CombatClient"]).is_none());
}

#[test]
fn init_first_claims_the_folder() {
    let m = build_manifest(&vec![file("a/init.luau"), file("a/Bar.luau")]).unwrap();
    let a = at_shared(&m, &["A"]).unwrap();
    assert!(!a.folder);
    assert_eq!(a.source.as_deref(), Some("src/a"));
    assert!(at_shared(&m, &["A", "Bar"]).is_none());
    assert!(m.child_names(&shared(&["A"])).is_empty());
    assert_eq!(m.len(), 16);
}

#[test]
fn init_last_leaves_the_earlier_file_in_place() {
    let m = build_manifest(&vec![file("a/Bar.luau"), file("a/init.luau")]).unwrap();
    assert_eq!(source_shared(&m, &["A", "Bar"]).as_deref(), Some("src/a/Bar.luau"));
    let a = at_shared(&m, &["A"]).unwrap();
    assert_eq!(a.source.as_deref(), Some("src/a"));
    assert!(a.folder);
    assert_eq!(m.len(), 17);
}

#[test]
fn a_claim_holds_for_every_later_file_of_the_folder() {
    let mut b = TreeBuilder::new();
    assert!(b.process(&file("a/init.luau")).is_ok());
    assert!(b.is_claimed(&"A".to_string()));
    let before = b.manifest().len();
    assert!(b.process(&file("a/Bar.luau")).is_ok());
    assert!(b.process(&file("other/Mid.luau")).is_ok());
    assert!(b.process(&file("a/Server.luau")).is_ok());
    assert!(b.process(&file("a/Baz.luau")).is_ok());
    assert_eq!(b.manifest().len(), before + 2);
    assert!(at_shared(b.manifest(), &["A", "Bar"]).is_none());
    assert!(at(b.manifest(), &["ServerScriptService", "A"]).is_none());
    assert!(at_shared(b.manifest(), &["Other", "Mid"]).is_some());
}

#[test]
fn a_claim_covers_the_folder_in_both_groups() {
    let m = build_manifest(&vec![file("combat/init.luau"), file("combat/Server.luau")]).unwrap();
    assert!(at(&m, &["ServerScriptService", "Combat"]).is_none());
    assert_eq!(source_shared(&m, &["Combat"]).as_deref(), Some("src/combat"));
}

#[test]
fn a_claim_does_not_cover_folders_below() {
    let r = build_manifest(&vec![file("a/init.luau"), file("a/b/Baz.luau")]);
    let c = r.map(|_| ()).unwrap_err();
    assert_eq!(c.key, shared(&["A"]));
    assert_eq!(c.existing, "src/a");
    assert_eq!(c.incoming, "src/a/b/Baz.luau");
}

#[test]
fn nested_init_is_placed_below_its_parent_folders() {
    let m = build_manifest(&vec![file("Services/combat/init.luau"), file("Services/Other.luau")])
        .unwrap();
    assert_eq!(source_shared(&m, &["Services", "Combat"]).as_deref(), Some("src/Services/combat"));
    assert!(at_shared(&m, &["Services"]).unwrap().folder);
    assert_eq!(
        source_shared(&m, &["Services", "Other"]).as_deref(),
        Some("src/Services/Other.luau")
    );
}

#[test]
fn init_directly_under_the_root_claims_the_root_level() {
    let mut b = TreeBuilder::new();
    assert!(b.process(&file("init.luau")).is_ok());
    assert!(b.is_claimed(&"".to_string()));
    assert_eq!(source_shared(b.manifest(), &[""]).as_deref(), Some("src"));
    let before = b.manifest().len();
    assert!(b.process(&file("Top.luau")).is_ok());
    assert_eq!(b.manifest().len(), before);
    assert!(b.process(&file("a/Foo.luau")).is_ok());
    assert_eq!(b.manifest().len(), before + 2);
}

#[test]
fn same_key_with_different_sources_fails_the_pass() {
    let items = vec![
        get_virtual_path(&strings(&["x", "Foo.luau"])),
        get_virtual_path(&strings(&["y", "..", "x", "Foo.luau"])),
    ];
    let c = build_manifest(&items).map(|_| ()).unwrap_err();
    assert_eq!(c.key, shared(&["X", "Foo"]));
    assert_eq!(c.existing, "src/x/Foo.luau");
    assert_eq!(c.incoming, "src/y/../x/Foo.luau");
    let reversed = vec![
        get_virtual_path(&strings(&["y", "..", "x", "Foo.luau"])),
        get_virtual_path(&strings(&["x", "Foo.luau"])),
    ];
    let c = build_manifest(&reversed).map(|_| ()).unwrap_err();
    assert_eq!(c.existing, "src/y/../x/Foo.luau");
    assert_eq!(c.incoming, "src/x/Foo.luau");
}

#[test]
fn a_scanned_file_may_collide_with_the_scaffold() {
    let c = build_manifest(&vec![file("Classes/Foo.luau")]).map(|_| ()).unwrap_err();
    assert_eq!(c.key, shared(&["Classes"]));
    assert_eq!(c.existing, "src/Others/Shared/Classes");
    assert_eq!(c.incoming, "src/Classes/Foo.luau");
    let c = build_manifest(&vec![file("Modules.luau")]).map(|_| ()).unwrap_err();
    assert_eq!(c.key, shared(&["Modules"]));
    assert_eq!(c.existing, "src/Others/Shared/Modules");
    assert_eq!(c.incoming, "src/Modules.luau");
}

#[test]
fn a_step_reports_what_the_classification_says() {
    let vp = VirtualPath {
        is_init: false,
        target: Target::ServerGroup,
        folder: strings(&["P", "Q"]),
        name: "Leaf".to_string(),
        file: "anywhere".to_string(),
    };
    let mut b = TreeBuilder::new();
    assert!(b.process(&vp).is_ok());
    assert_eq!(source(b.manifest(), &["ServerScriptService", "P", "Q", "Leaf"]).as_deref(), Some("anywhere"));
    assert!(!b.is_claimed(&"P/Q".to_string()));
    let init = VirtualPath {
        is_init: true,
        target: Target::ServerGroup,
        folder: strings(&["P", "Q"]),
        name: "Q".to_string(),
        file: "src/p/q".to_string(),
    };
    assert!(b.process(&init).is_ok());
    assert!(b.is_claimed(&"P/Q".to_string()));
    assert!(!b.is_claimed(&"P".to_string()));
    let m = b.into_manifest();
    assert_eq!(source(&m, &["ServerScriptService", "P", "Q"]).as_deref(), Some("src/p/q"));
    assert_eq!(source(&m, &["ServerScriptService", "P", "Q", "Leaf"]).as_deref(), Some("anywhere"));
}

#[test]
fn a_failed_init_claims_nothing() {
    let mut b = TreeBuilder::new();
    assert!(b.process(&file("a/init.luau")).is_ok());
    let other = VirtualPath {
        is_init: true,
        target: Target::SharedGroup,
        folder: strings(&["B", "A"]),
        name: "A".to_string(),
        file: "src/elsewhere".to_string(),
    };
    assert!(b.process(&other).is_ok());
    let clash = VirtualPath {
        is_init: true,
        target: Target::SharedGroup,
        folder: strings(&["Z"]),
        name: "A".to_string(),
        file: "src/z".to_string(),
    };
    let c = b.process(&clash).unwrap_err();
    assert_eq!(c.existing, "src/a");
    assert_eq!(c.incoming, "src/z");
    assert!(!b.is_claimed(&"Z".to_string()));
    assert!(b.is_claimed(&"B/A".to_string()));
}
