use rojo_tree::walker::{normalized_path, DirEntry, WalkStep, Walker};
use std::collections::HashMap;

fn strings(parts: &[&str]) -> Vec<String> {
    parts.iter().map(|s| s.to_string()).collect()
}

fn dir(name: &str) -> DirEntry {
    DirEntry { name: name.to_string(), is_text: true, is_dir: true }
}

fn file(name: &str) -> DirEntry {
    DirEntry { name: name.to_string(), is_text: true, is_dir: false }
}

struct Tree {
    listings: HashMap<String, Vec<(String, bool, bool)>>,
}

impl Tree {
    fn new() -> Tree {
        Tree { listings: HashMap::new() }
    }

    fn with(mut self, path: &str, entries: Vec<DirEntry>) -> Tree {
        self.listings.insert(
            path.to_string(),
            entries.into_iter().map(|e| (e.name, e.is_text, e.is_dir)).collect(),
        );
        self
    }

    fn list(&self, path: &[String]) -> Option<Vec<DirEntry>> {
        self.listings.get(&path.join("/")).map(|entries| {
            entries
                .iter()
                .map(|(name, is_text, is_dir)| DirEntry {
                    name: name.clone(),
                    is_text: *is_text,
                    is_dir: *is_dir,
                })
                .collect()
        })
    }
}

fn walk(tree: &Tree, root: &str, blacklist: &[&str]) -> (Vec<Vec<String>>, Vec<Vec<String>>, bool) {
    let mut w = Walker::new(root.to_string(), strings(blacklist));
    let mut read = Vec::new();
    for _ in 0..10_000 {
        match w.step() {
            WalkStep::Read(path) => {
                read.push(path.clone());
                w.supply(tree.list(&path));
            }
            WalkStep::Continue => {}
            WalkStep::Failed => return (w.into_files(), read, true),
            WalkStep::Done => return (w.into_files(), read, false),
        }
    }
    panic!("the walk did not end");
}

fn sample() -> Tree {
    Tree::new()
        .with("", vec![dir("Services"), file("Top.luau"), dir("Start"), dir("UI"), file("notes.txt")])
        .with("Services", vec![file("Foo.luau"), dir("combat"), file("Bar.luau"), dir("Start")])
        .with("Services/combat", vec![file("init.luau"), file("Server.luau"), file("readme.md")])
        .with("Services/Start", vec![file("Nested.luau")])
        .with("Start", vec![file("Server.server.luau"), dir("deep")])
        .with("Start/deep", vec![file("Hidden.luau")])
        .with("UI", vec![file("Menu.luau")])
}

#[test]
fn the_walk_visits_depth_first_in_listing_order() {
    let (files, read, failed) = walk(&sample(), "../../src", &[]);
    assert!(!failed);
    assert_eq!(
        files,
        vec![
            strings(&["Services", "Foo.luau"]),
            strings(&["Services", "combat", "init.luau"]),
            strings(&["Services", "combat", "Server.luau"]),
            strings(&["Services", "Bar.luau"]),
            strings(&["Services", "Start", "Nested.luau"]),
            strings(&["Top.luau"]),
            strings(&["Start", "Server.server.luau"]),
            strings(&["Start", "deep", "Hidden.luau"]),
            strings(&["UI", "Menu.luau"]),
        ]
    );
    assert_eq!(
        read,
        vec![
            strings(&[]),
            strings(&["Services"]),
            strings(&["Services", "combat"]),
            strings(&["Services", "Start"]),
            strings(&["Start"]),
            strings(&["Start", "deep"]),
            strings(&["UI"]),
        ]
    );
}

#[test]
fn a_blacklisted_directory_and_all_below_it_contribute_nothing() {
    let (files, read, failed) = walk(&sample(), "../../src", &["../../src/Start", "../../src/UI"]);
    assert!(!failed);
    assert_eq!(
        files,
        vec![
            strings(&["Services", "Foo.luau"]),
            strings(&["Services", "combat", "init.luau"]),
            strings(&["Services", "combat", "Server.luau"]),
            strings(&["Services", "Bar.luau"]),
            strings(&["Services", "Start", "Nested.luau"]),
            strings(&["Top.luau"]),
        ]
    );
    assert!(!read.contains(&strings(&["Start"])));
    assert!(!read.contains(&strings(&["Start", "deep"])));
    assert!(!read.contains(&strings(&["UI"])));
    assert!(read.contains(&strings(&["Services", "Start"])));
}

#[test]
fn the_blacklist_matches_whole_paths_only() {
    let tree = sample();
    let (files, _, _) = walk(&tree, "../../src", &["Start", "../../src/Star", "../../src/Start/", "src/Start"]);
    assert_eq!(files.len(), 9);
    let (files, _, _) = walk(&tree, "../../src", &["../../src/Services/Start"]);
    assert_eq!(files.len(), 8);
    assert!(!files.contains(&strings(&["Services", "Start", "Nested.luau"])));
    assert!(files.contains(&strings(&["Start", "Server.server.luau"])));
    let (files, _, _) = walk(&tree, "../../src", &["../../src/Start/deep"]);
    assert_eq!(files.len(), 8);
    assert!(!files.contains(&strings(&["Start", "deep", "Hidden.luau"])));
}

#[test]
fn a_blacklisted_root_is_not_read() {
    let (files, read, failed) = walk(&sample(), "../../src", &["../../src"]);
    assert!(files.is_empty());
    assert!(read.is_empty());
    assert!(!failed);
}

#[test]
fn paths_are_compared_with_forward_slashes() {
    let tree = sample();
    let (files, read, _) = walk(&tree, "..\\..\\src", &["../../src/Start"]);
    assert!(!read.contains(&strings(&["Start"])));
    assert_eq!(files.len(), 7);
    let (files, _, _) = walk(&tree, "../../src", &["..\\..\\src\\Start"]);
    assert_eq!(files.len(), 9);
    let odd = Tree::new().with("", vec![dir("a\\b"), dir("c")]).with("a\\b", vec![file("In.luau")]).with(
        "c",
        vec![file("Out.luau")],
    );
    let (files, _, _) = walk(&odd, "root", &["root/a/b"]);
    assert_eq!(files, vec![strings(&["c", "Out.luau"])]);
}

#[test]
fn normalized_paths_join_with_forward_slashes() {
    assert_eq!(normalized_path("../../src", &strings(&["Start"])), "../../src/Start");
    assert_eq!(normalized_path("..\\..\\src", &strings(&["a", "b"])), "../../src/a/b");
    assert_eq!(normalized_path("root", &strings(&["a\\b", "c"])), "root/a/b/c");
    assert_eq!(normalized_path("root", &strings(&[])), "root");
    assert_eq!(normalized_path("", &strings(&["a"])), "/a");
    let tree = sample();
    let blacklist = normalized_path("../../src", &strings(&["Start"]));
    let (files, _, _) = walk(&tree, "../../src", &[blacklist.as_str()]);
    assert_eq!(files.len(), 7);
}

#[test]
fn an_unreadable_directory_is_passed_over() {
    let tree = Tree::new()
        .with("", vec![dir("locked"), file("Top.luau"), dir("open")])
        .with("open", vec![file("In.luau")]);
    let (files, read, failed) = walk(&tree, "root", &[]);
    assert!(!failed);
    assert_eq!(files, vec![strings(&["Top.luau"]), strings(&["open", "In.luau"])]);
    assert_eq!(read, vec![strings(&[]), strings(&["locked"]), strings(&["open"])]);
    let (files, read, failed) = walk(&Tree::new(), "root", &[]);
    assert!(files.is_empty());
    assert_eq!(read, vec![strings(&[])]);
    assert!(!failed);
}

#[test]
fn only_script_files_are_collected() {
    let tree = Tree::new().with(
        "",
        vec![
            file("a.luau"),
            file("b.lua"),
            file(".luau"),
            file("c.LUAU"),
            file("d.luau.bak"),
            file("luau"),
            file("e.server.luau"),
        ],
    );
    let (files, _, _) = walk(&tree, "root", &[]);
    assert_eq!(files, vec![strings(&["a.luau"]), strings(&["e.server.luau"])]);
}

#[test]
fn a_directory_whose_name_is_no_text_fails_the_walk() {
    let tree = Tree::new().with(
        "",
        vec![
            file("Before.luau"),
            DirEntry { name: "bad\u{fffd}".to_string(), is_text: false, is_dir: true },
            file("After.luau"),
        ],
    );
    let (files, read, failed) = walk(&tree, "root", &[]);
    assert!(failed);
    assert_eq!(files, vec![strings(&["Before.luau"])]);
    assert_eq!(read, vec![strings(&[])]);
}

#[test]
fn a_script_whose_name_is_no_text_fails_the_walk() {
    let tree = Tree::new().with(
        "",
        vec![
            DirEntry { name: "odd\u{fffd}.txt".to_string(), is_text: false, is_dir: false },
            file("Kept.luau"),
            DirEntry { name: "odd\u{fffd}.luau".to_string(), is_text: false, is_dir: false },
            file("Never.luau"),
        ],
    );
    let mut w = Walker::new("root".to_string(), vec![]);
    assert!(matches!(w.step(), WalkStep::Read(_)));
    w.supply(tree.list(&[]));
    assert!(matches!(w.step(), WalkStep::Continue));
    assert!(matches!(w.step(), WalkStep::Continue));
    assert!(!w.has_failed());
    assert!(matches!(w.step(), WalkStep::Failed));
    assert!(w.has_failed());
    assert!(matches!(w.step(), WalkStep::Failed));
    assert_eq!(w.files(), &vec![strings(&["Kept.luau"])]);
}

#[test]
fn a_directory_is_handed_out_until_it_is_supplied() {
    let mut w = Walker::new("root".to_string(), vec![]);
    for _ in 0..3 {
        match w.step() {
            WalkStep::Read(path) => assert!(path.is_empty()),
            other => panic!("unexpected step {:?}", other),
        }
    }
    w.supply(Some(vec![dir("sub")]));
    for _ in 0..2 {
        match w.step() {
            WalkStep::Read(path) => assert_eq!(path, strings(&["sub"])),
            other => panic!("unexpected step {:?}", other),
        }
    }
    w.supply(None);
    assert!(matches!(w.step(), WalkStep::Continue));
    assert!(matches!(w.step(), WalkStep::Done));
    assert!(matches!(w.step(), WalkStep::Done));
    w.supply(Some(vec![file("Late.luau")]));
    assert!(matches!(w.step(), WalkStep::Done));
    assert!(w.files().is_empty());
}
