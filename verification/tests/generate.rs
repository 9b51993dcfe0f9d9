use rojo_tree::generate::{classify_all, generate_from_walk, generate_project_file, GenerateError};
use rojo_tree::render::{finish_render, render_manifest};
use rojo_tree::manifest::Manifest;
use rojo_tree::walker::{DirEntry, WalkStep, Walker};

fn strings(parts: &[&str]) -> Vec<String> {
    parts.iter().map(|s| s.to_string()).collect()
}

fn files(paths: &[&str]) -> Vec<Vec<String>> {
    paths.iter().map(|p| p.split('/').map(|s| s.to_string()).collect()).collect()
}

const SCAFFOLD: &str = r#"{
  "name": "RojoTree",
  "tree": {
    "$className": "DataModel",
    "ReplicatedStorage": {
      "Packages": {
        "$path": "Packages"
      },
      "Shared": {
        "$className": "Folder",
        "Classes": {
          "$path": "src/Others/Shared/Classes"
        },
        "Modules": {
          "$path": "src/Others/Shared/Modules"
        }
      },
      "UI": {
        "$path": "src/UI"
      }
    },
    "ServerScriptService": {
      "Classes": {
        "$path": "src/Others/Server/Classes"
      },
      "Initialize": {
        "$path": "src/Start/Server.server.luau"
      },
      "Modules": {
        "$path": "src/Others/Server/Modules"
      },
      "Packages": {
        "$path": "ServerPackages"
      }
    },
    "StarterPlayer": {
      "StarterPlayerScripts": {
        "Initialize": {
          "$path": "src/Start/Client.client.luau"
        }
      }
    }
  }
}"#;

#[test]
fn a_pass_over_no_files_writes_the_scaffold() {
    assert_eq!(generate_project_file(&vec![]).unwrap(), SCAFFOLD);
}

#[test]
fn scanned_files_are_written_below_their_groups() {
    let text = generate_project_file(&files(&[
        "Services/combat/init.luau",
        "Services/combat/Skipped.luau",
        "Services/shop/Server.luau",
        "Services/shop/Client.luau",
        "Services/shop/Prices.luau",
    ]))
    .unwrap();
    let doc: serde_json::Value = serde_json::from_str(&text).unwrap();
    let shared = &doc["tree"]["ReplicatedStorage"]["Shared"];
    assert_eq!(shared["Services"]["$className"], "Folder");
    assert_eq!(shared["Services"]["Combat"]["$path"], "src/Services/combat");
    assert_eq!(shared["Services"]["Combat"].as_object().unwrap().len(), 1);
    assert_eq!(shared["Services"]["Shop"]["$className"], "Folder");
    assert_eq!(shared["Services"]["Shop"]["ShopClient"]["$path"], "src/Services/shop/Client.luau");
    assert_eq!(shared["Services"]["Shop"]["Prices"]["$path"], "src/Services/shop/Prices.luau");
    assert_eq!(shared["Services"]["Shop"].as_object().unwrap().len(), 3);
    assert_eq!(shared["Classes"]["$path"], "src/Others/Shared/Classes");
    let server = &doc["tree"]["ServerScriptService"];
    assert_eq!(server["Services"]["Shop"]["ShopServer"]["$path"], "src/Services/shop/Server.luau");
    assert_eq!(server["Services"]["$className"], "Folder");
    assert_eq!(server["Initialize"]["$path"], "src/Start/Server.server.luau");
    assert_eq!(doc["name"], "RojoTree");
    assert_eq!(doc["tree"]["$className"], "DataModel");
    assert!(text.starts_with("{\n  \"name\": \"RojoTree\",\n  \"tree\": {\n"));
}

#[test]
fn one_file_is_written_exactly() {
    let text = generate_project_file(&files(&["a/Foo.luau"])).unwrap();
    let expected = SCAFFOLD.replace(
        "      \"Shared\": {\n        \"$className\": \"Folder\",\n",
        "      \"Shared\": {\n        \"$className\": \"Folder\",\n        \"A\": {\n          \"$className\": \"Folder\",\n          \"Foo\": {\n            \"$path\": \"src/a/Foo.luau\"\n          }\n        },\n",
    );
    assert_ne!(expected, SCAFFOLD);
    assert_eq!(text, expected);
}

#[test]
fn two_passes_over_the_same_files_write_the_same_text() {
    let input = files(&[
        "Services/combat/Server.luau",
        "Services/combat/Client.luau",
        "Services/combat/utils.luau",
        "Services/inv/init.luau",
        "Services/inv/Item.luau",
        "Zeta.luau",
        "Alpha.luau",
    ]);
    let first = generate_project_file(&input).unwrap();
    let second = generate_project_file(&input).unwrap();
    assert_eq!(first, second);
    assert_eq!(first.as_bytes(), second.as_bytes());
}

#[test]
fn the_order_of_independent_files_does_not_show() {
    let a = generate_project_file(&files(&["x/One.luau", "y/Two.luau", "Three.luau"])).unwrap();
    let b = generate_project_file(&files(&["Three.luau", "y/Two.luau", "x/One.luau"])).unwrap();
    assert_eq!(a, b);
}

#[test]
fn the_order_of_init_and_sibling_shows() {
    let init_first = generate_project_file(&files(&["a/init.luau", "a/Bar.luau"])).unwrap();
    let init_last = generate_project_file(&files(&["a/Bar.luau", "a/init.luau"])).unwrap();
    assert_ne!(init_first, init_last);
    let first: serde_json::Value = serde_json::from_str(&init_first).unwrap();
    let last: serde_json::Value = serde_json::from_str(&init_last).unwrap();
    let a_first = first["tree"]["ReplicatedStorage"]["Shared"]["A"].as_object().unwrap();
    assert_eq!(a_first.len(), 1);
    assert_eq!(a_first["$path"], "src/a");
    let a_last = last["tree"]["ReplicatedStorage"]["Shared"]["A"].as_object().unwrap();
    assert_eq!(a_last.len(), 3);
    assert_eq!(a_last["$path"], "src/a");
    assert_eq!(a_last["$className"], "Folder");
    assert_eq!(a_last["Bar"]["$path"], "src/a/Bar.luau");
}

#[test]
fn a_collision_fails_the_pass_and_names_both_paths() {
    let input = vec![strings(&["x", "Foo.luau"]), strings(&["y", "..", "x", "Foo.luau"])];
    match generate_project_file(&input) {
        Err(GenerateError::NamingCollision(c)) => {
            assert_eq!(c.key, strings(&["ReplicatedStorage", "Shared", "X", "Foo"]));
            assert_eq!(c.existing, "src/x/Foo.luau");
            assert_eq!(c.incoming, "src/y/../x/Foo.luau");
        }
        other => panic!("unexpected result {:?}", other),
    }
}

#[test]
fn a_child_named_like_a_reserved_key_takes_its_place() {
    let mut m = Manifest::new(None);
    m.place(&strings(&["A"]), &"$className".to_string(), &"src/a/class.luau".to_string()).unwrap();
    m.place(&strings(&[]), &"A".to_string(), &"src/a".to_string()).unwrap();
    m.place(&strings(&["A"]), &"$path".to_string(), &"src/a/path.luau".to_string()).unwrap();
    let text = render_manifest(&m).unwrap();
    let doc: serde_json::Value = serde_json::from_str(&text).unwrap();
    let a = doc["tree"]["A"].as_object().unwrap();
    assert_eq!(a.len(), 2);
    assert_eq!(a["$className"]["$path"], "src/a/class.luau");
    assert_eq!(a["$path"]["$path"], "src/a/path.luau");
    assert_eq!(doc["tree"].as_object().unwrap().len(), 1);
}

#[test]
fn a_bare_root_is_an_empty_object() {
    let m = Manifest::new(None);
    assert_eq!(render_manifest(&m).unwrap(), "{\n  \"name\": \"RojoTree\",\n  \"tree\": {}\n}");
}

#[test]
fn texts_are_escaped_by_the_serializer() {
    let mut m = Manifest::new(None);
    m.place(&strings(&[]), &"quo\"te".to_string(), &"src/a\\b\n".to_string()).unwrap();
    let text = render_manifest(&m).unwrap();
    assert!(text.contains("\"quo\\\"te\": {"));
    assert!(text.contains("\"$path\": \"src/a\\\\b\\n\""));
    let doc: serde_json::Value = serde_json::from_str(&text).unwrap();
    assert_eq!(doc["tree"]["quo\"te"]["$path"], "src/a\\b\n");
}

#[test]
fn the_serializers_error_becomes_a_serialization_error() {
    let e = serde_json::from_str::<serde_json::Value>("{").unwrap_err();
    let message = e.to_string();
    let r = finish_render(Err(e));
    assert_eq!(r.unwrap_err().message, message);
    assert_eq!(finish_render(Ok("text".to_string())).unwrap(), "text");
}

#[test]
fn classify_all_keeps_the_order() {
    let items = classify_all(&files(&["b/Two.luau", "a/One.luau", "init.luau"]));
    assert_eq!(items.len(), 3);
    assert_eq!(items[0].name, "Two");
    assert_eq!(items[1].name, "One");
    assert!(items[2].is_init);
    assert!(classify_all(&vec![]).is_empty());
}

fn walked(entries: Vec<DirEntry>) -> Walker {
    let mut w = Walker::new("root".to_string(), vec![]);
    assert!(matches!(w.step(), WalkStep::Read(_)));
    w.supply(Some(entries));
    loop {
        match w.step() {
            WalkStep::Continue => {}
            WalkStep::Read(_) => w.supply(None),
            WalkStep::Done | WalkStep::Failed => return w,
        }
    }
}

#[test]
fn a_walk_is_generated_from_its_files() {
    let w = walked(vec![
        DirEntry { name: "Foo.luau".to_string(), is_text: true, is_dir: false },
        DirEntry { name: "skip.txt".to_string(), is_text: true, is_dir: false },
    ]);
    let text = generate_from_walk(w).unwrap();
    assert_eq!(text, generate_project_file(&files(&["Foo.luau"])).unwrap());
    assert_ne!(text, SCAFFOLD);
}

#[test]
fn a_failed_walk_fails_the_pass_with_a_path_encoding_error() {
    let w = walked(vec![
        DirEntry { name: "Foo.luau".to_string(), is_text: true, is_dir: false },
        DirEntry { name: "b\u{fffd}d".to_string(), is_text: false, is_dir: true },
    ]);
    assert!(matches!(generate_from_walk(w), Err(GenerateError::PathEncoding)));
}
