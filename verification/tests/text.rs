use rojo_tree::text::{
    capitalize_with, chars_of, contains_text, ends_with_text, join_onto, join_prefix,
    join_with_slash, key_below, prefix_of, same_text, to_pascal_case, to_posix,
};

fn strings(parts: &[&str]) -> Vec<String> {
    parts.iter().map(|s| s.to_string()).collect()
}

#[test]
fn pascal_case_of_empty_is_empty() {
    assert_eq!(to_pascal_case(""), "");
}

#[test]
fn pascal_case_uppercases_first_character_only() {
    assert_eq!(to_pascal_case("combat"), "Combat");
    assert_eq!(to_pascal_case("combatZone"), "CombatZone");
    assert_eq!(to_pascal_case("a"), "A");
    assert_eq!(to_pascal_case("aBC def"), "ABC def");
}

#[test]
fn pascal_case_leaves_the_rest_unchanged() {
    assert_eq!(to_pascal_case("sERVER"), "SERVER");
    assert_eq!(to_pascal_case("Already"), "Already");
    assert_eq!(to_pascal_case("1abc"), "1abc");
    assert_eq!(to_pascal_case(".."), "..");
}

#[test]
fn pascal_case_may_lengthen_the_first_character() {
    assert_eq!(to_pascal_case("ßa"), "SSa");
    assert_eq!(to_pascal_case("éa"), "Éa");
}

#[test]
fn pascal_case_matches_the_standard_uppercase_of_the_first_character() {
    for s in ["combat", "éclair", "ßtraße", "ǆx", "x", "Zed", "_a"] {
        let mut chars = s.chars();
        let first = chars.next().unwrap();
        let expected: String = first.to_uppercase().collect::<String>() + chars.as_str();
        assert_eq!(to_pascal_case(s), expected);
    }
}

#[test]
fn capitalize_with_replaces_the_first_character() {
    assert_eq!(capitalize_with("X", "abc"), "Xbc");
    assert_eq!(capitalize_with("XY", "a"), "XY");
    assert_eq!(capitalize_with("", "abc"), "bc");
    assert_eq!(capitalize_with("X", ""), "");
}

#[test]
fn posix_turns_backslashes_into_slashes() {
    assert_eq!(to_posix("a\\b\\c"), "a/b/c");
    assert_eq!(to_posix("..\\..\\src/Start"), "../../src/Start");
    assert_eq!(to_posix("plain"), "plain");
    assert_eq!(to_posix(""), "");
    assert_eq!(to_posix("\\"), "/");
}

#[test]
fn chars_of_lists_the_characters() {
    assert_eq!(chars_of("aé/"), vec!['a', 'é', '/']);
    assert_eq!(chars_of(""), Vec::<char>::new());
}

#[test]
fn same_text_compares_by_characters() {
    assert!(same_text("init", "init"));
    assert!(!same_text("init", "Init"));
    assert!(!same_text("init", "init2"));
    assert!(same_text("", ""));
}

#[test]
fn contains_text_finds_an_infix() {
    assert!(contains_text("gameserver", "server"));
    assert!(contains_text("server", "server"));
    assert!(contains_text("serverside", "server"));
    assert!(contains_text("xserverx", "server"));
    assert!(!contains_text("serve", "server"));
    assert!(!contains_text("s-e-r-v-e-r", "server"));
    assert!(contains_text("anything", ""));
    assert!(contains_text("", ""));
    assert!(!contains_text("", "a"));
}

#[test]
fn ends_with_text_looks_at_the_end_only() {
    assert!(ends_with_text("Foo.luau", ".luau"));
    assert!(!ends_with_text("Foo.luau.bak", ".luau"));
    assert!(!ends_with_text("luau", ".luau"));
    assert!(ends_with_text("x", ""));
}

#[test]
fn join_with_slash_separates_neighbours() {
    assert_eq!(join_with_slash(&strings(&["A", "B", "C"])), "A/B/C");
    assert_eq!(join_with_slash(&strings(&["A"])), "A");
    assert_eq!(join_with_slash(&strings(&[])), "");
    assert_eq!(join_with_slash(&strings(&["", ""])), "/");
}

#[test]
fn join_prefix_takes_the_first_parts() {
    let parts = strings(&["a", "b", "c"]);
    assert_eq!(join_prefix(&parts, 0), "");
    assert_eq!(join_prefix(&parts, 2), "a/b");
    assert_eq!(join_prefix(&parts, 3), "a/b/c");
}

#[test]
fn join_onto_puts_the_head_first() {
    let parts = strings(&["combat", "init.luau"]);
    assert_eq!(join_onto("src", &parts, 2), "src/combat/init.luau");
    assert_eq!(join_onto("src", &parts, 1), "src/combat");
    assert_eq!(join_onto("src", &parts, 0), "src");
}

#[test]
fn prefix_and_key_copies() {
    let parts = strings(&["a", "b", "c"]);
    assert_eq!(prefix_of(&parts, 2), strings(&["a", "b"]));
    assert_eq!(prefix_of(&parts, 0), strings(&[]));
    assert_eq!(key_below(&parts, &"d".to_string()), strings(&["a", "b", "c", "d"]));
}
