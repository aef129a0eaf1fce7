use chonk::listing::{patch_names, sort_by_keys, sort_names, sort_names_without_case, Keyed};
use chonk::names::{file_name, sanitize, sanitize_by, stem};

fn list(items: &[&str]) -> Vec<String> {
    items.iter().map(|s| s.to_string()).collect()
}

#[test]
fn names_are_made_safe() {
    assert_eq!(sanitize("fat bass"), "fat_bass");
    assert_eq!(sanitize("../../etc/passwd"), "etcpasswd");
    assert_eq!(sanitize("a-b_c.json"), "a-b_cjson");
    assert_eq!(sanitize("\\/:*?\"<>|\0"), "");
    assert_eq!(sanitize(""), "");
    assert_eq!(sanitize("Grün 音 ²"), "Grün_音_²");
    assert_eq!(sanitize("tab\tnew\nline"), "tabnewline");
    let long = "x".repeat(100);
    assert_eq!(sanitize(&long), "x".repeat(64));
    let mixed = format!("{}{}", "/".repeat(50), "é".repeat(70));
    assert_eq!(sanitize(&mixed), "é".repeat(64));
}

#[test]
fn a_safe_name_stays() {
    for name in ["fat bass", "../x", "Grün 音", "a.b.c"] {
        let once = sanitize(name);
        assert_eq!(sanitize(&once), once);
    }
}

#[test]
fn safety_goes_by_what_counts_as_a_letter() {
    let name = vec!['a', ' ', '/', '-', 'b'];
    assert_eq!(sanitize_by(&name, &vec![true, false, false, false, false]), "a_-");
    assert_eq!(sanitize_by(&name, &vec![false, false, true, false, true]), "_/-b");
}

#[test]
fn files_and_their_patches() {
    assert_eq!(file_name("pluck"), "pluck.json");
    assert_eq!(stem("pluck.json"), Some("pluck".to_string()));
    assert_eq!(stem("a.b.json"), Some("a.b".to_string()));
    assert_eq!(stem(".json"), None);
    assert_eq!(stem("..json"), Some(".".to_string()));
    assert_eq!(stem("json"), None);
    assert_eq!(stem("pluck.JSON"), None);
    assert_eq!(stem("pluck.json.bak"), None);
    assert_eq!(stem(""), None);
    assert_eq!(stem("ü.json"), Some("ü".to_string()));
    for file in [
        "pluck.json", "a.b.json", ".json", "..json", "json", "x.txt", ".hidden.json", "a.", "",
    ] {
        let path = std::path::Path::new(file);
        let expected = if path.extension().and_then(|e| e.to_str()) == Some("json") {
            path.file_stem().and_then(|s| s.to_str()).map(|s| s.to_string())
        } else {
            None
        };
        assert_eq!(stem(file), expected, "{}", file);
    }
}

#[test]
fn a_stored_patch_is_listed() {
    let safe = sanitize("My Sound!");
    assert_eq!(stem(&file_name(&safe)), Some(safe));
}

#[test]
fn only_patches_are_listed() {
    let files = list(&["b.json", "notes.txt", ".json", "a.json"]);
    assert_eq!(patch_names(&files), ["b", "a"]);
}

#[test]
fn alphabetical_order() {
    let names = list(&["pluck", "Acid", "acid", "Zed", "abc", "ab", "", "é"]);
    let mut expected = names.clone();
    expected.sort();
    assert_eq!(sort_names(&names), expected);
    assert_eq!(sort_names(&list(&["b", "B", "a", "A"])), ["A", "B", "a", "b"]);
}

#[test]
fn alphabetical_order_without_case() {
    let names = list(&["pluck", "Acid", "acid", "ACID", "Zed", "abc", "Éclair", "éb", "straße"]);
    let mut expected = names.clone();
    expected.sort_by(|a, b| a.to_lowercase().cmp(&b.to_lowercase()));
    assert_eq!(sort_names_without_case(&names), expected);
    assert_eq!(sort_names_without_case(&list(&["b", "B", "a", "A"])), ["a", "A", "b", "B"]);
    assert_eq!(sort_names_without_case(&list(&["B", "b", "A", "a"])), ["A", "a", "B", "b"]);
}

#[test]
fn sorting_by_keys_keeps_ties_in_order() {
    let items = vec![
        Keyed { key: "b".to_string(), name: "one".to_string() },
        Keyed { key: "a".to_string(), name: "two".to_string() },
        Keyed { key: "b".to_string(), name: "three".to_string() },
        Keyed { key: "a".to_string(), name: "four".to_string() },
    ];
    let names: Vec<String> = sort_by_keys(&items).into_iter().map(|k| k.name).collect();
    assert_eq!(names, ["two", "four", "one", "three"]);
}
