use imp_refactor::analyzer::{
    analyze, apply_rename_map, detect, failure_reason, fixes, suggest_by_leaf, suggest_path,
};
use imp_refactor::RegistryRef;
use std::collections::HashMap;

fn paths(items: &[&str]) -> Vec<String> {
    items.iter().map(|s| s.to_string()).collect()
}

fn renames(items: &[(&str, &str)]) -> Vec<(String, String)> {
    items
        .iter()
        .map(|(k, v)| (k.to_string(), v.to_string()))
        .collect()
}

fn make_ref(path: &str) -> RegistryRef {
    RegistryRef {
        path: path.to_string(),
        file: "test.nix".to_string(),
        line: 1,
        column: 1,
        start_offset: 0,
        end_offset: 0,
    }
}

/// Valid paths from complex-renames registry structure.
fn complex_registry_paths() -> Vec<String> {
    paths(&[
        "users",
        "users.alice",
        "users.alice.programs",
        "users.alice.programs.editor",
        "users.alice.programs.zsh",
        "users.bob",
        "users.bob.shell",
        "services",
        "services.database",
        "services.database.postgresql",
        "services.database.redis",
        "services.web",
        "services.web.nginx",
        "services.web.caddy",
        "profiles",
        "profiles.desktop",
        "profiles.desktop.gnome",
        "profiles.server",
        "profiles.server.minimal",
        "lib",
        "lib.helpers",
        "lib.helpers.strings",
    ])
}

#[test]
fn suggest_by_leaf_unique_match() {
    let valid = paths(&["users.alice", "users.bob"]);
    assert_eq!(
        suggest_by_leaf("home.alice", &valid),
        Some("users.alice".to_string())
    );
}

#[test]
fn suggest_by_leaf_ambiguous_returns_none() {
    let valid = paths(&["users.alice", "admins.alice"]);
    assert_eq!(suggest_by_leaf("home.alice", &valid), None);
}

#[test]
fn suggest_by_leaf_no_match_returns_none() {
    let valid = paths(&["users.bob", "users.carol"]);
    assert_eq!(suggest_by_leaf("home.alice", &valid), None);
}

#[test]
fn apply_rename_map_exact_match() {
    let map = renames(&[("home", "users")]);
    assert_eq!(apply_rename_map(&map, "home"), Some("users".to_string()));
}

#[test]
fn apply_rename_map_prefix_match() {
    let map = renames(&[("home", "users")]);
    assert_eq!(
        apply_rename_map(&map, "home.alice"),
        Some("users.alice".to_string())
    );
}

#[test]
fn apply_rename_map_no_match() {
    let map = renames(&[("home", "users")]);
    assert_eq!(apply_rename_map(&map, "other.path"), None);
}

#[test]
fn apply_rename_map_longest_prefix_wins() {
    let map = renames(&[("home", "users"), ("home.alice", "admins.alice")]);
    assert_eq!(
        apply_rename_map(&map, "home.alice.settings"),
        Some("admins.alice.settings".to_string())
    );
}

#[test]
fn suggest_path_uses_rename_map_first() {
    let valid = paths(&["users.alice", "users.bob"]);
    let map = renames(&[("home", "users")]);
    assert_eq!(
        suggest_path("home.alice", &valid, &map),
        Some("users.alice".to_string())
    );
}

#[test]
fn suggest_path_falls_back_to_leaf() {
    let valid = paths(&["users.alice", "users.bob"]);
    let map = renames(&[]);
    assert_eq!(
        suggest_path("home.alice", &valid, &map),
        Some("users.alice".to_string())
    );
}

#[test]
fn suggest_path_rename_must_exist_in_valid() {
    let valid = paths(&["other.charlie"]);
    let map = renames(&[("home", "users")]);
    assert_eq!(suggest_path("home.alice", &valid, &map), None);
}

#[test]
fn suggest_deep_nested_paths() {
    let valid = paths(&[
        "users.alice.programs.editor",
        "users.alice.programs.zsh",
        "services.database.postgresql",
    ]);
    let map = renames(&[]);
    assert_eq!(
        suggest_path("home.alice.programs.editor", &valid, &map),
        Some("users.alice.programs.editor".to_string())
    );
}

#[test]
fn suggest_with_multiple_same_depth_ambiguity() {
    let valid = paths(&["services.database.postgresql", "legacy.database.postgresql"]);
    let map = renames(&[]);
    assert_eq!(suggest_path("old.db.postgresql", &valid, &map), None);
}

#[test]
fn analyze_detects_broken_refs() {
    let valid = complex_registry_paths();
    let refs = vec![
        make_ref("users.alice"),             // valid
        make_ref("home.alice.programs.zsh"), // broken
        make_ref("svc.database.postgresql"), // broken
    ];
    let (broken, valid_count) = analyze(&refs, &valid, &Vec::new());
    assert_eq!(valid_count, 1);
    assert_eq!(broken.len(), 2);
    let broken_paths: Vec<_> = broken.iter().map(|b| b.reference.path.as_str()).collect();
    assert!(broken_paths.contains(&"home.alice.programs.zsh"));
    assert!(broken_paths.contains(&"svc.database.postgresql"));
}

#[test]
fn analyze_generates_suggestions() {
    let valid = complex_registry_paths();
    let refs = vec![
        make_ref("home.alice.programs.editor"),
        make_ref("svc.database.postgresql"),
        make_ref("mods.profiles.desktop.gnome"),
    ];
    let (broken, _) = analyze(&refs, &valid, &Vec::new());
    let suggestions: HashMap<_, _> = broken
        .iter()
        .filter_map(|b| {
            b.suggestion
                .as_ref()
                .map(|s| (b.reference.path.as_str(), s.as_str()))
        })
        .collect();
    assert_eq!(
        suggestions.get("home.alice.programs.editor"),
        Some(&"users.alice.programs.editor")
    );
    assert_eq!(
        suggestions.get("svc.database.postgresql"),
        Some(&"services.database.postgresql")
    );
    assert_eq!(
        suggestions.get("mods.profiles.desktop.gnome"),
        Some(&"profiles.desktop.gnome")
    );
}

#[test]
fn analyze_all_valid_refs_produces_no_broken() {
    let valid = complex_registry_paths();
    let refs = vec![
        make_ref("users.alice.programs.editor"),
        make_ref("users.alice.programs.zsh"),
        make_ref("users.bob.shell"),
        make_ref("services.database.postgresql"),
        make_ref("services.web.nginx"),
        make_ref("profiles.desktop.gnome"),
        make_ref("lib.helpers.strings"),
    ];
    let (broken, valid_count) = analyze(&refs, &valid, &Vec::new());
    assert_eq!(broken.len(), 0);
    assert_eq!(valid_count, 7);
}

#[test]
fn analyze_partial_valid_distinguishes_correctly() {
    let valid = complex_registry_paths();
    let refs = vec![
        make_ref("users.alice.programs.editor"),  // valid
        make_ref("services.database.postgresql"), // valid
        make_ref("profiles.desktop.gnome"),       // valid
        make_ref("home.bob.shell"),               // broken
        make_ref("svc.web.caddy"),                // broken
    ];
    let (broken, valid_count) = analyze(&refs, &valid, &Vec::new());
    assert_eq!(valid_count, 3);
    assert_eq!(broken.len(), 2);
    let broken_paths: Vec<_> = broken.iter().map(|b| b.reference.path.as_str()).collect();
    assert!(broken_paths.contains(&"home.bob.shell"));
    assert!(broken_paths.contains(&"svc.web.caddy"));
}

#[test]
fn analyze_ambiguous_refs_without_suggestion() {
    let valid = paths(&["a.foo", "b.foo"]);
    let refs = vec![make_ref("x.foo")];
    let (broken, _) = analyze(&refs, &valid, &Vec::new());
    assert_eq!(broken.len(), 1);
    assert!(broken[0].suggestion.is_none());
    assert!(broken[0].reason.as_ref().unwrap().contains("ambiguous"));
}

#[test]
fn analyze_no_match_refs_without_suggestion() {
    let valid = complex_registry_paths();
    let refs = vec![make_ref("configs.base")];
    let (broken, _) = analyze(&refs, &valid, &Vec::new());
    assert_eq!(broken.len(), 1);
    assert!(broken[0].suggestion.is_none());
    assert!(
        broken[0]
            .reason
            .as_ref()
            .unwrap()
            .contains("no path ending in 'base'")
    );
}

#[test]
fn analyze_deep_nesting_with_rename_map() {
    let valid = complex_registry_paths();
    let map = renames(&[
        ("svc.db", "services.database"),
        ("svc.http", "services.web"),
        ("utils.helpers", "lib.helpers"),
    ]);
    let refs = vec![
        make_ref("svc.db.postgresql"),
        make_ref("svc.db.redis"),
        make_ref("svc.http.nginx"),
        make_ref("svc.http.caddy"),
        make_ref("utils.helpers.strings"),
    ];
    let (broken, _) = analyze(&refs, &valid, &map);
    let suggestions: HashMap<_, _> = broken
        .iter()
        .filter_map(|b| {
            b.suggestion
                .as_ref()
                .map(|s| (b.reference.path.as_str(), s.as_str()))
        })
        .collect();
    assert_eq!(
        suggestions.get("svc.db.postgresql"),
        Some(&"services.database.postgresql")
    );
    assert_eq!(
        suggestions.get("svc.db.redis"),
        Some(&"services.database.redis")
    );
    assert_eq!(
        suggestions.get("svc.http.nginx"),
        Some(&"services.web.nginx")
    );
    assert_eq!(
        suggestions.get("svc.http.caddy"),
        Some(&"services.web.caddy")
    );
    assert_eq!(
        suggestions.get("utils.helpers.strings"),
        Some(&"lib.helpers.strings")
    );
}

// Further cases.

#[test]
fn counts_add_up_to_all_references() {
    let valid = complex_registry_paths();
    let refs = vec![
        make_ref("users.alice"),
        make_ref("home.bob.shell"),
        make_ref("nothing.here"),
        make_ref("lib"),
    ];
    let (broken, valid_count) = analyze(&refs, &valid, &Vec::new());
    assert_eq!(valid_count, 2);
    assert_eq!(broken.len(), 2);
    assert_eq!(valid_count + broken.len(), refs.len());
    assert_eq!(broken[0].reference.path, "home.bob.shell");
    assert_eq!(broken[1].reference.path, "nothing.here");
}

#[test]
fn leaf_uniqueness_unique_and_ambiguous() {
    let valid = paths(&["users.alice", "users.bob"]);
    assert_eq!(
        suggest_path("home.alice", &valid, &renames(&[])),
        Some("users.alice".to_string())
    );
    let valid = paths(&["users.alice", "admins.alice"]);
    assert_eq!(suggest_path("home.alice", &valid, &renames(&[])), None);
    let reason = failure_reason("home.alice", &valid);
    assert!(reason.contains("ambiguous"));
}

#[test]
fn ambiguity_message_lists_least_three_in_order() {
    let valid = paths(&["d.x", "b.x", "x", "c.x", "a.x", "a.y"]);
    assert_eq!(
        failure_reason("old.x", &valid),
        "ambiguous: 5 paths end in 'x': a.x, b.x, c.x"
    );
}

#[test]
fn ambiguity_message_with_two_matches() {
    let valid = paths(&["users.alice", "admins.alice"]);
    assert_eq!(
        failure_reason("home.alice", &valid),
        "ambiguous: 2 paths end in 'alice': admins.alice, users.alice"
    );
}

#[test]
fn ambiguity_message_counts_past_nine() {
    let names: Vec<String> = (0..12).map(|i| format!("g{}.leaf", i)).collect();
    let reason = failure_reason("old.leaf", &names);
    assert_eq!(reason, "ambiguous: 12 paths end in 'leaf': g0.leaf, g1.leaf, g10.leaf");
}

#[test]
fn no_match_message_is_exact() {
    let valid = paths(&["a.b"]);
    assert_eq!(
        failure_reason("x.base", &valid),
        "no path ending in 'base' exists"
    );
}

#[test]
fn leaf_must_follow_a_dot() {
    let valid = paths(&["users.malice"]);
    assert_eq!(suggest_by_leaf("home.alice", &valid), None);
    let valid = paths(&["alice"]);
    assert_eq!(suggest_by_leaf("home.alice", &valid), Some("alice".to_string()));
}

#[test]
fn rename_key_must_end_at_a_dot() {
    let map = renames(&[("home", "users")]);
    assert_eq!(apply_rename_map(&map, "homes.alice"), None);
}

#[test]
fn rename_rewrites_the_matched_prefix_only() {
    let map = renames(&[("a.b", "x")]);
    assert_eq!(apply_rename_map(&map, "a.b.c.d"), Some("x.c.d".to_string()));
}

#[test]
fn end_to_end_rename_and_leaf() {
    let valid = paths(&["services.database.postgresql", "services.web.nginx"]);
    let map = renames(&[("svc.db", "services.database")]);
    assert_eq!(
        suggest_path("svc.db.postgresql", &valid, &map),
        Some("services.database.postgresql".to_string())
    );
    assert_eq!(
        suggest_path("svc.web.nginx", &valid, &map),
        Some("services.web.nginx".to_string())
    );
    let valid = paths(&[
        "services.database.postgresql",
        "services.web.nginx",
        "legacy.nginx",
    ]);
    assert_eq!(suggest_path("svc.web.nginx", &valid, &map), None);
}

#[test]
fn detect_summarizes_the_run() {
    let valid = complex_registry_paths();
    let refs = vec![
        make_ref("users.alice"),
        make_ref("home.bob.shell"),
        make_ref("configs.base"),
    ];
    let result = detect(4, &refs, &valid, &Vec::new());
    let d = &result.diagnostics;
    assert_eq!(d.files_scanned, 4);
    assert_eq!(d.total_refs, 3);
    assert_eq!(d.valid_refs, 1);
    assert_eq!(d.broken_refs, 2);
    assert_eq!(d.suggestions_found, 1);
    assert_eq!(d.unsuggestable, 1);
    assert_eq!(result.broken[0].suggestion.as_deref(), Some("users.bob.shell"));
    assert!(result.broken[0].reason.is_none());
    assert!(result.broken[1].reason.is_some());
}

#[test]
fn fixes_pair_suggestions_with_references() {
    let valid = complex_registry_paths();
    let refs = vec![make_ref("home.bob.shell"), make_ref("configs.base")];
    let (broken, _) = analyze(&refs, &valid, &Vec::new());
    let fx = fixes(&broken);
    assert_eq!(fx.len(), 1);
    assert_eq!(fx[0].0.path, "home.bob.shell");
    assert_eq!(fx[0].1, "users.bob.shell");
}

#[test]
fn default_diagnostics_are_zero() {
    let d = imp_refactor::Diagnostics::default();
    assert_eq!(d.total_refs + d.valid_refs + d.broken_refs + d.files_scanned, 0);
}

#[test]
fn ambiguity_message_ignores_listing_order() {
    let forward = paths(&["d.foo", "c.foo", "b.foo", "a.foo", "a.bar"]);
    let backward = paths(&["a.bar", "a.foo", "b.foo", "c.foo", "d.foo"]);
    let expected = "ambiguous: 4 paths end in 'foo': a.foo, b.foo, c.foo";
    assert_eq!(failure_reason("x.foo", &forward), expected);
    assert_eq!(failure_reason("x.foo", &backward), expected);
}
