use imp_refactor::rewriter::{apply_replacements, try_apply_replacements, RewriteError};
use imp_refactor::RegistryRef;

fn make_ref(path: &str, start: usize, end: usize) -> RegistryRef {
    RegistryRef {
        path: path.to_string(),
        file: "test.nix".to_string(),
        line: 1,
        column: 1,
        start_offset: start,
        end_offset: end,
    }
}

#[test]
fn replaces_single_reference() {
    let content = "{ imports = [ registry.home.alice ]; }";
    //                          ^14           ^32
    let changes = vec![(make_ref("home.alice", 14, 33), "users.alice".to_string())];
    let result = apply_replacements(content, "registry", &changes);
    assert_eq!(result, "{ imports = [ registry.users.alice ]; }");
}

#[test]
fn replaces_multiple_references_same_line() {
    let content = "{ a = registry.foo.x; b = registry.bar.y; }";
    //                  ^6          ^20   ^26          ^40
    let changes = vec![
        (make_ref("foo.x", 6, 20), "baz.x".to_string()),
        (make_ref("bar.y", 26, 40), "qux.y".to_string()),
    ];
    let result = apply_replacements(content, "registry", &changes);
    assert_eq!(result, "{ a = registry.baz.x; b = registry.qux.y; }");
}

#[test]
fn preserves_surrounding_content() {
    let content = "# comment\n{ x = registry.old.path; }\n# end";
    //                              ^16             ^32
    let changes = vec![(make_ref("old.path", 16, 33), "new.path".to_string())];
    let result = apply_replacements(content, "registry", &changes);
    assert_eq!(result, "# comment\n{ x = registry.new.path; }\n# end");
}

#[test]
fn does_not_modify_comments_with_same_text() {
    // Only the span of the real reference is replaced, not the comment
    // that mentions the same path.
    let content = "# registry.old.path is deprecated\n{ x = registry.old.path; }";
    let changes = vec![(make_ref("old.path", 40, 57), "new.path".to_string())];
    let result = apply_replacements(content, "registry", &changes);
    assert_eq!(
        result,
        "# registry.old.path is deprecated\n{ x = registry.new.path; }"
    );
}

#[test]
fn handles_different_length_replacements() {
    let content = "{ x = registry.a; y = registry.b.c.d; }";
    //                  ^6         ^16   ^22            ^36
    let changes = vec![
        (make_ref("a", 6, 16), "very.long.path".to_string()),
        (make_ref("b.c.d", 22, 36), "x".to_string()),
    ];
    let result = apply_replacements(content, "registry", &changes);
    assert_eq!(result, "{ x = registry.very.long.path; y = registry.x; }");
}

#[test]
fn empty_changes_returns_original() {
    let content = "{ x = registry.foo; }";
    let changes: Vec<(RegistryRef, String)> = vec![];
    let result = apply_replacements(content, "registry", &changes);
    assert_eq!(result, content);
}

#[test]
fn handles_multiline_content() {
    let content = "{\n  imports = [\n    registry.home.alice\n  ];\n}";
    //                                  ^20               ^39
    let changes = vec![(make_ref("home.alice", 20, 39), "users.alice".to_string())];
    let result = apply_replacements(content, "registry", &changes);
    assert_eq!(
        result,
        "{\n  imports = [\n    registry.users.alice\n  ];\n}"
    );
}

// Further cases.

#[test]
fn batch_order_does_not_matter() {
    let content = "{ a = root.foo.x; b = root.bar.y; }";
    let first = (make_ref("foo.x", 6, 16), "p.x".to_string());
    let second = (make_ref("bar.y", 22, 32), "q.y".to_string());
    let forward = apply_replacements(content, "root", &[first.clone(), second.clone()]);
    let backward = apply_replacements(content, "root", &[second, first]);
    assert_eq!(forward, backward);
    assert_eq!(forward, "{ a = root.p.x; b = root.q.y; }");
}

#[test]
fn single_replacement_is_exact_splice() {
    let content = "let v = registry.old.thing; in v";
    let (s, e) = (8, 26);
    let changes = vec![(make_ref("old.thing", s, e), "fresh".to_string())];
    let result = apply_replacements(content, "registry", &changes);
    let expected = format!("{}{}{}", &content[..s], "registry.fresh", &content[e..]);
    assert_eq!(result, expected);
}

#[test]
fn out_of_range_replacement_is_skipped() {
    let content = "{ x = registry.a; }";
    let changes = vec![
        (make_ref("a", 6, 16), "b".to_string()),
        (make_ref("zzz", 50, 60), "c".to_string()),
    ];
    let result = apply_replacements(content, "registry", &changes);
    assert_eq!(result, "{ x = registry.b; }");
}

#[test]
fn span_cutting_a_character_is_skipped() {
    let content = "# é\nregistry.a";
    // Byte 3 is inside the two-byte 'é'.
    let changes = vec![(make_ref("a", 3, 4), "b".to_string())];
    let result = apply_replacements(content, "registry", &changes);
    assert_eq!(result, content);
}

#[test]
fn non_ascii_text_around_span_is_kept() {
    let content = "# Grüße\nregistry.a";
    let changes = vec![(make_ref("a", 10, 20), "bb".to_string())];
    let result = apply_replacements(content, "registry", &changes);
    assert_eq!(result, "# Grüße\nregistry.bb");
}

#[test]
fn overlapping_changes_are_rejected() {
    let content = "{ x = registry.a.b; }";
    let changes = vec![
        (make_ref("a.b", 6, 18), "c".to_string()),
        (make_ref("a", 8, 12), "d".to_string()),
    ];
    assert_eq!(
        try_apply_replacements(content, "registry", &changes),
        Err(RewriteError::Overlap(0, 1))
    );
}

#[test]
fn same_start_applies_longer_span_first() {
    let content = "{ x = registry.a; }";
    let changes = vec![
        (make_ref("a", 6, 6), "d".to_string()),
        (make_ref("a", 6, 16), "c".to_string()),
    ];
    let expected = "{ x = registry.dregistry.c; }".to_string();
    assert_eq!(apply_replacements(content, "registry", &changes), expected);
    assert_eq!(try_apply_replacements(content, "registry", &changes), Ok(expected));
}

#[test]
fn insertions_at_one_point_keep_listed_order() {
    let content = "[ ]";
    let changes = vec![
        (make_ref("a", 2, 2), "a ".to_string()),
        (make_ref("b", 2, 2), "b ".to_string()),
    ];
    assert_eq!(
        apply_replacements(content, "r", &changes),
        "[ r.a r.b ]"
    );
}

#[test]
fn separate_changes_are_applied_when_checked() {
    let content = "{ a = registry.foo.x; b = registry.bar.y; }";
    let changes = vec![
        (make_ref("bar.y", 26, 40), "qux.y".to_string()),
        (make_ref("foo.x", 6, 20), "baz.x".to_string()),
    ];
    assert_eq!(
        try_apply_replacements(content, "registry", &changes),
        Ok("{ a = registry.baz.x; b = registry.qux.y; }".to_string())
    );
}
