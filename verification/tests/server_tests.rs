use zalezhnosti::manifest::{
    parse_manifest, parse_requirements_manifest, Dependency, DependencyVersion, ManifestKind, Span,
};
use zalezhnosti::references::{locate, requirements_refer_to, resolve_reference};
use zalezhnosti::registry::LatestInfo;
use zalezhnosti::server::{
    checked_range, code_action, dependency_at, dependency_links_markdown, diagnostic_message,
    detect_document_kind, diagnostics, did_change, did_close, did_open, hover_markdown, is_outdated, offset_to_position, position_to_offset,
    quick_fix, resolve_workspace_dependency, span_to_range, Ancestor, Document, Documents,
    Position,
};
use zalezhnosti::version::{Pep440Version, Version};

fn semver(text: &str) -> DependencyVersion {
    DependencyVersion::Semver(Version::parse(text).unwrap())
}

fn pep440(text: &str) -> DependencyVersion {
    DependencyVersion::Pep440(Pep440Version::parse(text).unwrap())
}

fn latest(version: Option<DependencyVersion>) -> LatestInfo {
    LatestInfo {
        version,
        repository_url: None,
    }
}

fn cargo_dependency(line: &str) -> Dependency {
    parse_manifest(&format!("[dependencies]\n{line}\n"), ManifestKind::Cargo).remove(0)
}

#[test]
fn converts_offsets_and_positions() {
    let text = "a\nserde = \"1.0\"\n";
    let offset = text.find("1.0").unwrap();
    let position = offset_to_position(text, offset);
    assert_eq!(position.line, 1);
    assert_eq!(position_to_offset(text, position), Some(offset));
}

#[test]
fn builds_hover_for_outdated_dependency() {
    let text = "[dependencies]\nserde = \"1.0\"\n";
    let dep = parse_manifest(text, ManifestKind::Cargo).remove(0);
    let latest = LatestInfo {
        version: Some(DependencyVersion::Semver(Version::parse("1.1.0").unwrap())),
        repository_url: None,
    };
    let markdown = hover_markdown(&dep, Ok(&latest));
    assert!(markdown.contains("[Open in crates.io](https://crates.io/crates/serde)"));
    assert!(markdown.contains("Latest stable: `1.1.0`"));
    assert!(markdown.contains("Replacement: `1.1.0`"));
}

#[test]
fn hover_includes_registry_and_repository_links() {
    let text = r#"{
  "dependencies": {
    "react": "18.2.0"
  }
}"#;
    let dep = parse_manifest(text, ManifestKind::PackageJson).remove(0);
    let latest = LatestInfo {
        version: Some(DependencyVersion::Semver(Version::parse("18.2.0").unwrap())),
        repository_url: Some("https://github.com/facebook/react".to_string()),
    };

    let markdown = hover_markdown(&dep, Ok(&latest));

    assert!(markdown.contains("[Open in npm](https://www.npmjs.com/package/react)"));
    assert!(markdown.contains("[Open repository](https://github.com/facebook/react)"));
}

#[test]
fn resolves_workspace_dependency_to_workspace_manifest_edit_target() {
    let workspace_text = r#"
[workspace]
members = ["crates/member"]

[workspace.dependencies]
serde = "1.0"
"#;
    let member_text = r#"
[package]
name = "member"
version = "0.1.0"

[dependencies]
serde = { workspace = true }
"#;
    let ancestors = vec![
        Ancestor {
            uri: Some("file:///root/crates/member/Cargo.toml".to_string()),
            text: member_text.to_string(),
        },
        Ancestor {
            uri: Some("file:///root/Cargo.toml".to_string()),
            text: workspace_text.to_string(),
        },
    ];

    let mut dep = parse_manifest(member_text, ManifestKind::Cargo).remove(0);
    let edit_target = resolve_workspace_dependency(&mut dep, &ancestors).unwrap();

    assert_eq!(dep.current, "1.0");
    assert!(dep.can_edit);
    assert_eq!(edit_target.uri, "file:///root/Cargo.toml");
    assert_eq!(
        &edit_target.text[edit_target.span.start..edit_target.span.end],
        "1.0"
    );
}

// ---------------------------------------------------------------------------
// Positions
// ---------------------------------------------------------------------------

#[test]
fn positions_count_utf16_units() {
    let text = "a\u{1f600}b\n\u{e9}x";
    let at = |line: u32, character: u32| position_to_offset(text, Position { line, character });
    assert_eq!(at(0, 0), Some(0));
    assert_eq!(at(0, 1), Some(1));
    assert_eq!(at(0, 2), None);
    assert_eq!(at(0, 3), Some(5));
    assert_eq!(at(0, 4), Some(6));
    assert_eq!(at(0, 5), None);
    assert_eq!(at(1, 0), Some(7));
    assert_eq!(at(1, 1), Some(9));
    assert_eq!(at(1, 2), Some(10));
    assert_eq!(at(2, 0), None);
}

#[test]
fn positions_and_offsets_lead_back() {
    let text = "a\u{1f600}b\n\u{e9}x\r\n";
    for (offset, _) in text.char_indices() {
        let position = offset_to_position(text, offset);
        assert_eq!(position_to_offset(text, position), Some(offset));
    }
    assert_eq!(offset_to_position(text, 100), Position { line: 2, character: 0 });
    assert_eq!(offset_to_position(text, 2), Position { line: 0, character: 3 });
}

#[test]
fn spans_become_ranges() {
    let text = "x\nyz";
    let span = Span { start: 2, end: 4 };
    let range = span_to_range(text, &span);
    assert_eq!(range.start, Position { line: 1, character: 0 });
    assert_eq!(range.end, Position { line: 1, character: 2 });
    assert_eq!(checked_range(text, &span), Some(range));
}

#[test]
fn finds_the_dependency_under_a_position() {
    let document = Document {
        text: "[dependencies]\na = \"1\"\nb = \"22\"\n".to_string(),
        kind: ManifestKind::Cargo,
    };
    let name_at = |line: u32, character: u32| {
        dependency_at(&document, Position { line, character }).map(|dep| dep.name)
    };
    assert_eq!(name_at(1, 5), Some("a".to_string()));
    assert_eq!(name_at(1, 6), Some("a".to_string()));
    assert_eq!(name_at(1, 4), None);
    assert_eq!(name_at(2, 7), Some("b".to_string()));
    assert_eq!(name_at(2, 8), None);
    assert_eq!(name_at(9, 0), None);
}

// ---------------------------------------------------------------------------
// Outdated dependencies
// ---------------------------------------------------------------------------

#[test]
fn outdated_compares_versions() {
    let dep = cargo_dependency("a = \"1.2\"");
    assert!(is_outdated(&dep, &semver("1.2.1")));
    assert!(!is_outdated(&dep, &semver("1.2.0")));
    assert!(!is_outdated(&dep, &semver("1.1.9")));
    assert!(!is_outdated(&dep, &pep440("9")));
    assert!(!is_outdated(&cargo_dependency("a = \">1\""), &semver("9.0.0")));
}

#[test]
fn outdated_asks_python_specifiers() {
    let dep = parse_requirements_manifest("a>=1,<2").remove(0);
    assert!(is_outdated(&dep, &pep440("2.0")));
    assert!(!is_outdated(&dep, &pep440("1.9")));
    assert!(!is_outdated(&dep, &semver("2.0.0")));
    let pinned = parse_requirements_manifest("a==2.0").remove(0);
    assert!(!is_outdated(&pinned, &pep440("2.0")));
    assert!(is_outdated(&pinned, &pep440("2.1")));
}

#[test]
fn outdated_compares_python_versions() {
    let mut dep = parse_requirements_manifest("a>=1").remove(0);
    dep.current_version = Some(pep440("1.9"));
    assert!(is_outdated(&dep, &pep440("1.10")));
    assert!(!is_outdated(&dep, &pep440("1.9.0")));
}

// ---------------------------------------------------------------------------
// Texts
// ---------------------------------------------------------------------------

#[test]
fn hovers_say_what_is_known() {
    let dep = cargo_dependency("a = \"^1.2\"");
    let head = "**a**\n\n[Open in crates.io](https://crates.io/crates/a)\n\nCurrent: `^1.2`\n\n";
    assert_eq!(
        hover_markdown(&dep, Ok(&latest(Some(semver("2.0.0"))))),
        format!("{head}Latest stable: `2.0.0`\n\nReplacement: `^2.0.0`")
    );
    assert_eq!(
        hover_markdown(&dep, Ok(&latest(Some(semver("1.2.0"))))),
        format!("{head}Latest stable: `1.2.0`\n\nAlready up to date.")
    );
    assert_eq!(
        hover_markdown(&dep, Ok(&latest(None))),
        format!("{head}No stable registry version was found.")
    );
    assert_eq!(
        hover_markdown(&dep, Err(&"oops".to_string())),
        format!("{head}Could not check latest version: `oops`")
    );
}

#[test]
fn hovers_of_locked_dependencies_show_the_version() {
    let mut dep = cargo_dependency("a = \"1.2\"");
    dep.can_edit = false;
    assert!(hover_markdown(&dep, Ok(&latest(Some(semver("2.0.0"))))).ends_with("Replacement: `2.0.0`"));
}

#[test]
fn links_name_the_repository_once() {
    let dep = parse_requirements_manifest("a==1").remove(0);
    assert_eq!(
        dependency_links_markdown(&dep, None),
        "[Open in PyPI](https://pypi.org/project/a/)"
    );
    let mut info = latest(None);
    info.repository_url = Some("https://pypi.org/project/a/".to_string());
    assert_eq!(
        dependency_links_markdown(&dep, Some(&info)),
        "[Open in PyPI](https://pypi.org/project/a/)"
    );
    info.repository_url = Some("https://x.org".to_string());
    assert_eq!(
        dependency_links_markdown(&dep, Some(&info)),
        "[Open in PyPI](https://pypi.org/project/a/) | [Open repository](https://x.org)"
    );
}

#[test]
fn diagnostics_name_the_latest_version() {
    let dep = cargo_dependency("a = \"1\"");
    assert_eq!(
        diagnostic_message(&dep, &Ok(latest(Some(semver("2.0.0"))))),
        Some("a 2.0.0 is available".to_string())
    );
    assert_eq!(diagnostic_message(&dep, &Ok(latest(Some(semver("1.0.0"))))), None);
    assert_eq!(diagnostic_message(&dep, &Ok(latest(None))), None);
    assert_eq!(diagnostic_message(&dep, &Err("x".to_string())), None);
}

#[test]
fn quick_fixes_are_offered_where_they_help() {
    let mut dep = cargo_dependency("a = \"~1\"");
    let fix = quick_fix(&dep, &Ok(latest(Some(semver("2.0.0"))))).unwrap();
    assert_eq!(fix.title, "Update a to 2.0.0");
    assert_eq!(fix.new_text, "~2.0.0");
    assert!(quick_fix(&dep, &Ok(latest(Some(semver("1.0.0"))))).is_none());
    assert!(quick_fix(&dep, &Ok(latest(None))).is_none());
    assert!(quick_fix(&dep, &Err("x".to_string())).is_none());
    dep.can_edit = false;
    assert!(quick_fix(&dep, &Ok(latest(Some(semver("2.0.0"))))).is_none());

    let python = parse_requirements_manifest("b>=1,<2").remove(0);
    let fix = quick_fix(&python, &Ok(latest(Some(pep440("2.0"))))).unwrap();
    assert_eq!(fix.new_text, "==2.0");
}

// ---------------------------------------------------------------------------
// Workspaces
// ---------------------------------------------------------------------------

fn ancestor(uri: Option<&str>, text: &str) -> Ancestor {
    Ancestor {
        uri: uri.map(|uri| uri.to_string()),
        text: text.to_string(),
    }
}

#[test]
fn workspaces_leave_other_dependencies_alone() {
    let ancestors = vec![ancestor(Some("u"), "[workspace.dependencies]\na = \"2\"\n")];
    let mut dep = cargo_dependency("a = \"1\"");
    assert!(resolve_workspace_dependency(&mut dep, &ancestors).is_none());
    assert_eq!(dep.current, "1");

    let mut dep = cargo_dependency("b.workspace = true");
    assert!(resolve_workspace_dependency(&mut dep, &ancestors).is_none());
    assert_eq!(dep.current, "workspace = true");
}

#[test]
fn workspaces_take_the_nearest_declaration() {
    let ancestors = vec![
        ancestor(Some("near"), "[dependencies]\na = \"9\"\n"),
        ancestor(Some("middle"), "[workspace.dependencies]\na = \"^2\"\n"),
        ancestor(Some("far"), "[workspace.dependencies]\na = \"3\"\n"),
    ];
    let mut dep = cargo_dependency("a.workspace = true");
    let span = dep.value_span;
    let target = resolve_workspace_dependency(&mut dep, &ancestors).unwrap();
    assert_eq!(target.uri, "middle");
    assert_eq!(dep.prefix, "^");
    assert_eq!(dep.current_version, Some(semver("2.0.0")));
    assert_eq!(dep.value_span, span);
}

#[test]
fn workspaces_name_no_place_that_cannot_be_written() {
    let mut dep = cargo_dependency("a.workspace = true");
    let locked = vec![ancestor(Some("u"), "[workspace.dependencies]\na = \">1\"\n")];
    assert!(resolve_workspace_dependency(&mut dep, &locked).is_none());
    assert_eq!(dep.current, ">1");
    assert!(!dep.can_edit);

    let mut dep = cargo_dependency("a.workspace = true");
    let nowhere = vec![ancestor(None, "[workspace.dependencies]\na = \"1\"\n")];
    assert!(resolve_workspace_dependency(&mut dep, &nowhere).is_none());
    assert!(dep.can_edit);
}

// ---------------------------------------------------------------------------
// Documents
// ---------------------------------------------------------------------------

#[test]
fn diagnostics_follow_the_dependencies() {
    let text = "[dependencies]\na = \"1\"\nb = \"2\"\nc = \"^3\"\n";
    let deps = parse_manifest(text, ManifestKind::Cargo);
    let known = vec![
        Ok(latest(Some(semver("1.5.0")))),
        Err("offline".to_string()),
        Ok(latest(Some(semver("4.0.0")))),
    ];
    let found = diagnostics(&deps, &known);
    assert_eq!(found.len(), 2);
    assert_eq!(found[0].message, "a 1.5.0 is available");
    assert_eq!(found[0].span, deps[0].value_span);
    assert_eq!(found[1].message, "c 4.0.0 is available");
    assert_eq!(found[1].span, deps[2].value_span);
    assert!(diagnostics(&Vec::new(), &Vec::new()).is_empty());
}

#[test]
fn code_actions_write_where_the_version_is_declared() {
    let text = "[dependencies]\na.workspace = true\nb = \"~1\"\n";
    let mut deps = parse_manifest(text, ManifestKind::Cargo);
    let known = Ok(latest(Some(semver("2.1.0"))));

    let action = code_action("file:///m", text, &deps[1], None, &known).unwrap();
    assert_eq!(action.fix.title, "Update b to 2.1.0");
    assert_eq!(action.fix.new_text, "~2.1.0");
    assert_eq!(action.target.uri, "file:///m");
    assert_eq!(action.target.text, text);
    assert_eq!(action.target.span, deps[1].value_span);

    let above = "[workspace.dependencies]\na = \"^1.2\"\n";
    let ancestors = vec![ancestor(Some("file:///w"), above)];
    let target = resolve_workspace_dependency(&mut deps[0], &ancestors);
    let action = code_action("file:///m", text, &deps[0], target, &known).unwrap();
    assert_eq!(action.target.uri, "file:///w");
    assert_eq!(action.target.text, above);
    assert_eq!(action.target.span, Span { start: 30, end: 34 });
    assert_eq!(action.fix.new_text, "^2.1.0");

    assert!(code_action("u", text, &deps[1], None, &Ok(latest(None))).is_none());
}

#[test]
fn documents_follow_the_editor() {
    let mut documents = Documents::new();
    assert!(!did_open(&mut documents, "u:a", "/a.rs", "x".to_string()));
    assert!(documents.get("u:a").is_none());

    assert!(did_open(&mut documents, "u:c", "/Cargo.toml", "one".to_string()));
    assert_eq!(documents.get("u:c").unwrap().text, "one");
    assert_eq!(documents.get("u:c").unwrap().kind, ManifestKind::Cargo);

    let texts = vec!["two".to_string(), "three".to_string()];
    assert!(did_change(&mut documents, "u:c", "/package.json", texts));
    assert_eq!(documents.get("u:c").unwrap().text, "three");
    assert_eq!(documents.get("u:c").unwrap().kind, ManifestKind::Cargo);
    assert!(!did_change(&mut documents, "u:c", "/Cargo.toml", Vec::new()));
    assert_eq!(documents.get("u:c").unwrap().text, "three");

    assert!(did_change(&mut documents, "u:p", "/package.json", vec!["four".to_string()]));
    assert_eq!(documents.get("u:p").unwrap().kind, ManifestKind::PackageJson);
    assert!(did_change(&mut documents, "u:q", "/q.rs", vec!["five".to_string()]));
    assert!(documents.get("u:q").is_none());

    did_close(&mut documents, "u:c");
    assert!(documents.get("u:c").is_none());
    assert_eq!(documents.get("u:p").unwrap().text, "four");
    did_close(&mut documents, "u:c");
}

#[test]
fn referenced_files_are_manifests() {
    let mut documents = Documents::new();
    let text = "-r dev.txt\n--constraint ./more/limits.in\n-c ../all.txt\n-r /etc/pins.txt\n";
    let open = |documents: &mut Documents, path: &str| {
        did_open(documents, &format!("file://{path}"), path, "a==1".to_string())
    };
    assert!(!open(&mut documents, "/x/y/dev.txt"));
    assert!(did_open(
        &mut documents,
        "file:///x/y/requirements.txt",
        "/x/y/requirements.txt",
        text.to_string()
    ));
    for path in ["/x/y/dev.txt", "/x/y/more/limits.in", "/x/all.txt", "/etc/pins.txt"] {
        assert!(open(&mut documents, path), "{path}");
        let document = documents.get(&format!("file://{path}")).unwrap();
        assert_eq!(document.kind, ManifestKind::Requirements);
    }
    for path in ["/x/dev.txt", "/x/y/limits.in", "/x/y/all.txt", "/y/pins.txt"] {
        assert!(!open(&mut documents, path), "{path}");
    }
    did_close(&mut documents, "file:///x/y/requirements.txt");
    assert_eq!(detect_document_kind(&documents, "file:///x/all.txt", "/x/all.txt"), None);
}

#[test]
fn referenced_files_are_found_by_escaped_addresses() {
    let base = "file:///x/my%20project/requirements.txt";
    let text = "-r dev reqs.txt\n-c größe.txt\n-r a/../b.txt\n-r ./c//./d.txt\n-c ../e-f_g.txt\n";
    for uri in [
        "file:///x/my%20project/dev%20reqs.txt",
        "file:///x/my project/dev reqs.txt",
        "file:///x/my%20project/gr%C3%B6%C3%9Fe.txt",
        "file:///x/my%20project/gr%c3%b6%c3%9fe.txt",
        "file:///x/my%20project/größe.txt",
        "file:///x/my%20project/b.txt",
        "file:///x/my%20project/c/d.txt",
        "file:///x/e-f_g.txt",
        "file:///x/e%2Df%5Fg.txt",
    ] {
        assert!(requirements_refer_to(base, text, uri), "{uri}");
    }
    for uri in [
        "file:///x/my%20project/dev%2520reqs.txt",
        "file:///x/my%20project/dev.txt",
        "file:///x/my%20project/a/b.txt",
        "file:///x/my%20project/e-f_g.txt",
        "file://host/x/my%20project/b.txt",
        "untitled:/x/my%20project/b.txt",
    ] {
        assert!(!requirements_refer_to(base, text, uri), "{uri}");
    }
}

#[test]
fn references_are_resolved() {
    let base = "file:///a/b/r.txt";
    assert_eq!(locate("file:///a/b%20c/r.txt"), ["a", "b%20c", "r%2Etxt"]);
    assert_eq!(locate("file:///a/b%5Fc/%41-é"), ["a", "b%5Fc", "A%2D%C3%A9"]);
    assert_eq!(locate("file:///a%2/b%zz"), ["a%252", "b%25zz"]);
    assert_eq!(resolve_reference(base, "c.txt"), ["a", "b", "c%2Etxt"]);
    assert_eq!(resolve_reference(base, "./../c.txt"), ["a", "c%2Etxt"]);
    assert_eq!(resolve_reference(base, "../.././c/d"), ["c", "d"]);
    assert_eq!(resolve_reference(base, "../../../d"), ["d"]);
    assert_eq!(resolve_reference(base, "c/../d"), ["a", "b", "d"]);
    assert_eq!(resolve_reference(base, "/c"), ["c"]);
    assert_eq!(resolve_reference(base, "c%20d"), ["a", "b", "c%2520d"]);
    assert!(requirements_refer_to("u:/a/r.txt", "-c b.txt", "u:/a/b.txt"));
    assert!(!requirements_refer_to("u:/a/r.txt", "-e b.txt", "u:/a/b.txt"));
}
