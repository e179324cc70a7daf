use zalezhnosti::zeddeps::manifest::{
    build_dependency, detect_manifest_kind, parse_cargo_manifest, parse_manifest,
    parse_package_json, Registry,
};
use zalezhnosti::zeddeps::registry::{
    body_outcome, head_outcome, newest_stable_crate_version, newest_stable_npm_version, read_body,
    unsent_outcome, Body, CrateVersion, CratesResponse, FetchOutcome, Latest, NpmResponse,
    RegistryClient,
};
use zalezhnosti::zeddeps::server::{
    dependency_at, diagnostic_message, diagnostics, did_change, did_close, did_open, hover_markdown,
    offset_to_position, position_to_offset, quick_fix, Document, Documents, Position,
};
use zalezhnosti::version::Version;

#[test]
fn manifest_parses_cargo_string_and_inline_versions() {
    let text = r#"
[dependencies]
serde = "1.0"
tokio = { version = "^1.35", features = ["rt"] }
local = { path = "../local" }
gitdep = { git = "https://example.com/repo", version = "1.0" }

[dev-dependencies]
pretty_assertions = "~1"
"#;

    let deps = parse_cargo_manifest(text);
    assert_eq!(
        deps.iter().map(|dep| dep.name.as_str()).collect::<Vec<_>>(),
        vec!["serde", "tokio", "pretty_assertions"]
    );
    assert_eq!(deps[1].prefix, "^");
    assert_eq!(
        &text[deps[0].value_span.start..deps[0].value_span.end],
        "1.0"
    );
}

#[test]
fn manifest_parses_package_json_dependency_sections() {
    let text = r#"{
  "dependencies": {
    "react": "^18.2.0",
    "@types/node": "~20.0.0",
    "local": "file:../local"
  },
  "optionalDependencies": {
    "left-pad": "1"
  }
}"#;

    let deps = parse_package_json(text);
    assert_eq!(
        deps.iter().map(|dep| dep.name.as_str()).collect::<Vec<_>>(),
        vec!["react", "@types/node", "left-pad"]
    );
    assert_eq!(
        &text[deps[0].value_span.start..deps[0].value_span.end],
        "^18.2.0"
    );
    assert_eq!(deps[0].prefix, "^");
}

#[test]
fn manifest_marks_complex_ranges_as_non_editable() {
    let dep = build_dependency(
        "example".to_string(),
        "dependencies",
        Registry::Npm,
        ">=1 <2".to_string(),
        0,
        6,
    );
    assert!(!dep.can_edit);
    assert_eq!(dep.current_version, None);
}

#[test]
fn registry_cargo_latest_ignores_yanked_and_prerelease() {
    let versions = vec![
        CrateVersion {
            num: "2.0.0-alpha.1".to_string(),
            yanked: false,
        },
        CrateVersion {
            num: "1.9.0".to_string(),
            yanked: true,
        },
        CrateVersion {
            num: "1.8.0".to_string(),
            yanked: false,
        },
    ];
    assert_eq!(
        newest_stable_crate_version(&versions),
        Some(Version::parse("1.8.0").unwrap())
    );
}

#[test]
fn registry_npm_latest_falls_back_when_latest_is_prerelease() {
    let body = NpmResponse {
        dist_tags: vec![("latest".to_string(), "2.0.0-beta.1".to_string())],
        versions: vec![
            "1.0.0".to_string(),
            "1.2.0".to_string(),
            "2.0.0-beta.1".to_string(),
        ],
    };
    assert_eq!(
        newest_stable_npm_version(&body),
        Some(Version::parse("1.2.0").unwrap())
    );
}

#[test]
fn server_converts_offsets_and_positions() {
    let text = "a\nserde = \"1.0\"\n";
    let offset = text.find("1.0").unwrap();
    let position = offset_to_position(text, offset);
    assert_eq!(position.line, 1);
    assert_eq!(position_to_offset(text, position), Some(offset));
}

#[test]
fn server_builds_hover_for_outdated_dependency() {
    let text = "[dependencies]\nserde = \"1.0\"\n";
    let dep = parse_manifest(text, Registry::Cargo).remove(0);
    let latest = Some(Version::parse("1.1.0").unwrap());
    let markdown = hover_markdown(&dep, Ok(&latest));
    assert!(markdown.contains("[Open in crates.io](https://crates.io/crates/serde)"));
    assert!(markdown.contains("Latest stable: `1.1.0`"));
    assert!(markdown.contains("Replacement: `1.1.0`"));
}

#[test]
fn zeddeps_detects_kinds_by_the_end_of_the_path() {
    assert_eq!(detect_manifest_kind("/a/MyCargo.toml"), Some(Registry::Cargo));
    assert_eq!(detect_manifest_kind("/a/package.json"), Some(Registry::Npm));
    assert_eq!(detect_manifest_kind("/a/pyproject.toml"), None);
}

#[test]
fn zeddeps_knows_no_workspaces() {
    let text = "[workspace.dependencies]\na = \"1\"\n[dependencies]\n\
                b = { workspace = true, version = \"1\" }\nc = { workspace=true, version = \"1\" }\n\
                d = { version = 1 }\ne.workspace = true\nf = { version = \"2\" }\n";
    let deps = parse_cargo_manifest(text);
    assert_eq!(
        deps.iter().map(|dep| dep.name.as_str()).collect::<Vec<_>>(),
        vec!["f"]
    );
    assert_eq!(&text[deps[0].value_span.start..deps[0].value_span.end], "2");
}

#[test]
fn zeddeps_reads_sections_behind_a_colon_only() {
    let text = r#"{"name":"dependencies","dependencies":{"react":"18.2.0"}}"#;
    let deps = parse_manifest(text, Registry::Npm);
    assert_eq!(deps.len(), 1);
    assert_eq!(deps[0].name, "react");
    assert_eq!(&text[deps[0].value_span.start..deps[0].value_span.end], "18.2.0");
}

#[test]
fn zeddeps_links_and_replaces() {
    let dep = parse_manifest("{\"dependencies\":{\"a\":\"^1\"}}", Registry::Npm).remove(0);
    assert_eq!(Registry::Npm.package_url("a"), "https://www.npmjs.com/package/a");
    assert_eq!(Registry::Cargo.package_url("a"), "https://crates.io/crates/a");
    let latest = Version::parse("2.0.0").unwrap();
    assert_eq!(dep.replacement_for(&latest), Some("^2.0.0".to_string()));
    let dep = parse_manifest("{\"dependencies\":{\"a\":\">1\"}}", Registry::Npm).remove(0);
    assert_eq!(dep.replacement_for(&latest), None);
}

#[test]
fn zeddeps_hovers_say_what_is_known() {
    let dep = parse_manifest("{\"dependencies\":{\"a\":\"1\"}}", Registry::Npm).remove(0);
    let head = "**a**\n\n[Open in npm](https://www.npmjs.com/package/a)\n\nCurrent: `1`\n\n";
    assert_eq!(
        hover_markdown(&dep, Ok(&Version::parse("1.0.0"))),
        format!("{head}Latest stable: `1.0.0`\n\nAlready up to date.")
    );
    assert_eq!(
        hover_markdown(&dep, Ok(&None)),
        format!("{head}No stable registry version was found.")
    );
    assert_eq!(
        hover_markdown(&dep, Err(&"oops".to_string())),
        format!("{head}Could not check latest version: `oops`")
    );
}

#[test]
fn zeddeps_offers_fixes_and_diagnostics() {
    let dep = parse_manifest("{\"dependencies\":{\"a\":\"~1\"}}", Registry::Npm).remove(0);
    let fix = quick_fix(&dep, &Ok(Version::parse("2.0.0"))).unwrap();
    assert_eq!(fix.title, "Update a to 2.0.0");
    assert_eq!(fix.new_text, "~2.0.0");
    assert!(quick_fix(&dep, &Ok(Version::parse("1.0.0"))).is_none());
    assert!(quick_fix(&dep, &Err("x".to_string())).is_none());
    assert_eq!(
        diagnostic_message(&dep, &Ok(Version::parse("2.0.0"))),
        Some("a 2.0.0 is available".to_string())
    );
    assert_eq!(diagnostic_message(&dep, &Ok(None)), None);
}

#[test]
fn zeddeps_keeps_answers() {
    let mut client = RegistryClient::new();
    let dep = parse_manifest("{\"dependencies\":{\"@a/b\":\"1\"}}", Registry::Npm).remove(0);
    let Latest::Fetch(request) = client.latest_for(&dep, 0) else {
        panic!()
    };
    assert_eq!(request.url, "https://registry.npmjs.org/%40a%2Fb");
    let body = Body::Npm(NpmResponse {
        dist_tags: vec![],
        versions: vec!["1.5.0".to_string()],
    });
    let outcome = body_outcome(Registry::Npm, Ok(body), Some("t".to_string()));
    let result = client.record(&dep, outcome, 0);
    assert_eq!(result, Ok(Version::parse("1.5.0")));
    assert!(matches!(client.latest_for(&dep, 599_999_999_999), Latest::Known(Ok(Some(_)))));
    let Latest::Fetch(request) = client.latest_for(&dep, 600_000_000_000) else {
        panic!()
    };
    assert_eq!(request.etag, Some("t".to_string()));
    let result = client.record(&dep, FetchOutcome::NotModified, 600_000_000_000);
    assert_eq!(result, Ok(Version::parse("1.5.0")));
}

#[test]
fn zeddeps_reads_answers() {
    let body = Body::Crates(CratesResponse {
        versions: vec![CrateVersion {
            num: "0.1.0".to_string(),
            yanked: false,
        }],
    });
    assert_eq!(read_body(&body), Version::parse("0.1.0"));
    assert!(head_outcome(Registry::Cargo, 200, "200 OK", None).is_none());
    match unsent_outcome(Registry::Cargo, "x") {
        FetchOutcome::Fresh { result, .. } => {
            assert_eq!(result, Err("crates.io request failed: x".to_string()));
        }
        FetchOutcome::NotModified => panic!(),
    }
}

#[test]
fn zeddeps_documents_follow_the_editor() {
    let mut documents = Documents::new();
    assert!(did_open(&mut documents, "u", "/Cargo.toml", "[dependencies]\na = \"1\"".to_string()));
    assert!(did_change(&mut documents, "u", "/Cargo.toml", vec!["x".to_string()]));
    assert_eq!(documents.get("u").unwrap().text, "x");
    did_close(&mut documents, "u");
    assert!(documents.get("u").is_none());

    let document = Document {
        text: "[dependencies]\na = \"1\"".to_string(),
        kind: Registry::Cargo,
    };
    let dep = dependency_at(&document, Position { line: 1, character: 5 });
    assert_eq!(dep.unwrap().name, "a");
}

#[test]
fn diagnostics_of_the_smaller_server_follow_the_dependencies() {
    let deps = parse_manifest("[dependencies]\na = \"1\"\nb = \"2\"\n", Registry::Cargo);
    let known = vec![Ok(None), Ok(Some(Version::parse("2.0.1").unwrap()))];
    let found = diagnostics(&deps, &known);
    assert_eq!(found.len(), 1);
    assert_eq!(found[0].message, "b 2.0.1 is available");
    assert_eq!(found[0].span, deps[1].value_span);
}

#[test]
fn newest_versions_of_the_smaller_server_lose_their_metadata() {
    let versions = vec![CrateVersion { num: "1.2.3+build".to_string(), yanked: false }];
    assert_eq!(newest_stable_crate_version(&versions), Version::parse("1.2.3"));
    let tagged = NpmResponse {
        dist_tags: vec![("latest".to_string(), "1.2.3+build".to_string())],
        versions: vec!["1.2.4+other".to_string()],
    };
    assert_eq!(newest_stable_npm_version(&tagged), Version::parse("1.2.3"));
    let untagged = NpmResponse { dist_tags: Vec::new(), versions: tagged.versions };
    assert_eq!(newest_stable_npm_version(&untagged), Version::parse("1.2.4"));
}

#[test]
fn cargo_manifests_of_the_smaller_server_join() {
    let a = "[dependencies]\na = \"1\" # é\nw = { workspace = true }\n";
    let b = "[dev-dependencies]\nb = { version = \"2\" }\n";
    let mut expected = parse_cargo_manifest(a);
    for mut dep in parse_cargo_manifest(b) {
        dep.value_span.start += a.len();
        dep.value_span.end += a.len();
        expected.push(dep.clone());
    }
    assert_eq!(expected.len(), 2);
    assert_eq!(parse_cargo_manifest(&format!("{a}{b}")), expected);
}
