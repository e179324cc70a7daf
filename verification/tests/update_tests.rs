use zalezhnosti::manifest::{parse_manifest, Dependency, DependencyVersion, ManifestKind, Span};
use zalezhnosti::server::is_outdated;
use zalezhnosti::python_update::repin;
use zalezhnosti::update::{reads_as_written, rewrite, update_dependency};
use zalezhnosti::version::{Pep440Version, Version};
use zalezhnosti::zeddeps;

fn semver(text: &str) -> DependencyVersion {
    DependencyVersion::Semver(Version::parse(text).unwrap())
}

fn pep440(text: &str) -> DependencyVersion {
    DependencyVersion::Pep440(Pep440Version::parse(text).unwrap())
}

fn versions(deps: &[Dependency]) -> Vec<(String, String)> {
    deps.iter()
        .map(|dep| (dep.name.clone(), dep.current.clone()))
        .collect()
}

fn span_texts<'a>(text: &'a str, deps: &[Dependency]) -> Vec<&'a str> {
    deps.iter()
        .map(|dep| &text[dep.value_span.start..dep.value_span.end])
        .collect()
}

const CARGO: &str = r#"
[dependencies]
serde = "1.0" # stable
tokio = { version = "^1.35", features = ["rt"] }
shared = { workspace = true }

[dev-dependencies]
größe = "~1"
"#;

#[test]
fn updated_cargo_manifests_read_back() {
    let latest = semver("12.0.345");
    let before = parse_manifest(CARGO, ManifestKind::Cargo);
    let after = update_dependency(CARGO, ManifestKind::Cargo, 1, &latest).unwrap();
    assert_eq!(after, CARGO.replace("^1.35", "^12.0.345"));
    let deps = parse_manifest(&after, ManifestKind::Cargo);
    assert_eq!(deps.len(), before.len());
    assert_eq!(deps[1].current, "^12.0.345");
    assert_eq!(deps[1].current_version, Some(latest.clone()));
    assert!(deps[1].can_edit);
    assert!(!is_outdated(&deps[1], &latest));
    for (i, dep) in deps.iter().enumerate() {
        if i != 1 {
            assert_eq!(dep.name, before[i].name);
            assert_eq!(dep.current, before[i].current);
            let moved = if before[i].value_span.start > before[1].value_span.start { 4 } else { 0 };
            assert_eq!(dep.value_span.start, before[i].value_span.start + moved);
            assert_eq!(dep.value_span.end, before[i].value_span.end + moved);
        }
    }
}

#[test]
fn updated_npm_manifests_read_back() {
    let text = r#"{
  "name": "demo",
  "version": "1.0.0",
  "dependencies": { "react": "^18.2.0", "left-pad": "1.3.0" },
  "devDependencies": { "@types/node": "~20.1.0" }
}"#;
    let latest = semver("9.0.0");
    let after = update_dependency(text, ManifestKind::PackageJson, 0, &latest).unwrap();
    assert_eq!(after, text.replace("^18.2.0", "^9.0.0"));
    let deps = parse_manifest(&after, ManifestKind::PackageJson);
    assert_eq!(
        versions(&deps),
        vec![
            ("react".to_string(), "^9.0.0".to_string()),
            ("left-pad".to_string(), "1.3.0".to_string()),
            ("@types/node".to_string(), "~20.1.0".to_string()),
        ]
    );
    assert_eq!(span_texts(&after, &deps), vec!["^9.0.0", "1.3.0", "~20.1.0"]);
}

#[test]
fn updates_replace_versions_with_escapes() {
    let latest = semver("2.0.0");
    let text = r#"{"dependencies": {"a": "\u0031.0", "b": "3"}}"#;
    let after = update_dependency(text, ManifestKind::PackageJson, 0, &latest).unwrap();
    assert_eq!(after, r#"{"dependencies": {"a": "2.0.0", "b": "3"}}"#);
    let text = "[dependencies]\na = { version = \"\\u0031,\", x = 1 }\nb = \"\\u0031\" # 1\n";
    let deps = parse_manifest(text, ManifestKind::Cargo);
    assert_eq!(
        versions(&deps),
        vec![("a".to_string(), "1,".to_string()), ("b".to_string(), "1".to_string())]
    );
    let after = update_dependency(text, ManifestKind::Cargo, 1, &latest).unwrap();
    assert_eq!(
        after,
        "[dependencies]\na = { version = \"\\u0031,\", x = 1 }\nb = \"2.0.0\" # 1\n"
    );
}

#[test]
fn updates_pin_python_requirements() {
    let text = "httpx==0.26.0\nrequests>=2,<3 ; python_version > '3.8'\n";
    let after =
        update_dependency(text, ManifestKind::Requirements, 1, &pep440("3.0.1")).unwrap();
    assert_eq!(after, "httpx==0.26.0\nrequests==3.0.1 ; python_version > '3.8'\n");
}

fn check_pinned(text: &str, kind: ManifestKind, index: usize, version: &str, expected: &str) {
    let latest = pep440(version);
    let pin = format!("=={version}");
    let before = parse_manifest(text, kind);
    let after = update_dependency(text, kind, index, &latest).unwrap();
    assert_eq!(after, expected);
    let deps = parse_manifest(&after, kind);
    assert_eq!(deps.len(), before.len());
    assert_eq!(deps[index].name, before[index].name);
    assert_eq!(deps[index].section, before[index].section);
    assert_eq!(deps[index].current, pin);
    assert_eq!(deps[index].python_specifiers, Some(vec![pin.clone()]));
    assert!(!is_outdated(&deps[index], &latest));
    let span = &before[index].value_span;
    let grown = pin.len() as i64 - (span.end as i64 - span.start as i64);
    for (i, dep) in deps.iter().enumerate() {
        if i != index {
            let moved = if i > index { grown } else { 0 };
            assert_eq!(dep.current, before[i].current);
            assert_eq!(dep.value_span.start as i64, before[i].value_span.start as i64 + moved);
            assert_eq!(dep.value_span.end as i64, before[i].value_span.end as i64 + moved);
        }
    }
}

#[test]
fn pinned_requirements_read_back() {
    let text = "größe==1\na (>=1, <2)  # one\nb[c] ~= 1.0 ; os_name == 'x'\n-r d.txt\ne>1\r\n";
    check_pinned(
        text,
        ManifestKind::Requirements,
        0,
        "3.0.1",
        "größe==1\na (==3.0.1)  # one\nb[c] ~= 1.0 ; os_name == 'x'\n-r d.txt\ne>1\r\n",
    );
    check_pinned(
        text,
        ManifestKind::Requirements,
        1,
        "1!2.0+local.1",
        "größe==1\na (>=1, <2)  # one\nb[c] ==1!2.0+local.1 ; os_name == 'x'\n-r d.txt\ne>1\r\n",
    );
    check_pinned(
        text,
        ManifestKind::Requirements,
        2,
        "2.0",
        "größe==1\na (>=1, <2)  # one\nb[c] ~= 1.0 ; os_name == 'x'\n-r d.txt\ne==2.0\r\n",
    );
}

#[test]
fn pinned_project_files_read_back() {
    let text = "# größe\n[project]\ndependencies = [ # \"\n  \"a>=1,<2 ; os_name == 'x'\", 'b == 1',\n  # don't\n  \
                'c<3',\n]\n\n[build-system]\nrequires = [\"d~=4.0\"]\n";
    let pins = [
        (0, "a>=1,<2 ;", "a==10.0 ;"),
        (1, "'b == 1'", "'b ==10.0'"),
        (2, "'c<3'", "'c==10.0'"),
        (3, "\"d~=4.0\"", "\"d==10.0\""),
    ];
    for (index, old, new) in pins {
        check_pinned(text, ManifestKind::Pyproject, index, "10.0", &text.replace(old, new));
    }
}

#[test]
fn pinned_requirements_keep_their_escapes() {
    let text = "[project]\ndependencies = [\"a>=1; os_name < \\\"x\\\"\", 'b\\', \"c<2 ; os_name == '\\u0061'\"]\n";
    check_pinned(
        text,
        ManifestKind::Pyproject,
        0,
        "10.0",
        &text.replace("a>=1;", "a==10.0;"),
    );
    check_pinned(text, ManifestKind::Pyproject, 1, "1", &text.replace("c<2 ;", "c==1 ;"));
    let text = "[project]\ndependencies = [\"a>=\\u0031\"]\n";
    assert_eq!(parse_manifest(text, ManifestKind::Pyproject).len(), 1);
    assert_eq!(update_dependency(text, ManifestKind::Pyproject, 0, &pep440("10.0")), None);
}

#[test]
fn updates_write_only_what_is_read_again() {
    let odd = DependencyVersion::Pep440(Pep440Version { text: "1 2".to_string(), stable: true });
    assert_eq!(update_dependency("a==1\n", ManifestKind::Requirements, 0, &odd), None);
    let text = "[project]\ndependencies = ['a==1']\n";
    assert_eq!(update_dependency(text, ManifestKind::Pyproject, 0, &odd), None);
    let odd = Version { major: 1, minor: 2, patch: 3, pre: "\"".to_string(), build: String::new() };
    let text = "[dependencies]\na = \"1\"\n";
    let none = zeddeps::update::update_dependency(
        text,
        zeddeps::manifest::Registry::Cargo,
        0,
        &odd,
    );
    assert_eq!(none, None);
    let odd = DependencyVersion::Semver(odd);
    assert_eq!(update_dependency(text, ManifestKind::Cargo, 0, &odd), None);
    assert!(reads_as_written("^1.2.3"));
    assert!(!reads_as_written("\\u0031"));
    assert_eq!(repin("a >= 1 ; os_name == 'x'", "==2"), "a ==2 ; os_name == 'x'");
}

#[test]
fn updates_leave_what_cannot_be_rewritten() {
    let text = "[dependencies]\na = \">=1, <2\"\nb = \"1\"\n";
    let latest = semver("3.0.0");
    assert_eq!(update_dependency(text, ManifestKind::Cargo, 0, &latest), None);
    assert_eq!(update_dependency(text, ManifestKind::Cargo, 2, &latest), None);
    assert_eq!(update_dependency(text, ManifestKind::Cargo, 1, &pep440("3.0")), None);
    assert_eq!(
        update_dependency(text, ManifestKind::Cargo, 1, &latest).as_deref(),
        Some("[dependencies]\na = \">=1, <2\"\nb = \"3.0.0\"\n")
    );
}

#[test]
fn rewriting_replaces_bytes() {
    assert_eq!(rewrite("größe 1.0", &Span { start: 8, end: 11 }, "2"), "größe 2");
    assert_eq!(rewrite("abc", &Span { start: 3, end: 3 }, "d"), "abcd");
}

#[test]
fn updated_manifests_of_the_smaller_server_read_back() {
    let text = "[dependencies]\nserde = \"1\"\nlog = { version = \"0.4\" }\n";
    let latest = Version::parse("1.0.200").unwrap();
    let after = zeddeps::update::update_dependency(
        text,
        zeddeps::manifest::Registry::Cargo,
        0,
        &latest,
    )
    .unwrap();
    assert_eq!(after, "[dependencies]\nserde = \"1.0.200\"\nlog = { version = \"0.4\" }\n");
    let deps = zeddeps::manifest::parse_manifest(&after, zeddeps::manifest::Registry::Cargo);
    assert_eq!(deps[0].current_version, Some(latest));
    assert_eq!(deps[1].current, "0.4");
    assert_eq!(deps[1].value_span, Span { start: 52, end: 55 });
    let none = zeddeps::update::update_dependency(
        text,
        zeddeps::manifest::Registry::Npm,
        0,
        &Version::parse("1.0.0").unwrap(),
    );
    assert_eq!(none, None);
}
