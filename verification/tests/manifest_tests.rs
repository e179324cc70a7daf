use zalezhnosti::manifest::{
    build_dependency, build_workspace_dependency, detect_manifest_kind, is_requirements_file,
    parse_cargo_manifest, parse_lenient_version, parse_manifest, parse_package_json,
    parse_pyproject_manifest, parse_requirements_manifest, requirements_include_paths,
    strip_semver_metadata, Dependency, DependencyVersion, ManifestKind, Registry, Span,
};
use zalezhnosti::version::{Pep440Version, Version};

fn names(deps: &[Dependency]) -> Vec<&str> {
    deps.iter().map(|dep| dep.name.as_str()).collect::<Vec<_>>()
}

fn semver(text: &str) -> DependencyVersion {
    DependencyVersion::Semver(Version::parse(text).unwrap())
}

fn pep440(text: &str) -> DependencyVersion {
    DependencyVersion::Pep440(Pep440Version::parse(text).unwrap())
}

#[test]
fn parses_cargo_string_and_inline_versions() {
    let text = r#"
[dependencies]
serde = "1.0"
tokio = { version = "^1.35", features = ["rt"] }
local = { path = "../local" }
gitdep = { git = "https://example.com/repo", version = "1.0" }

[dev-dependencies]
pretty_assertions = "~1"
"#;

    let deps = parse_cargo_manifest(text);
    assert_eq!(
        deps.iter().map(|dep| dep.name.as_str()).collect::<Vec<_>>(),
        vec!["serde", "tokio", "pretty_assertions"]
    );
    assert_eq!(deps[1].prefix, "^");
    assert_eq!(
        &text[deps[0].value_span.start..deps[0].value_span.end],
        "1.0"
    );
}

#[test]
fn parses_package_json_dependency_sections() {
    let text = r#"{
  "dependencies": {
    "react": "^18.2.0",
    "@types/node": "~20.0.0",
    "local": "file:../local"
  },
  "optionalDependencies": {
    "left-pad": "1"
  }
}"#;

    let deps = parse_package_json(text);
    assert_eq!(
        deps.iter().map(|dep| dep.name.as_str()).collect::<Vec<_>>(),
        vec!["react", "@types/node", "left-pad"]
    );
    assert_eq!(
        &text[deps[0].value_span.start..deps[0].value_span.end],
        "^18.2.0"
    );
    assert_eq!(deps[0].prefix, "^");
}

#[test]
fn parses_pyproject_dependency_sections() {
    let text = r#"
[build-system]
requires = ["hatchling>=1.24"]

[project]
dependencies = [
  "requests>=2,<3; python_version >= '3.10'",
  "httpx[http2]==0.27.0",
  "unversioned",
  "direct @ https://example.com/direct.whl",
]

[project.optional-dependencies]
dev = ["pytest~=8.0"]
"#;

    let deps = parse_pyproject_manifest(text);

    assert_eq!(
        deps.iter().map(|dep| dep.name.as_str()).collect::<Vec<_>>(),
        vec!["hatchling", "requests", "httpx", "pytest"]
    );
    assert_eq!(deps[1].section, "project.dependencies");
    assert_eq!(deps[3].section, "project.optional-dependencies.dev");
    assert_eq!(
        &text[deps[1].value_span.start..deps[1].value_span.end],
        ">=2,<3"
    );
    assert_eq!(
        &text[deps[2].value_span.start..deps[2].value_span.end],
        "==0.27.0"
    );
    assert!(deps.iter().all(|dep| dep.registry == Registry::Pypi));
}

#[test]
fn parses_requirements_safe_subset_and_ignores_pip_options() {
    let text = r#"
--index-url https://example.com/simple
-r dev.txt
-c constraints.txt
requests>=2,<3 # comment
httpx[http2]==0.27.0; python_version >= "3.10"
-e ../local
git+https://example.com/pkg.git
unversioned
"#;

    let deps = parse_requirements_manifest(text);

    assert_eq!(
        deps.iter().map(|dep| dep.name.as_str()).collect::<Vec<_>>(),
        vec!["requests", "httpx"]
    );
    assert_eq!(
        &text[deps[0].value_span.start..deps[0].value_span.end],
        ">=2,<3"
    );
    assert_eq!(
        &text[deps[1].value_span.start..deps[1].value_span.end],
        "==0.27.0"
    );
    assert_eq!(
        requirements_include_paths(text),
        vec!["dev.txt".to_string(), "constraints.txt".to_string()]
    );
}

#[test]
fn marks_complex_ranges_as_non_editable() {
    let dep = build_dependency(
        "example".to_string(),
        "dependencies",
        Registry::Npm,
        ">=1 <2".to_string(),
        0,
        6,
    );
    assert!(!dep.can_edit);
    assert_eq!(dep.current_version, None);
}

#[test]
fn parses_workspace_dependencies_section() {
    let text = r#"
[workspace.dependencies]
serde = "1.0"
tokio = { version = "1.35", features = ["rt"] }

[dependencies]
local = { workspace = true }
"#;
    let deps = parse_cargo_manifest(text);
    assert_eq!(
        deps.iter().map(|dep| dep.name.as_str()).collect::<Vec<_>>(),
        vec!["serde", "tokio", "local"]
    );
    assert!(deps[2].is_workspace);
    assert_eq!(deps[2].current, "workspace = true");
    assert!(!deps[2].can_edit);
}

#[test]
fn parses_dotted_workspace_key() {
    let text = r#"
[dependencies]
serde.workspace = true
"#;
    let deps = parse_cargo_manifest(text);
    assert_eq!(deps.len(), 1);
    assert_eq!(deps[0].name, "serde");
    assert!(deps[0].is_workspace);
    assert_eq!(deps[0].current, "workspace = true");
}

// ---------------------------------------------------------------------------
// Kinds of manifest
// ---------------------------------------------------------------------------

#[test]
fn detects_kinds_by_file_name() {
    assert_eq!(detect_manifest_kind("Cargo.toml"), Some(ManifestKind::Cargo));
    assert_eq!(detect_manifest_kind("/a/b/Cargo.toml"), Some(ManifestKind::Cargo));
    assert_eq!(detect_manifest_kind("C:\\a\\package.json"), Some(ManifestKind::PackageJson));
    assert_eq!(detect_manifest_kind("x/pyproject.toml"), Some(ManifestKind::Pyproject));
    assert_eq!(detect_manifest_kind("x/requirements.txt"), Some(ManifestKind::Requirements));
    assert_eq!(detect_manifest_kind("requirements-dev.txt"), Some(ManifestKind::Requirements));
    assert_eq!(detect_manifest_kind("dev.requirements.txt"), Some(ManifestKind::Requirements));
    assert_eq!(detect_manifest_kind("requirements.md"), None);
    assert_eq!(detect_manifest_kind("MyCargo.toml"), None);
    assert_eq!(detect_manifest_kind("Cargo.toml/"), None);
    assert_eq!(detect_manifest_kind(""), None);
}

#[test]
fn requirements_files_have_three_forms() {
    let is = |name: &str| is_requirements_file(&name.chars().collect::<Vec<_>>());
    assert!(is("requirements.txt"));
    assert!(is("requirements_test.txt"));
    assert!(is("a.requirements.txt"));
    assert!(!is("my-requirements.txt"));
    assert!(!is("requirements"));
}

#[test]
fn links_to_package_pages() {
    assert_eq!(Registry::Cargo.package_url("serde"), "https://crates.io/crates/serde");
    assert_eq!(Registry::Npm.package_url("@a/b"), "https://www.npmjs.com/package/@a/b");
    assert_eq!(Registry::Pypi.package_url("requests"), "https://pypi.org/project/requests/");
}

// ---------------------------------------------------------------------------
// Cargo manifests
// ---------------------------------------------------------------------------

#[test]
fn reads_all_cargo_sections_and_no_others() {
    let text = "[package]\nversion = \"9.9.9\"\n[build-dependencies]\r\ncc = \"1\"\r\n\
                [dependencies]  # here\na = '2'\nb = \"3\"\n[[bin]]\nc = \"4\"\n[features]\nd = \"5\"\n";
    let deps = parse_cargo_manifest(text);
    assert_eq!(names(&deps), vec!["cc", "b"]);
    assert_eq!(deps[0].section, "build-dependencies");
    assert_eq!(deps[1].section, "dependencies");
    assert_eq!(deps[1].current, "3");
    assert_eq!(
        deps[1].value_span,
        Span {
            start: text.find("\"3\"").unwrap() + 1,
            end: text.find("\"3\"").unwrap() + 2,
        }
    );
}

#[test]
fn counts_spans_in_bytes() {
    let text = "# é ü\n[dependencies]\n\"née\" = \"1.2\" # ö\n";
    let deps = parse_cargo_manifest(text);
    assert_eq!(names(&deps), vec!["née"]);
    assert_eq!(&text[deps[0].value_span.start..deps[0].value_span.end], "1.2");
}

#[test]
fn reads_escapes_in_strings() {
    let text = "[dependencies]\na = \"\\u0031.0\"\n\"b\\\"c\" = \"2\"\nd = \"bad\\q\"\n";
    let deps = parse_cargo_manifest(text);
    assert_eq!(names(&deps), vec!["a", "b\"c"]);
    assert_eq!(deps[0].current, "1.0");
    assert_eq!(&text[deps[0].value_span.start..deps[0].value_span.end], "\\u0031.0");
}

#[test]
fn ignores_comments_and_hashes_in_strings() {
    let text = "[dependencies]\n# a = \"1\"\nb = \"2\" # = \"3\"\nc = \"#4\"\n";
    let deps = parse_cargo_manifest(text);
    assert_eq!(names(&deps), vec!["b", "c"]);
    assert_eq!(deps[1].current, "#4");
    assert!(!deps[1].can_edit);
}

#[test]
fn passes_over_other_sources() {
    let text = "[dependencies]\na = { registry = \"x\", version = \"1\" }\n\
                b = { version = \"1\", path = \"../b\" }\nc = { features = [\"x\"] }\n\
                d = 5\ne\n= \"1\"\nf = { version = 1.5 }\n";
    let deps = parse_cargo_manifest(text);
    assert_eq!(names(&deps), vec!["f"]);
    assert_eq!(deps[0].current, "1.5");
}

#[test]
fn reads_workspace_references_in_tables() {
    let text = "[dependencies]\na = { workspace = true, features = [\"x\"] }\n\
                b = { workspace = false, version = \"1\" }\n.workspace = true\nc.workspace = false\n";
    let deps = parse_cargo_manifest(text);
    assert_eq!(names(&deps), vec!["a", "b"]);
    assert!(deps[0].is_workspace);
    assert_eq!(&text[deps[0].value_span.start..deps[0].value_span.end], "true");
    assert!(!deps[1].is_workspace);
    assert_eq!(deps[1].current, "1");
}

#[test]
fn builds_workspace_dependencies() {
    let dep = build_workspace_dependency("a".to_string(), "dependencies", 3, 7);
    assert_eq!(dep.registry, Registry::Cargo);
    assert_eq!(dep.value_span, Span { start: 3, end: 7 });
    assert_eq!(dep.prefix, "");
    assert_eq!(dep.current_version, None);
    assert_eq!(dep.python_specifiers, None);
}

// ---------------------------------------------------------------------------
// npm manifests
// ---------------------------------------------------------------------------

#[test]
fn reads_npm_sections_in_their_order() {
    let text = r#"{ "optionalDependencies": { "d": "4" }, "peerDependencies": { "c": "3" },
        "devDependencies": { "b": "2" }, "dependencies": { "a": "1" } }"#;
    let deps = parse_package_json(text);
    assert_eq!(names(&deps), vec!["a", "b", "c", "d"]);
    assert_eq!(deps[1].section, "devDependencies");
}

#[test]
fn reads_only_the_outermost_object() {
    let text = r#"{ "x": { "dependencies": { "a": "1" } }, "dependencies": 5 }"#;
    assert!(parse_package_json(text).is_empty());
    assert!(parse_package_json("").is_empty());
    assert!(parse_package_json(r#"{ "dependencies": { "a": "1" "#).is_empty());
}

#[test]
fn reads_sections_behind_a_colon_only() {
    let text = r#"{"name":"dependencies","dependencies":{"react":"18.2.0"}}"#;
    let deps = parse_package_json(text);
    assert_eq!(names(&deps), vec!["react"]);
    assert_eq!(deps[0].current, "18.2.0");
    let text = r#"{"files":["dependencies"],"keywords":"devDependencies",
        "devDependencies" : {"a":"1"},"dependencies"
        :{"b":"2"}}"#;
    assert_eq!(names(&parse_package_json(text)), vec!["b", "a"]);
}

#[test]
fn passes_over_npm_addresses() {
    let text = r#"{ "dependencies": { "a": "FILE:x", "b": "link:x", "c": "workspace:*",
        "d": "git:x", "e": "git+ssh:x", "f": "github:x", "g": "http:x", "h": "HTTPS:x",
        "i": "npm:x@1", "j": "owner/repo", "k": "@scope/x", "l": "*" } }"#;
    assert_eq!(names(&parse_package_json(text)), vec!["k", "l"]);
}

#[test]
fn stops_at_a_name_without_a_string() {
    let text = r#"{ "dependencies": { "a": "1", "b": 2 }, "devDependencies": { "c": "3" } }"#;
    assert_eq!(names(&parse_package_json(text)), vec!["a", "c"]);
}

// ---------------------------------------------------------------------------
// Python manifests
// ---------------------------------------------------------------------------

#[test]
fn reads_project_files_with_literal_strings_and_comments() {
    let text = "[project]\ndependencies = [ # all of them\n  'a>=1', # one\n  \"b==2\",\n]\n\
                [tool.x]\ndependencies = [\"c==3\"]\n[project.optional-dependencies]\n\
                \"two words\" = ['d<4']\n[build-system]\nbackend = [\"e==5\"]\n";
    let deps = parse_pyproject_manifest(text);
    assert_eq!(names(&deps), vec!["a", "b", "d"]);
    assert_eq!(deps[2].section, "project.optional-dependencies.two words");
    assert_eq!(&text[deps[2].value_span.start..deps[2].value_span.end], "<4");
}

#[test]
fn passes_over_comments_in_lists() {
    let text = "[project]\ndependencies = [\n  # don't bump\n  \"requests>=2\",\n]\n";
    let deps = parse_pyproject_manifest(text);
    assert_eq!(names(&deps), vec!["requests"]);
    assert_eq!(deps[0].current, ">=2");
    let text = "[project]\ndependencies = [ # [ \"x==1\"\n  'a==1', # ] 'y==2'\n  \"b==2\" # \"\n]\n\
                [build-system]\nrequires = [\"c==3 # d\"]\n";
    assert_eq!(names(&parse_pyproject_manifest(text)), vec!["a", "b"]);
}

#[test]
fn places_plain_strings_beside_escapes() {
    let text = "[project]\ndependencies = [\"\\u0061==1\", \"b>=2\", 'c\\d', 'e<3']\n";
    let deps = parse_pyproject_manifest(text);
    assert_eq!(names(&deps), vec!["a", "b", "e"]);
    assert_eq!(&text[deps[1].value_span.start..deps[1].value_span.end], ">=2");
    assert_eq!(&text[deps[2].value_span.start..deps[2].value_span.end], "<3");
}

#[test]
fn leaves_parentheses_around_specifiers() {
    let text = "a (==1)\nb (>=1, <2) ; os_name == 'x'\n";
    let deps = parse_requirements_manifest(text);
    assert_eq!(deps[0].current, "==1");
    assert_eq!(&text[deps[0].value_span.start..deps[0].value_span.end], "==1");
    assert_eq!(deps[1].current, ">=1, <2");
    assert_eq!(&text[deps[1].value_span.start..deps[1].value_span.end], ">=1, <2");
}

#[test]
fn reads_large_numbers_that_have_no_successor() {
    let max = "18446744073709551615";
    for marker in [
        format!("os_name == '{max}'"),
        format!("python_version == '3' and os_name == '{max}'"),
        format!("python_version < '1844674407370955161'"),
        format!("python_version>='x{max}'"),
        format!("python_version == 'x.{max}'"),
        format!("python_version == '{max}'"),
        format!("python_version >= '{max}'"),
        format!("python_version in '3 {max}'"),
        format!("python_full_version == '3.{max}'"),
        format!("python_full_version > '3.{max}'"),
        format!("python_full_version >= '3.{max}.*'"),
        format!("'{max}' < python_full_version"),
    ] {
        let line = format!("a>=1;{marker}");
        assert_eq!(names(&parse_requirements_manifest(&line)), vec!["a"], "{line}");
    }
}

#[test]
fn passes_over_numbers_whose_successor_is_taken() {
    let max = "18446744073709551615";
    for marker in [
        format!("python_version == '3.{max}'"),
        format!("'3.{max}' == python_version"),
        format!("python_version > '3.{max}'"),
        format!("python_version in '3.{max}'"),
        format!("python_full_version == '{max}.*'"),
        format!("python_full_version ~= '{max}.1'"),
    ] {
        let line = format!("a>=1;{marker}");
        assert!(parse_requirements_manifest(&line).is_empty(), "{line}");
    }
}

#[test]
fn passes_over_unclosed_lists() {
    assert!(parse_pyproject_manifest("[project]\ndependencies = [\"a==1\"\n").is_empty());
    assert!(parse_pyproject_manifest("[project]\ndependencies = \"a==1\"\n").is_empty());
    assert!(parse_pyproject_manifest("dependencies = [\"a==1\"]\n").is_empty());
}

#[test]
fn reads_python_names_and_specifiers() {
    let deps = parse_requirements_manifest("My.Package [b, a] >= 1.0 , != 1.5 ; os_name == 'x'\n");
    assert_eq!(names(&deps), vec!["my-package"]);
    assert_eq!(deps[0].current, ">= 1.0 , != 1.5");
    assert_eq!(
        deps[0].python_specifiers,
        Some(vec![">=1.0".to_string(), "!=1.5".to_string()])
    );
    assert_eq!(deps[0].prefix, "==");
    assert_eq!(deps[0].section, "requirements");
    assert!(deps[0].can_edit);
    assert_eq!(deps[0].current_version, None);
}

#[test]
fn passes_over_requirements_that_cannot_be_read() {
    for line in [
        "a",
        "a ; os_name == 'x'",
        "a @ https://example.com/a.whl",
        "a-==1",
        "a[b-]==1",
        "a[b==1",
        "a==",
        "a=1",
        "-a==1",
        "./a==1",
        "a==1 b",
        "a==1; ",
        "a==1; os_name",
        "a==1; os_name == 'x' \u{e9}",
        "a==1; os_name == 'x' and\u{e9}",
        "a==1; 'x' ~= os_name",
        "a==1; (os_name == 'x'",
        "a==1; os_name == 'x')",
        "a==1; os_name == \"x",
        "a==1; os_name not 'x'",
        "a==1; unknown == 'x'",
        "\u{e9}==1",
    ] {
        assert!(parse_requirements_manifest(line).is_empty(), "{line}");
    }
}

#[test]
fn reads_requirements_with_markers() {
    for line in [
        "a==1; os_name == 'x'",
        "a==1;os_name=='x'",
        "a==1; 'x' in os_name",
        "a==1; 'x' not  in os_name",
        "a==1; python_version ~= '3.8'",
        "a==1; '3.8' ~= python_version",
        "a==1; (os_name == 'x' or (os_name == \"y\")) and extra == 'z'",
        "a==1; platform_version == '\u{e9}'",
        "a (==1)",
        "a[b.c]==1",
        "  a==1  ",
        "a\t==\t1",
    ] {
        let deps = parse_requirements_manifest(line);
        assert_eq!(names(&deps), vec!["a"], "{line}");
    }
}

#[test]
fn keeps_hashes_that_begin_no_comment() {
    let text = "a==1#b\nc==2 #d\n'e' # f\ng==3 \\# h\n#i==4\n";
    let deps = parse_requirements_manifest(text);
    assert_eq!(names(&deps), vec!["c"]);
    assert_eq!(deps[0].current, "==2");
}

#[test]
fn lists_included_files() {
    let text = "--requirement  a.txt # x\n--constraint b.txt\r\n-r\n-rc.txt\n  -c  d e.txt  \n-x f\n";
    assert_eq!(
        requirements_include_paths(text),
        vec!["a.txt".to_string(), "b.txt".to_string(), "d e.txt".to_string()]
    );
    assert!(requirements_include_paths("").is_empty());
}

#[test]
fn dispatches_on_the_kind() {
    assert_eq!(parse_manifest("[dependencies]\na = \"1\"", ManifestKind::Cargo).len(), 1);
    assert_eq!(
        parse_manifest("{\"dependencies\":{\"a\":\"1\"}}", ManifestKind::PackageJson).len(),
        1
    );
    assert_eq!(
        parse_manifest("[project]\ndependencies = ['a==1']", ManifestKind::Pyproject).len(),
        1
    );
    assert_eq!(parse_manifest("a==1", ManifestKind::Requirements).len(), 1);
}

// ---------------------------------------------------------------------------
// Versions and replacements
// ---------------------------------------------------------------------------

#[test]
fn strips_build_metadata() {
    assert_eq!(strip_semver_metadata("1.0.0+a+b"), "1.0.0");
    assert_eq!(strip_semver_metadata("1.0.0"), "1.0.0");
    assert_eq!(strip_semver_metadata("+"), "");
}

#[test]
fn reads_lenient_versions() {
    let read = |text: &str| parse_lenient_version(text).map(|v| v.to_text());
    assert_eq!(read("1"), Some("1.0.0".to_string()));
    assert_eq!(read("=1.2"), Some("1.2.0".to_string()));
    assert_eq!(read("== 1.2.3 "), Some("1.2.3".to_string()));
    assert_eq!(read("1.2.3+meta"), Some("1.2.3".to_string()));
    assert_eq!(read("1.2.3-rc"), None);
    assert_eq!(read("1.2.3.4"), None);
    assert_eq!(read("1..2"), None);
    assert_eq!(read("01.2"), None);
    assert_eq!(read("18446744073709551615"), Some("18446744073709551615.0.0".to_string()));
    assert_eq!(read("18446744073709551616"), None);
    assert_eq!(read(""), None);
    assert_eq!(read("^1"), None);
}

#[test]
fn replaces_versions_behind_their_operator() {
    let dep = |current: &str| {
        build_dependency(
            "a".to_string(),
            "dependencies",
            Registry::Cargo,
            current.to_string(),
            0,
            0,
        )
    };
    let latest = semver("2.10.0");
    assert_eq!(dep("1").replacement_for(&latest), Some("2.10.0".to_string()));
    assert_eq!(dep("^1.2").replacement_for(&latest), Some("^2.10.0".to_string()));
    assert_eq!(dep("~1.2.3").replacement_for(&latest), Some("~2.10.0".to_string()));
    assert_eq!(dep("=1.2").replacement_for(&latest), None);
    assert_eq!(dep("1.x").replacement_for(&latest), None);
    assert_eq!(dep("1").replacement_for(&pep440("2")), None);
}

#[test]
fn pins_python_versions() {
    let dep = parse_requirements_manifest("a>=1,<2").remove(0);
    assert_eq!(dep.replacement_for(&pep440("v2.0-RC1")), Some("==2.0rc1".to_string()));
    assert_eq!(dep.replacement_for(&semver("2.0.0")), None);
}

#[test]
fn update_leaves_nothing_to_do() {
    let dep = parse_cargo_manifest("[dependencies]\na = \"^1.2\"\n").remove(0);
    let text = dep.replacement_for(&semver("3.4.5")).unwrap();
    let manifest = format!("[dependencies]\na = \"{text}\"\n");
    let updated = parse_cargo_manifest(&manifest).remove(0);
    assert_eq!(updated.current_version, Some(semver("3.4.5")));
    assert_eq!(updated.prefix, "^");
    assert!(updated.can_edit);
}

#[test]
fn versions_are_equal_that_are_written_differently() {
    assert_eq!(pep440("1.0"), pep440("1.0.0"));
    assert_eq!(pep440("1.0"), pep440("v1.0"));
    assert_ne!(pep440("1.0"), pep440("1.0.1"));
    assert_ne!(pep440("1.0"), pep440("1.0a1"));
    assert_ne!(pep440("1.0"), pep440("1.0.post1"));
    assert_eq!(Pep440Version::parse("2").unwrap(), Pep440Version::parse("2.0.0").unwrap());
    assert_ne!(pep440("1.0.0"), semver("1.0.0"));
}

#[test]
fn dependencies_are_copied() {
    for dep in parse_requirements_manifest("a>=1.0,<2\nb==3\n") {
        assert_eq!(dep.clone(), dep);
    }
    for dep in parse_cargo_manifest("[dependencies]\na = \"^1.2\"\nb = { workspace = true }\n") {
        assert_eq!(dep.clone(), dep);
    }
}

fn assert_joins(kind: ManifestKind, a: &str, b: &str) {
    let mut expected = parse_manifest(a, kind);
    for mut dep in parse_manifest(b, kind) {
        dep.value_span.start += a.len();
        dep.value_span.end += a.len();
        expected.push(dep);
    }
    assert_eq!(parse_manifest(&format!("{a}{b}"), kind), expected);
}

#[test]
fn requirements_files_join() {
    let a = "größe==1 # ö\nb>=2,<3\n";
    let b = "# more\nc==4\n-r other.txt\nd~=5.0";
    assert_joins(ManifestKind::Requirements, a, b);
    assert_eq!(parse_requirements_manifest(b).len(), 2);
}

#[test]
fn cargo_manifests_join() {
    let a = "[package]\nname = \"ö\"\n[dependencies]\na = \"1\" # é\n";
    let b = " [dev-dependencies]\nb = { version = \"2\" }\n[workspace.dependencies]\nc = \"3\"\n";
    assert_joins(ManifestKind::Cargo, a, b);
    assert_eq!(names(&parse_cargo_manifest(&format!("{a}{b}"))), vec!["a", "b", "c"]);
}
