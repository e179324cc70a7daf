use zalezhnosti::fetch::{body_failed, read_head, request_failed, request_url, Head};
use zalezhnosti::manifest::{build_dependency, Dependency, DependencyVersion, Registry};
use zalezhnosti::newest::{newest_of, read_stable_version};
use zalezhnosti::registry::{
    body_outcome, clean_npm_repo_url, head_outcome, is_stable, newest_stable_crate_version,
    newest_stable_npm_version, newest_stable_pypi_version, pypi_repository_url, read_body,
    unsent_outcome, Body, CrateInfo, CrateVersion, CratesResponse, FetchOutcome, Latest,
    LatestInfo, LatestResult, NpmRepository, NpmResponse, PypiInfo, PypiReleaseFile, PypiResponse,
    RegistryClient,
};
use zalezhnosti::version::{Pep440Version, Version};

const SECOND: u128 = 1_000_000_000;

fn crate_version(num: &str, yanked: bool) -> CrateVersion {
    CrateVersion {
        num: num.to_string(),
        yanked,
    }
}

fn pair(key: &str, value: &str) -> (String, String) {
    (key.to_string(), value.to_string())
}

fn release(version: &str, yanked: &[bool]) -> (String, Vec<PypiReleaseFile>) {
    (
        version.to_string(),
        yanked.iter().map(|yanked| PypiReleaseFile { yanked: *yanked }).collect(),
    )
}

fn dependency(name: &str, registry: Registry) -> Dependency {
    build_dependency(name.to_string(), "dependencies", registry, "1".to_string(), 0, 1)
}

fn info(version: &str) -> LatestInfo {
    LatestInfo {
        version: Some(DependencyVersion::Semver(Version::parse(version).unwrap())),
        repository_url: None,
    }
}

fn version_text(result: &LatestResult) -> String {
    result.as_ref().unwrap().version.as_ref().unwrap().to_text()
}

#[test]
fn cargo_latest_ignores_yanked_and_prerelease() {
    let versions = vec![
        CrateVersion {
            num: "2.0.0-alpha.1".to_string(),
            yanked: false,
        },
        CrateVersion {
            num: "1.9.0".to_string(),
            yanked: true,
        },
        CrateVersion {
            num: "1.8.0".to_string(),
            yanked: false,
        },
    ];
    assert_eq!(
        newest_stable_crate_version(&versions).map(DependencyVersion::Semver),
        Some(DependencyVersion::Semver(Version::parse("1.8.0").unwrap()))
    );
}

#[test]
fn npm_latest_falls_back_when_latest_is_prerelease() {
    let body = NpmResponse {
        dist_tags: vec![("latest".to_string(), "2.0.0-beta.1".to_string())],
        versions: vec![
            "1.0.0".to_string(),
            "1.2.0".to_string(),
            "2.0.0-beta.1".to_string(),
        ],
        repository: None,
    };
    assert_eq!(
        newest_stable_npm_version(&body).map(DependencyVersion::Semver),
        Some(DependencyVersion::Semver(Version::parse("1.2.0").unwrap()))
    );
}

#[test]
fn cleans_npm_repo_urls() {
    assert_eq!(
        clean_npm_repo_url("git+https://github.com/foo/bar.git"),
        Some("https://github.com/foo/bar.git".to_string())
    );
    assert_eq!(
        clean_npm_repo_url("git://github.com/foo/bar"),
        Some("https://github.com/foo/bar".to_string())
    );
    assert_eq!(
        clean_npm_repo_url("github:foo/bar"),
        Some("https://github.com/foo/bar".to_string())
    );
    assert_eq!(
        clean_npm_repo_url("https://github.com/foo/bar"),
        Some("https://github.com/foo/bar".to_string())
    );
}

#[test]
fn pypi_latest_ignores_yanked_and_prerelease() {
    let body = PypiResponse {
        info: PypiInfo {
            home_page: None,
            project_urls: None,
        },
        releases: vec![
            (
                "2.0.0rc1".to_string(),
                vec![PypiReleaseFile { yanked: false }],
            ),
            ("1.9.0".to_string(), vec![PypiReleaseFile { yanked: true }]),
            ("1.8.0".to_string(), vec![PypiReleaseFile { yanked: false }]),
        ],
    };

    assert_eq!(
        newest_stable_pypi_version(&body).map(DependencyVersion::Pep440),
        Some(DependencyVersion::Pep440(Pep440Version::parse("1.8.0").unwrap()))
    );
}

#[test]
fn picks_pypi_repository_url() {
    let info = PypiInfo {
        home_page: Some("https://example.com".to_string()),
        project_urls: Some(vec![(
            "Source".to_string(),
            "https://github.com/psf/requests".to_string(),
        )]),
    };

    assert_eq!(
        pypi_repository_url(&info),
        Some("https://github.com/psf/requests".to_string())
    );
}

// ---------------------------------------------------------------------------
// The newest version
// ---------------------------------------------------------------------------

#[test]
fn newest_compares_numbers() {
    let versions = vec![
        crate_version("1.9.0", false),
        crate_version("1.10.0", false),
        crate_version("1.2.30+build.7", false),
        crate_version("not a version", false),
    ];
    assert_eq!(newest_stable_crate_version(&versions).unwrap().to_text(), "1.10.0");
    assert_eq!(newest_stable_crate_version(&Vec::new()), None);
    assert_eq!(newest_stable_crate_version(&vec![crate_version("1.0.0", true)]), None);
}

#[test]
fn stable_versions_lose_their_metadata() {
    assert_eq!(read_stable_version("1.2.3+x").unwrap().to_text(), "1.2.3");
    assert_eq!(read_stable_version("1.2.3-x"), None);
    assert_eq!(read_stable_version("1.2"), None);
    assert!(is_stable(&Version::parse("1.2.3").unwrap()));
    assert!(!is_stable(&Version::parse("1.2.3-a").unwrap()));
}

#[test]
fn newest_versions_lose_their_metadata() {
    let newest = newest_stable_crate_version(&vec![crate_version("1.2.3+build", false)]).unwrap();
    assert_eq!(newest, Version::parse("1.2.3").unwrap());
    let mut body = NpmResponse {
        dist_tags: vec![pair("latest", "1.2.3+build")],
        versions: vec!["1.2.4+other".to_string()],
        repository: None,
    };
    assert_eq!(newest_stable_npm_version(&body), Version::parse("1.2.3"));
    body.dist_tags = vec![pair("latest", "1.2.3-a+build")];
    assert_eq!(newest_stable_npm_version(&body), Version::parse("1.2.4"));
}

#[test]
fn newest_passes_over_what_is_missing() {
    let candidates = vec![None, Version::parse("1.0.0"), None, Version::parse("0.9.9")];
    assert_eq!(newest_of(&candidates), Version::parse("1.0.0"));
    assert_eq!(newest_of(&vec![None]), None);
}

#[test]
fn prereleases_rank_below_their_release() {
    let v = |text: &str| Version::parse(text).unwrap();
    assert!(v("1.0.0").newer_than(&v("1.0.0-rc.1")));
    assert!(v("1.0.0-rc.2").newer_than(&v("1.0.0-rc.1")));
    assert!(!v("1.0.0").newer_than(&v("1.0.0")));
    assert!(v("1.0.1").newer_than(&v("1.0.0")));
    assert_eq!(v("1.0.0-rc.1+b").to_text(), "1.0.0-rc.1+b");
}

#[test]
fn npm_takes_the_tagged_version() {
    let body = NpmResponse {
        dist_tags: vec![pair("next", "3.0.0"), pair("latest", "1.5.0")],
        versions: vec!["2.0.0".to_string()],
        repository: None,
    };
    assert_eq!(newest_stable_npm_version(&body).unwrap().to_text(), "1.5.0");
}

#[test]
fn pypi_orders_python_versions() {
    let body = PypiResponse {
        info: PypiInfo {
            home_page: None,
            project_urls: None,
        },
        releases: vec![
            release("1.10", &[]),
            release("1.9.post1", &[true, false]),
            release("2.0.dev1", &[false]),
            release("2.0", &[true, true]),
            release("??", &[]),
        ],
    };
    assert_eq!(newest_stable_pypi_version(&body).unwrap().text, "1.10");
}

#[test]
fn python_versions_are_compared() {
    let v = |text: &str| Pep440Version::parse(text).unwrap();
    assert!(v("1.10").newer_than(&v("1.9")));
    assert!(v("1!0.1").newer_than(&v("2.0")));
    assert!(!v("1.0").newer_than(&v("1.0.0")));
    assert!(!v("1.0a1").stable);
    assert!(v("1.0.post1").stable);
    assert_eq!(v("V1.0-ALPHA").text, "1.0a0");
    assert_eq!(Pep440Version::parse("x"), None);
}

// ---------------------------------------------------------------------------
// Repositories
// ---------------------------------------------------------------------------

#[test]
fn cleans_gitlab_and_padded_urls() {
    assert_eq!(
        clean_npm_repo_url("  gitlab:foo/bar "),
        Some("https://gitlab.com/foo/bar".to_string())
    );
    assert_eq!(clean_npm_repo_url(""), Some(String::new()));
}

#[test]
fn project_urls_have_an_order() {
    let with = |pairs: Vec<(String, String)>, home: &str| {
        pypi_repository_url(&PypiInfo {
            home_page: Some(home.to_string()),
            project_urls: Some(pairs),
        })
    };
    assert_eq!(
        with(vec![pair("Home", "h"), pair("Code", "c"), pair("Repository", "r")], "x"),
        Some("r".to_string())
    );
    assert_eq!(
        with(vec![pair("Source", ""), pair("Source Code", "s")], "x"),
        Some("s".to_string())
    );
    assert_eq!(with(vec![pair("Homepage", "p"), pair("Home", "h")], "x"), Some("p".to_string()));
    assert_eq!(with(vec![pair("Docs", "d")], "x"), Some("x".to_string()));
    assert_eq!(with(vec![], ""), None);
}

// ---------------------------------------------------------------------------
// Requests and answers
// ---------------------------------------------------------------------------

#[test]
fn requests_encode_names() {
    assert_eq!(
        request_url(Registry::Cargo, "serde_json"),
        "https://crates.io/api/v1/crates/serde_json"
    );
    assert_eq!(
        request_url(Registry::Npm, "@types/node"),
        "https://registry.npmjs.org/%40types%2Fnode"
    );
    assert_eq!(
        request_url(Registry::Pypi, "a-\u{e9}"),
        "https://pypi.org/pypi/a%2D%C3%A9/json"
    );
}

#[test]
fn heads_are_told_apart() {
    assert!(matches!(read_head(Registry::Cargo, 304, "x"), Head::NotModified));
    assert!(matches!(read_head(Registry::Cargo, 200, "x"), Head::Body));
    assert!(matches!(read_head(Registry::Cargo, 299, "x"), Head::Body));
    for (registry, text) in [
        (Registry::Cargo, "crates.io returned 404 Not Found"),
        (Registry::Npm, "npm registry returned 404 Not Found"),
        (Registry::Pypi, "PyPI returned 404 Not Found"),
    ] {
        match read_head(registry, 404, "404 Not Found") {
            Head::Failed(reason) => assert_eq!(reason, text),
            _ => panic!(),
        }
    }
}

#[test]
fn failures_name_the_registry() {
    assert_eq!(request_failed(Registry::Cargo, "x"), "crates.io request failed: x");
    assert_eq!(request_failed(Registry::Npm, "x"), "npm registry request failed: x");
    assert_eq!(request_failed(Registry::Pypi, "x"), "PyPI request failed: x");
    assert_eq!(body_failed(Registry::Cargo, "x"), "crates.io response parse failed: x");
    assert_eq!(body_failed(Registry::Npm, "x"), "npm response parse failed: x");
    assert_eq!(body_failed(Registry::Pypi, "x"), "PyPI response parse failed: x");
}

#[test]
fn outcomes_carry_results_and_tags() {
    match unsent_outcome(Registry::Npm, "x") {
        FetchOutcome::Fresh { result, etag } => {
            assert_eq!(result.unwrap_err(), "npm registry request failed: x");
            assert_eq!(etag, None);
        }
        FetchOutcome::NotModified => panic!(),
    }
    assert!(matches!(
        head_outcome(Registry::Npm, 304, "", None),
        Some(FetchOutcome::NotModified)
    ));
    assert!(head_outcome(Registry::Npm, 200, "", None).is_none());
    match head_outcome(Registry::Npm, 500, "500 x", Some("t".to_string())) {
        Some(FetchOutcome::Fresh { result, etag }) => {
            assert_eq!(result.unwrap_err(), "npm registry returned 500 x");
            assert_eq!(etag, Some("t".to_string()));
        }
        _ => panic!(),
    }
    match body_outcome(Registry::Pypi, Err("x".to_string()), None) {
        FetchOutcome::Fresh { result, .. } => {
            assert_eq!(result.unwrap_err(), "PyPI response parse failed: x");
        }
        FetchOutcome::NotModified => panic!(),
    }
}

#[test]
fn bodies_become_answers() {
    let latest = read_body(&Body::Crates(CratesResponse {
        crate_info: CrateInfo {
            repository: Some(String::new()),
        },
        versions: vec![crate_version("1.0.0", false)],
    }));
    assert_eq!(latest.version.unwrap().to_text(), "1.0.0");
    assert_eq!(latest.repository_url, None);

    let latest = read_body(&Body::Npm(NpmResponse {
        dist_tags: vec![],
        versions: vec![],
        repository: Some(NpmRepository {
            url: Some("github:a/b".to_string()),
        }),
    }));
    assert_eq!(latest.version, None);
    assert_eq!(latest.repository_url, Some("https://github.com/a/b".to_string()));

    let latest = read_body(&Body::Pypi(PypiResponse {
        info: PypiInfo {
            home_page: Some("h".to_string()),
            project_urls: None,
        },
        releases: vec![release("1.0", &[false])],
    }));
    assert_eq!(latest.version.unwrap().to_text(), "1.0");
    assert_eq!(latest.repository_url, Some("h".to_string()));
}

// ---------------------------------------------------------------------------
// The cache
// ---------------------------------------------------------------------------

#[test]
fn answers_count_for_ten_minutes() {
    let mut client = RegistryClient::new();
    let dep = dependency("a", Registry::Cargo);
    let Latest::Fetch(request) = client.latest_for(&dep, 0) else {
        panic!()
    };
    assert_eq!(request.url, "https://crates.io/api/v1/crates/a");
    assert_eq!(request.etag, None);

    let outcome = FetchOutcome::Fresh {
        result: Ok(info("1.0.0")),
        etag: Some("tag".to_string()),
    };
    let result = client.record(&dep, outcome, 5 * SECOND);
    assert_eq!(version_text(&result), "1.0.0");

    let Latest::Known(result) = client.latest_for(&dep, 605 * SECOND - 1) else {
        panic!()
    };
    assert_eq!(version_text(&result), "1.0.0");
    let Latest::Fetch(request) = client.latest_for(&dep, 605 * SECOND) else {
        panic!()
    };
    assert_eq!(request.etag, Some("tag".to_string()));
}

#[test]
fn unchanged_answers_count_anew() {
    let mut client = RegistryClient::default();
    let dep = dependency("a", Registry::Npm);
    let outcome = FetchOutcome::Fresh {
        result: Ok(info("1.0.0")),
        etag: Some("tag".to_string()),
    };
    client.record(&dep, outcome, 0);
    let result = client.record(&dep, FetchOutcome::NotModified, 700 * SECOND);
    assert_eq!(version_text(&result), "1.0.0");
    assert!(matches!(client.latest_for(&dep, 1299 * SECOND), Latest::Known(_)));
    let Latest::Fetch(request) = client.latest_for(&dep, 1300 * SECOND) else {
        panic!()
    };
    assert_eq!(request.etag, Some("tag".to_string()));
}

#[test]
fn unchanged_answers_must_be_there() {
    let mut client = RegistryClient::new();
    let dep = dependency("a", Registry::Pypi);
    let result = client.record(&dep, FetchOutcome::NotModified, 0);
    assert_eq!(result.unwrap_err(), "Registry cache entry expired before refresh");
    let Latest::Known(result) = client.latest_for(&dep, 1) else {
        panic!()
    };
    assert_eq!(result.unwrap_err(), "Registry cache entry expired before refresh");
}

#[test]
fn answers_are_kept_by_registry_and_name() {
    let mut client = RegistryClient::new();
    let dep = dependency("a", Registry::Cargo);
    let outcome = FetchOutcome::Fresh {
        result: Err("x".to_string()),
        etag: None,
    };
    client.record(&dep, outcome, 0);
    assert!(matches!(client.latest_for(&dep, 0), Latest::Known(_)));
    assert!(matches!(
        client.latest_for(&dependency("a", Registry::Npm), 0),
        Latest::Fetch(_)
    ));
    assert!(matches!(
        client.latest_for(&dependency("b", Registry::Cargo), 0),
        Latest::Fetch(_)
    ));
}
