use zalezhnosti::extension::{
    installed_server, plan_download, platform_asset_name, server_binary_for_os, set_version,
    Architecture, Asset, Os,
};

#[test]
fn names_the_server() {
    assert_eq!(server_binary_for_os(Os::Windows), "zeddeps-lsp.exe");
    assert_eq!(server_binary_for_os(Os::Mac), "zeddeps-lsp");
    assert_eq!(server_binary_for_os(Os::Linux), "zeddeps-lsp");
}

#[test]
fn names_release_files() {
    assert_eq!(
        platform_asset_name(Os::Mac, Architecture::Aarch64),
        Ok("zeddeps-lsp-aarch64-apple-darwin".to_string())
    );
    assert_eq!(
        platform_asset_name(Os::Linux, Architecture::X8664),
        Ok("zeddeps-lsp-x86_64-unknown-linux-gnu".to_string())
    );
    assert_eq!(
        platform_asset_name(Os::Windows, Architecture::X8664),
        Ok("zeddeps-lsp-x86_64-pc-windows-msvc.exe".to_string())
    );
    assert_eq!(
        platform_asset_name(Os::Linux, Architecture::X86),
        Err("Unsupported platform architecture for zeddeps-lsp".to_string())
    );
}

#[test]
fn prefers_the_configured_server() {
    let some = |text: &str| Some(text.to_string());
    assert_eq!(installed_server(some("a"), some("b"), some("c")), some("a"));
    assert_eq!(installed_server(None, some("b"), some("c")), some("b"));
    assert_eq!(installed_server(None, None, some("c")), some("c"));
    assert_eq!(installed_server(None, None, None), None);
}

#[test]
fn plans_downloads() {
    let asset = |name: &str, url: &str| Asset {
        name: name.to_string(),
        download_url: url.to_string(),
    };
    let assets = vec![asset("a", "1"), asset("b", "2"), asset("b", "3")];
    let plan = plan_download(Os::Linux, "b", &assets, "v1").unwrap();
    assert_eq!(plan.url, "2");
    assert_eq!(plan.destination, "zeddeps-lsp/zeddeps-lsp");
    assert!(plan.make_executable);
    let plan = plan_download(Os::Windows, "a", &assets, "v1").unwrap();
    assert_eq!(plan.destination, "zeddeps-lsp/zeddeps-lsp.exe");
    assert!(!plan.make_executable);
    assert_eq!(
        plan_download(Os::Mac, "c", &assets, "v1").err(),
        Some("No c asset found for zeddeps-lsp release v1".to_string())
    );
}

#[test]
fn sets_the_version() {
    assert_eq!(
        set_version("id = \"x\"\r\nversion = \"0.1\"\n  version = 2\n", "1.2.3"),
        "id = \"x\"\nversion = \"1.2.3\"\n  version = 2\n"
    );
    assert_eq!(set_version("version = ", "1"), "version = \"1\"");
    assert_eq!(set_version("", "1"), "");
    assert_eq!(set_version("\n\n", "1"), "\n\n");
}
