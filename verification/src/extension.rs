//! Which language server the editor extension runs, and where it comes from.

use crate::lines::{split_lines, text_lines};
use crate::text::{chars_of, same_text, starts_with, string_of};
use vstd::prelude::*;
use vstd::string::StringExecFns;

verus! {

/// Operating systems.
#[derive(Debug, Clone, Copy, PartialEq, Eq, Structural)]
pub enum Os {
    Mac,
    Linux,
    Windows,
}

/// Processor architectures.
#[derive(Debug, Clone, Copy, PartialEq, Eq, Structural)]
pub enum Architecture {
    Aarch64,
    X86,
    X8664,
}

/// The file name of the server.
pub open spec fn binary_name(os: Os) -> Seq<char> {
    match os {
        Os::Windows => "zeddeps-lsp.exe"@,
        _ => "zeddeps-lsp"@,
    }
}

/// The file name of the server.
pub fn server_binary_for_os(os: Os) -> (name: &'static str)
    ensures
        name@ == binary_name(os),
{
    match os {
        Os::Windows => "zeddeps-lsp.exe",
        _ => "zeddeps-lsp",
    }
}

/// What a platform is called in the names of release files, from the system on.
pub open spec fn system_name(os: Os) -> Seq<char> {
    match os {
        Os::Mac => "apple-darwin"@,
        Os::Linux => "unknown-linux-gnu"@,
        Os::Windows => "pc-windows-msvc"@,
    }
}

/// What an architecture is called in the names of release files; some have no
/// releases.
pub open spec fn architecture_name(arch: Architecture) -> Option<Seq<char>> {
    match arch {
        Architecture::Aarch64 => Some("aarch64"@),
        Architecture::X8664 => Some("x86_64"@),
        Architecture::X86 => None,
    }
}

/// The name of the release file for a platform, or why there is none.
pub open spec fn asset_name(os: Os, arch: Architecture) -> Result<Seq<char>, Seq<char>> {
    match architecture_name(arch) {
        Some(name) => {
            let stem = "zeddeps-lsp-"@ + name + "-"@ + system_name(os);
            Ok(
                if os == Os::Windows {
                    stem + ".exe"@
                } else {
                    stem
                },
            )
        },
        None => Err("Unsupported platform architecture for zeddeps-lsp"@),
    }
}

/// What a result over texts says.
pub open spec fn result_of(result: Result<String, String>) -> Result<Seq<char>, Seq<char>> {
    match result {
        Ok(text) => Ok(text@),
        Err(reason) => Err(reason@),
    }
}

/// Names the release file for a platform.
pub fn platform_asset_name(os: Os, arch: Architecture) -> (name: Result<String, String>)
    ensures
        result_of(name) == asset_name(os, arch),
{
    let arch_name = match arch {
        Architecture::Aarch64 => "aarch64",
        Architecture::X8664 => "x86_64",
        Architecture::X86 => {
            return Err("Unsupported platform architecture for zeddeps-lsp".to_string());
        },
    };
    let os_name = match os {
        Os::Mac => "apple-darwin",
        Os::Linux => "unknown-linux-gnu",
        Os::Windows => "pc-windows-msvc",
    };
    let mut name = "zeddeps-lsp-".to_string();
    name.append(arch_name);
    name.append("-");
    name.append(os_name);
    if os == Os::Windows {
        name.append(".exe");
    }
    Ok(name)
}

/// The first of some commands that there is.
pub open spec fn first_command(commands: Seq<Option<String>>) -> Option<String>
    decreases commands.len(),
{
    if commands.len() == 0 {
        None
    } else if commands[0] is Some {
        commands[0]
    } else {
        first_command(commands.skip(1))
    }
}

/// The server that is there already: the one that the user has set, else the one
/// under the platform's name, else the one under the plain name.
pub fn installed_server(
    configured: Option<String>,
    platform: Option<String>,
    plain: Option<String>,
) -> (command: Option<String>)
    ensures
        command == (if configured is Some {
            configured
        } else if platform is Some {
            platform
        } else {
            plain
        }),
        command == first_command(seq![configured, platform, plain]),
{
    proof {
        let all = seq![configured, platform, plain];
        reveal_with_fuel(first_command, 4);
        assert(all.skip(1) =~= seq![platform, plain]);
        assert(all.skip(1).skip(1) =~= seq![plain]);
        assert(all.skip(1).skip(1).skip(1) =~= Seq::<Option<String>>::empty());
    }
    if configured.is_some() {
        configured
    } else if platform.is_some() {
        platform
    } else {
        plain
    }
}

/// A file of a release.
pub struct Asset {
    pub name: String,
    pub download_url: String,
}

/// The first file of that name, from `from` on.
pub open spec fn asset_named(assets: Seq<Asset>, name: Seq<char>, from: int) -> Option<Asset>
    decreases assets.len() - from,
{
    if from < 0 || from >= assets.len() {
        None
    } else if assets[from].name@ == name {
        Some(assets[from])
    } else {
        asset_named(assets, name, from + 1)
    }
}

/// What to download, to where, and whether it must be made executable.
pub struct Download {
    pub url: String,
    pub destination: String,
    pub make_executable: bool,
}

/// What a [`Download`] says.
#[verifier::ext_equal]
pub struct DownloadView {
    pub url: Seq<char>,
    pub destination: Seq<char>,
    pub make_executable: bool,
}

impl View for Download {
    type V = DownloadView;

    open spec fn view(&self) -> DownloadView {
        DownloadView {
            url: self.url@,
            destination: self.destination@,
            make_executable: self.make_executable,
        }
    }
}

/// What to download of a release, or why nothing can be.
pub open spec fn download_of(
    os: Os,
    name: Seq<char>,
    assets: Seq<Asset>,
    version: Seq<char>,
) -> Result<DownloadView, Seq<char>> {
    match asset_named(assets, name, 0) {
        Some(asset) => Ok(
            DownloadView {
                url: asset.download_url@,
                destination: "zeddeps-lsp/"@ + binary_name(os),
                make_executable: os != Os::Windows,
            },
        ),
        None => Err("No "@ + name + " asset found for zeddeps-lsp release "@ + version),
    }
}

/// Finds what to download of a release.
pub fn plan_download(os: Os, name: &str, assets: &Vec<Asset>, version: &str) -> (plan: Result<
    Download,
    String,
>)
    ensures
        (match plan {
            Ok(d) => Ok(d@),
            Err(reason) => Err(reason@),
        }) == download_of(os, name@, assets@, version@),
{
    let mut i: usize = 0;
    while i < assets.len()
        invariant
            i <= assets@.len(),
            asset_named(assets@, name@, 0) == asset_named(assets@, name@, i as int),
        decreases assets@.len() - i,
    {
        if same_text(assets[i].name.as_str(), name) {
            let mut destination = "zeddeps-lsp/".to_string();
            destination.append(server_binary_for_os(os));
            let make_executable = match os {
                Os::Windows => false,
                _ => true,
            };
            return Ok(
                Download { url: assets[i].download_url.clone(), destination, make_executable },
            );
        }
        i += 1;
    }
    let mut reason = "No ".to_string();
    reason.append(name);
    reason.append(" asset found for zeddeps-lsp release ");
    reason.append(version);
    Err(reason)
}

// ---------------------------------------------------------------------------
// The version of the extension
// ---------------------------------------------------------------------------

/// A line of the extension's manifest, with the version in its place.
pub open spec fn versioned_line(line: Seq<char>, version: Seq<char>) -> Seq<char> {
    if "version = "@.is_prefix_of(line) {
        "version = \""@ + version + "\""@
    } else {
        line
    }
}

/// Lines with the version in its place, joined by line feeds.
pub open spec fn versioned_lines(lines: Seq<Seq<char>>, version: Seq<char>) -> Seq<char>
    decreases lines.len(),
{
    if lines.len() == 0 {
        Seq::empty()
    } else if lines.len() == 1 {
        versioned_line(lines[0], version)
    } else {
        versioned_lines(lines.drop_last(), version).push('\n') + versioned_line(
            lines.last(),
            version,
        )
    }
}

/// The extension's manifest with the version in its place; a line feed at the end
/// stays.
pub open spec fn versioned(content: Seq<char>, version: Seq<char>) -> Seq<char> {
    let text = versioned_lines(text_lines(content, 0), version);
    if content.len() > 0 && content.last() == '\n' {
        text.push('\n')
    } else {
        text
    }
}

/// Puts a version into the extension's manifest.
pub fn set_version(content: &str, version: &str) -> (text: String)
    ensures
        text@ == versioned(content@, version@),
{
    let chars = chars_of(content);
    let lines = split_lines(chars.as_slice());
    let ghost whole = text_lines(content@, 0);
    let mut text = String::new();
    let mut i: usize = 0;
    assert(whole.take(0) =~= Seq::<Seq<char>>::empty());
    assert(text@ =~= Seq::<char>::empty());
    while i < lines.len()
        invariant
            i <= lines@.len(),
            whole == text_lines(content@, 0),
            lines@.len() == whole.len(),
            forall|k: int| 0 <= k < lines@.len() ==> (#[trigger] lines@[k])@ == whole[k],
            text@ == versioned_lines(whole.take(i as int), version@),
        decreases lines@.len() - i,
    {
        let line = lines[i];
        assert(line@ == whole[i as int]);
        assert(whole.take(i + 1).drop_last() =~= whole.take(i as int));
        assert(whole.take(i + 1).last() == line@);
        let ghost before = text@;
        if i > 0 {
            text.push('\n');
        }
        if starts_with(line, "version = ") {
            text.append("version = \"");
            text.append(version);
            text.append("\"");
        } else {
            let same = string_of(line);
            text.append(same.as_str());
        }
        assert(text@ =~= (if i > 0 {
            before.push('\n')
        } else {
            Seq::<char>::empty()
        }) + versioned_line(line@, version@));
        i += 1;
    }
    assert(whole.take(i as int) =~= whole);
    let n: usize = chars.len();
    if n > 0 && chars[n - 1] == '\n' {
        text.push('\n');
    }
    text
}

} // verus!
