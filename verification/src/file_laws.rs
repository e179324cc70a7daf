//! Which files are manifests, which files they refer to, and which files the extension
//! needs.

use crate::documents::{changed, changed_by, opened, DocumentView};
use crate::extension::{
    asset_name, asset_named, binary_name, download_of, first_command, versioned, versioned_line,
    versioned_lines, Architecture, Asset, DownloadView, Os,
};
use crate::joined::lemma_line_second;
use crate::laws::lemma_file_name;
use crate::lines::{lemma_line_end, line_end, text_lines, without_terminator};
use crate::manifest::{is_path_separator, manifest_dependencies, manifest_kind, ManifestKind};
use crate::markers::is_gap;
use crate::python::{
    in_quotes, included_path, included_paths, is_space_at, line_directive, line_requirement,
    requirements_entries, starts_comment, without_requirement_comment,
};
use crate::python_laws::{is_line_ending, is_trailer, lemma_one_line, lemma_trimmed_lead};
use crate::references::names_file;
use crate::requirement::is_quotation_mark;
use crate::scan::escaped_at;
use crate::server::{document_kind, is_referrer};
use crate::text::{
    contains_text, first_index, is_whitespace, lemma_first_index, lemma_index_of, trimmed,
};
use crate::written::lemma_trimmed_gap;
use vstd::prelude::*;

verus! {

// ---------------------------------------------------------------------------
// Kinds of manifest
// ---------------------------------------------------------------------------

/// A directory, with the separator behind it, or none.
pub open spec fn is_directory_part(directory: Seq<char>) -> bool {
    directory.len() == 0 || is_path_separator(directory.last())
}

/// A name of a file.
pub open spec fn is_file_name(name: Seq<char>) -> bool {
    forall|i: int| 0 <= i < name.len() ==> !is_path_separator(#[trigger] name[i])
}

/// In whatever directory, files of three names are manifests of Cargo, npm and Python
/// projects, and no others are.
pub proof fn known_names_are_manifests(directory: Seq<char>, name: Seq<char>)
    requires
        is_directory_part(directory),
        is_file_name(name),
    ensures
        manifest_kind(directory + name) == Some(ManifestKind::Cargo) <==> name == "Cargo.toml"@,
        manifest_kind(directory + name) == Some(ManifestKind::PackageJson) <==> name
            == "package.json"@,
        manifest_kind(directory + name) == Some(ManifestKind::Pyproject) <==> name
            == "pyproject.toml"@,
{
    lemma_file_name(directory, name);
    reveal_strlit("Cargo.toml");
    reveal_strlit("package.json");
    reveal_strlit("pyproject.toml");
    assert("Cargo.toml"@[0] == 'C');
    assert("package.json"@[1] == 'a');
    assert("pyproject.toml"@[1] == 'y');
}

/// In whatever directory, a text file whose name begins with the word requirements, or
/// has it before its ending, lists requirements; no file of another name does.
pub proof fn requirements_files_are_manifests(
    directory: Seq<char>,
    name: Seq<char>,
    part: Seq<char>,
)
    requires
        is_directory_part(directory),
        is_file_name(name),
    ensures
        name == "requirements"@ + part + ".txt"@ ==> manifest_kind(directory + name) == Some(
            ManifestKind::Requirements,
        ),
        name == part + ".requirements.txt"@ ==> manifest_kind(directory + name) == Some(
            ManifestKind::Requirements,
        ),
        manifest_kind(directory + name) == Some(ManifestKind::Requirements) ==> (
        "requirements"@.is_prefix_of(name) || ".requirements.txt"@.is_suffix_of(name))
            && ".txt"@.is_suffix_of(name),
{
    lemma_file_name(directory, name);
    reveal_strlit("Cargo.toml");
    reveal_strlit("package.json");
    reveal_strlit("pyproject.toml");
    reveal_strlit("requirements");
    reveal_strlit("requirements.txt");
    reveal_strlit(".requirements.txt");
    reveal_strlit(".txt");
    let n = name.len() as int;
    if name == "requirements"@ + part + ".txt"@ {
        assert(name.take(12) =~= "requirements"@);
        assert(name.subrange(n - 4, n) =~= ".txt"@);
        assert(name[0] == 'r');
        assert("Cargo.toml"@[0] == 'C');
        assert("package.json"@[0] == 'p');
        assert("pyproject.toml"@[0] == 'p');
    }
    if name == part + ".requirements.txt"@ {
        assert(name.subrange(n - 17, n) =~= ".requirements.txt"@);
        assert(name[n - 1] == 't');
        assert("Cargo.toml"@.last() == 'l');
        assert("package.json"@.last() == 'n');
        assert("pyproject.toml"@.last() == 'l');
    }
    if name == "requirements.txt"@ {
        assert(name.take(12) =~= "requirements"@);
        assert(name.subrange(n - 4, n) =~= ".txt"@);
    }
    if ".requirements.txt"@.is_suffix_of(name) {
        let end = name.subrange(n - 17, n);
        assert(end == ".requirements.txt"@);
        assert(name.subrange(n - 4, n) =~= end.subrange(13, 17));
        assert(end.subrange(13, 17) =~= ".txt"@);
    }
}

// ---------------------------------------------------------------------------
// References
// ---------------------------------------------------------------------------

/// Neither a quotation mark nor a backslash nor a number sign.
pub open spec fn is_bare_text(text: Seq<char>) -> bool {
    forall|i: int|
        0 <= i < text.len() ==> !is_quotation_mark(#[trigger] text[i]) && text[i] != '\\' && text[i]
            != '#'
}

/// No place is between quotation marks where there are none.
proof fn lemma_unquoted(s: Seq<char>, i: int)
    requires
        0 <= i <= s.len(),
        forall|k: int| 0 <= k < i ==> !is_quotation_mark(#[trigger] s[k]),
    ensures
        !in_quotes(s, i),
    decreases i,
{
    if i > 0 {
        lemma_unquoted(s, i - 1);
        assert(!is_quotation_mark(s[i - 1]));
    }
}

/// What is left of a line without the blanks and the comment.
proof fn lemma_bare_line(lead: Seq<char>, r: Seq<char>, trailer: Seq<char>, gap: Seq<char>)
    requires
        is_gap(lead),
        r.len() > 0,
        is_bare_text(r),
        !is_whitespace(r[0]),
        !is_whitespace(r.last()),
        is_trailer(trailer, gap),
    ensures
        trimmed(without_requirement_comment(lead + r + trailer)) == r,
{
    let line = lead + r + trailer;
    let l = lead.len() as int;
    let n = (lead + r).len() as int;
    let q = n + gap.len();
    let p = starts_comment(line);
    assert forall|k: int| 0 <= k < q implies !is_quotation_mark(#[trigger] line[k]) && line[k]
        != '\\' && line[k] != '#' by {
        if k < l {
            assert(line[k] == lead[k]);
        } else if k < n {
            assert(line[k] == r[k - l]);
        } else {
            assert(line[k] == trailer[k - n]);
            assert(gap[k - n] == trailer[k - n]);
        }
    }
    assert forall|k: int| n <= k < q implies is_whitespace(#[trigger] line[k]) by {
        assert(line[k] == trailer[k - n]);
        assert(gap[k - n] == trailer[k - n]);
    }
    assert(line[n - 1] == r.last());
    lemma_first_index(p, 0, line.len() as int);
    assert forall|k: int| 0 <= k < q implies !(#[trigger] p(k)) by {
        assert(line[k] != '#');
    }
    if trailer != gap {
        lemma_unquoted(line, q);
        assert(line[q] == trailer[gap.len() as int]);
        assert(is_whitespace(line[q - 1]));
        assert(line[q - 1] != '\\');
        assert(!escaped_at(line, 0, q));
        assert(p(q));
        assert(first_index(p, 0, line.len() as int) == Some(q));
        lemma_trimmed_gap(line.take(q), n);
        assert(line.take(q).take(n) =~= lead + r);
        lemma_trimmed_lead(lead, r);
        lemma_trimmed_gap(r, r.len() as int);
        assert(r.take(r.len() as int) =~= r);
    } else {
        assert(first_index(p, 0, line.len() as int) is None);
        assert(line =~= lead + (r + gap));
        assert((r + gap)[0] == r[0]);
        assert forall|k: int| r.len() <= k < (r + gap).len() implies is_whitespace(
            #[trigger] (r + gap)[k],
        ) by {
            assert((r + gap)[k] == gap[k - r.len()]);
        }
        lemma_trimmed_lead(lead, r + gap);
        lemma_trimmed_gap(r + gap, r.len() as int);
        assert((r + gap).take(r.len() as int) =~= r);
    }
}

/// A word without blanks.
pub open spec fn is_word(word: Seq<char>) -> bool {
    word.len() > 0 && forall|i: int| 0 <= i < word.len() ==> !is_whitespace(#[trigger] word[i])
}

/// The words that refer to another file, of requirements or of constraints.
pub open spec fn is_reference_word(word: Seq<char>) -> bool {
    word == "-r"@ || word == "--requirement"@ || word == "-c"@ || word == "--constraint"@
}

/// The first word of a line, and what stands behind it.
proof fn lemma_directive(
    lead: Seq<char>,
    word: Seq<char>,
    between: Seq<char>,
    value: Seq<char>,
    trailer: Seq<char>,
    gap: Seq<char>,
)
    requires
        is_gap(lead),
        is_word(word),
        is_bare_text(word),
        is_gap(between),
        between.len() > 0,
        value.len() > 0,
        is_bare_text(value),
        !is_whitespace(value[0]),
        !is_whitespace(value.last()),
        is_trailer(trailer, gap),
    ensures
        line_directive(lead + (word + between + value) + trailer) == (word, value),
{
    let r = word + between + value;
    let w = word.len() as int;
    let b = w + between.len();
    assert(r[0] == word[0]);
    assert(r.last() == value.last());
    assert forall|i: int| 0 <= i < r.len() implies !is_quotation_mark(#[trigger] r[i]) && r[i]
        != '\\' && r[i] != '#' by {
        if i < w {
            assert(r[i] == word[i]);
        } else if i < b {
            assert(r[i] == between[i - w]);
        } else {
            assert(r[i] == value[i - b]);
        }
    }
    lemma_bare_line(lead, r, trailer, gap);
    let p = is_space_at(r);
    lemma_first_index(p, 0, r.len() as int);
    assert(r[w] == between[0]);
    assert(p(w));
    assert forall|k: int| 0 <= k < w implies !(#[trigger] p(k)) by {
        assert(r[k] == word[k]);
    }
    assert(first_index(p, 0, r.len() as int) == Some(w));
    assert(r.take(w) =~= word);
    assert(r.skip(w) =~= between + value);
    lemma_trimmed_lead(between, value);
    lemma_trimmed_gap(value, value.len() as int);
    assert(value.take(value.len() as int) =~= value);
}

/// A line of a requirements file that begins with one of the words for it refers to the
/// file that it names, whatever blanks and comment stand around; one that begins with
/// another word refers to none.
pub proof fn lines_refer_to_files(
    lead: Seq<char>,
    word: Seq<char>,
    between: Seq<char>,
    path: Seq<char>,
    trailer: Seq<char>,
    gap: Seq<char>,
)
    requires
        is_gap(lead),
        is_word(word),
        is_bare_text(word),
        is_gap(between),
        between.len() > 0,
        path.len() > 0,
        is_bare_text(path),
        !is_whitespace(path[0]),
        !is_whitespace(path.last()),
        is_trailer(trailer, gap),
    ensures
        included_path(lead + (word + between + path) + trailer) == (if is_reference_word(word) {
            Some(path)
        } else {
            None
        }),
{
    lemma_directive(lead, word, between, path, trailer, gap);
}

/// A line with a single word refers to no file.
pub proof fn words_alone_refer_to_nothing(
    lead: Seq<char>,
    word: Seq<char>,
    trailer: Seq<char>,
    gap: Seq<char>,
)
    requires
        is_gap(lead),
        is_word(word),
        is_bare_text(word),
        is_trailer(trailer, gap),
    ensures
        included_path(lead + word + trailer) is None,
{
    assert(!is_whitespace(word[0]));
    assert(!is_whitespace(word[word.len() - 1]));
    lemma_bare_line(lead, word, trailer, gap);
    let p = is_space_at(word);
    lemma_first_index(p, 0, word.len() as int);
    assert forall|k: int| 0 <= k < word.len() implies !(#[trigger] p(k)) by {
        assert(!is_whitespace(word[k]));
    }
}

/// A line of a requirements file that names a file or an address makes no dependency.
pub proof fn paths_make_nothing(
    lead: Seq<char>,
    path: Seq<char>,
    trailer: Seq<char>,
    gap: Seq<char>,
    ending: Seq<char>,
)
    requires
        is_gap(lead),
        path.len() > 0,
        is_bare_text(path),
        !is_whitespace(path[0]),
        !is_whitespace(path.last()),
        forall|i: int| 0 <= i < path.len() ==> #[trigger] path[i] != '\n' && path[i] != '\r',
        path[0] == '.' || path[0] == '/' || contains_text(path, "://"@) || "git+"@.is_prefix_of(
            path,
        ) || "file:"@.is_prefix_of(path),
        is_trailer(trailer, gap),
        is_line_ending(ending),
    ensures
        manifest_dependencies(lead + path + trailer + ending, ManifestKind::Requirements).len()
            == 0,
{
    let line = lead + path + trailer;
    lemma_bare_line(lead, path, trailer, gap);
    assert forall|i: int| 0 <= i < line.len() implies #[trigger] line[i] != '\n' && line[i]
        != '\r' by {
        if i < lead.len() {
            assert(line[i] == lead[i]);
        } else if i < (lead + path).len() {
            assert(line[i] == path[i - lead.len()]);
        } else {
            assert(line[i] == trailer[i - (lead + path).len()]);
        }
    }
    lemma_one_line(line, ending);
    assert(line_requirement(line) is None);
    reveal_with_fuel(requirements_entries, 2);
}

/// The files that lines refer to come in the order of the lines, each as its line says.
pub proof fn references_come_in_order(lines: Seq<Seq<char>>, line: Seq<char>)
    ensures
        included_paths(Seq::empty()).len() == 0,
        included_path(line) matches Some(path) ==> included_paths(lines.push(line))
            == included_paths(lines).push(path),
        included_path(line) is None ==> included_paths(lines.push(line)) == included_paths(lines),
{
    assert(lines.push(line).drop_last() =~= lines);
}

// ---------------------------------------------------------------------------
// Documents
// ---------------------------------------------------------------------------

/// A document that no open requirements file refers to is a manifest by its name, or
/// none.
pub proof fn unreferenced_files_go_by_name(
    documents: Map<Seq<char>, DocumentView<ManifestKind>>,
    uri: Seq<char>,
    path: Seq<char>,
)
    requires
        forall|base: Seq<char>, i: int|
            documents.dom().contains(base) && documents[base].kind == ManifestKind::Requirements
                ==> !#[trigger] names_file(
                base,
                included_paths(text_lines(documents[base].text, 0)),
                i,
                uri,
            ),
    ensures
        document_kind(documents, uri, path) == manifest_kind(path),
{
    if exists|from: Seq<char>| is_referrer(documents, from, uri) {
        let from = choose|from: Seq<char>| is_referrer(documents, from, uri);
        let paths = included_paths(text_lines(documents[from].text, 0));
        let i = choose|i: int| #[trigger] names_file(from, paths, i, uri);
        assert(names_file(from, paths, i, uri));
    }
}

/// Of several changes of a document the last one counts; its kind is the one that it
/// was opened with. A document of no kind is not kept.
pub proof fn last_change_counts<K>(
    documents: Map<Seq<char>, DocumentView<K>>,
    uri: Seq<char>,
    kind: K,
    text: Seq<char>,
    later_kind: Option<K>,
    later_text: Seq<char>,
)
    ensures
        ({
            let open = opened(documents, uri, Some(kind), text);
            let after = changed(open, uri, later_kind, later_text);
            &&& open.dom().contains(uri) && open[uri].text == text && open[uri].kind == kind
            &&& after.dom().contains(uri) && after[uri].text == later_text && after[uri].kind
                == kind
            &&& after == opened(documents, uri, Some(kind), later_text)
        }),
        opened(documents, uri, None::<K>, text) == documents,
{
    let open = opened(documents, uri, Some(kind), text);
    assert(changed(open, uri, later_kind, later_text) =~= opened(
        documents,
        uri,
        Some(kind),
        later_text,
    ));
}

/// Of several texts that come at once the last one counts; without one, nothing changes.
pub proof fn last_text_counts<K>(
    documents: Map<Seq<char>, DocumentView<K>>,
    uri: Seq<char>,
    kind: Option<K>,
    texts: Seq<String>,
    text: String,
)
    ensures
        changed_by(documents, uri, kind, texts.push(text)) == changed(documents, uri, kind, text@),
        changed_by(documents, uri, kind, Seq::empty()) == documents,
{
}

// ---------------------------------------------------------------------------
// The server
// ---------------------------------------------------------------------------

/// Every system on a processor of sixty-four bits has a release of its own; other
/// processors have none.
pub proof fn platforms_have_their_releases()
    ensures
        asset_name(Os::Mac, Architecture::Aarch64) == Ok::<Seq<char>, Seq<char>>(
            "zeddeps-lsp-aarch64-apple-darwin"@,
        ),
        asset_name(Os::Mac, Architecture::X8664) == Ok::<Seq<char>, Seq<char>>(
            "zeddeps-lsp-x86_64-apple-darwin"@,
        ),
        asset_name(Os::Linux, Architecture::Aarch64) == Ok::<Seq<char>, Seq<char>>(
            "zeddeps-lsp-aarch64-unknown-linux-gnu"@,
        ),
        asset_name(Os::Linux, Architecture::X8664) == Ok::<Seq<char>, Seq<char>>(
            "zeddeps-lsp-x86_64-unknown-linux-gnu"@,
        ),
        asset_name(Os::Windows, Architecture::Aarch64) == Ok::<Seq<char>, Seq<char>>(
            "zeddeps-lsp-aarch64-pc-windows-msvc.exe"@,
        ),
        asset_name(Os::Windows, Architecture::X8664) == Ok::<Seq<char>, Seq<char>>(
            "zeddeps-lsp-x86_64-pc-windows-msvc.exe"@,
        ),
        forall|os: Os| #[trigger] asset_name(os, Architecture::X86) is Err,
        binary_name(Os::Windows) == "zeddeps-lsp.exe"@,
        binary_name(Os::Mac) == "zeddeps-lsp"@,
        binary_name(Os::Linux) == "zeddeps-lsp"@,
{
    reveal_strlit("zeddeps-lsp-");
    reveal_strlit("aarch64");
    reveal_strlit("x86_64");
    reveal_strlit("-");
    reveal_strlit("apple-darwin");
    reveal_strlit("unknown-linux-gnu");
    reveal_strlit("pc-windows-msvc");
    reveal_strlit(".exe");
    reveal_strlit("zeddeps-lsp-aarch64-apple-darwin");
    reveal_strlit("zeddeps-lsp-x86_64-apple-darwin");
    reveal_strlit("zeddeps-lsp-aarch64-unknown-linux-gnu");
    reveal_strlit("zeddeps-lsp-x86_64-unknown-linux-gnu");
    reveal_strlit("zeddeps-lsp-aarch64-pc-windows-msvc.exe");
    reveal_strlit("zeddeps-lsp-x86_64-pc-windows-msvc.exe");
    assert(asset_name(Os::Mac, Architecture::Aarch64)->Ok_0
        =~= "zeddeps-lsp-aarch64-apple-darwin"@);
    assert(asset_name(Os::Mac, Architecture::X8664)->Ok_0 =~= "zeddeps-lsp-x86_64-apple-darwin"@);
    assert(asset_name(Os::Linux, Architecture::Aarch64)->Ok_0
        =~= "zeddeps-lsp-aarch64-unknown-linux-gnu"@);
    assert(asset_name(Os::Linux, Architecture::X8664)->Ok_0
        =~= "zeddeps-lsp-x86_64-unknown-linux-gnu"@);
    assert(asset_name(Os::Windows, Architecture::Aarch64)->Ok_0
        =~= "zeddeps-lsp-aarch64-pc-windows-msvc.exe"@);
    assert(asset_name(Os::Windows, Architecture::X8664)->Ok_0
        =~= "zeddeps-lsp-x86_64-pc-windows-msvc.exe"@);
}

/// Of the commands for the server the first one is taken, wherever it stands among them.
pub proof fn first_command_is_taken(commands: Seq<Option<String>>, i: int)
    requires
        0 <= i <= commands.len(),
        i < commands.len() ==> commands[i] is Some,
        forall|j: int| 0 <= j < i ==> (#[trigger] commands[j]) is None,
    ensures
        first_command(commands) == (if i < commands.len() {
            commands[i]
        } else {
            None
        }),
    decreases i,
{
    if i > 0 {
        assert(commands[0] is None);
        let rest = commands.skip(1);
        assert forall|j: int| 0 <= j < i - 1 implies (#[trigger] rest[j]) is None by {
            assert(rest[j] == commands[j + 1]);
        }
        if i < commands.len() {
            assert(rest[i - 1] == commands[i]);
        }
        first_command_is_taken(rest, i - 1);
    }
}

/// The first file with a name is found.
proof fn lemma_asset(assets: Seq<Asset>, name: Seq<char>, from: int, i: int)
    requires
        0 <= from <= i <= assets.len(),
        i < assets.len() ==> assets[i].name@ == name,
        forall|j: int| from <= j < i ==> (#[trigger] assets[j]).name@ != name,
    ensures
        asset_named(assets, name, from) == (if i < assets.len() {
            Some(assets[i])
        } else {
            None
        }),
    decreases i - from,
{
    if from < i {
        assert(assets[from].name@ != name);
        lemma_asset(assets, name, from + 1, i);
    }
}

/// Of a release, the first file with the name is downloaded, to where the server is
/// kept, and made executable but for Windows; without such a file the download fails,
/// and says which file is missing.
pub proof fn first_asset_is_downloaded(
    os: Os,
    name: Seq<char>,
    assets: Seq<Asset>,
    version: Seq<char>,
    i: int,
)
    requires
        0 <= i <= assets.len(),
        i < assets.len() ==> assets[i].name@ == name,
        forall|j: int| 0 <= j < i ==> (#[trigger] assets[j]).name@ != name,
    ensures
        ({
            let plan = download_of(os, name, assets, version);
            &&& i < assets.len() ==> (plan matches Ok(d) && d.url == assets[i].download_url@
                && d.destination == (if os == Os::Windows {
                "zeddeps-lsp/zeddeps-lsp.exe"@
            } else {
                "zeddeps-lsp/zeddeps-lsp"@
            }) && (d.make_executable <==> os != Os::Windows))
            &&& i == assets.len() ==> plan == Err::<DownloadView, Seq<char>>(
                "No "@ + name + " asset found for zeddeps-lsp release "@ + version,
            )
        }),
{
    lemma_asset(assets, name, 0, i);
    reveal_strlit("zeddeps-lsp/");
    reveal_strlit("zeddeps-lsp");
    reveal_strlit("zeddeps-lsp.exe");
    reveal_strlit("zeddeps-lsp/zeddeps-lsp");
    reveal_strlit("zeddeps-lsp/zeddeps-lsp.exe");
    assert("zeddeps-lsp/"@ + "zeddeps-lsp"@ =~= "zeddeps-lsp/zeddeps-lsp"@);
    assert("zeddeps-lsp/"@ + "zeddeps-lsp.exe"@ =~= "zeddeps-lsp/zeddeps-lsp.exe"@);
}

// ---------------------------------------------------------------------------
// The version of the extension
// ---------------------------------------------------------------------------

/// The lines of a text behind another one.
proof fn lemma_lines_behind(a: Seq<char>, b: Seq<char>, from: int)
    requires
        0 <= from <= b.len(),
    ensures
        text_lines(a + b, a.len() + from) == text_lines(b, from),
    decreases b.len() - from,
{
    if from < b.len() {
        lemma_line_second(a, b, from);
        lemma_line_end(b, from);
        let n = a.len() as int;
        let end = line_end(b, from);
        assert((a + b).subrange(n + from, n + end) =~= b.subrange(from, end));
        lemma_lines_behind(a, b, end);
    }
}

/// The first of several lines, and the others.
proof fn lemma_versioned(line: Seq<char>, lines: Seq<Seq<char>>, version: Seq<char>)
    requires
        lines.len() > 0,
    ensures
        versioned_lines(seq![line] + lines, version) == versioned_line(line, version).push('\n')
            + versioned_lines(lines, version),
    decreases lines.len(),
{
    let all = seq![line] + lines;
    let first = versioned_line(line, version).push('\n');
    assert(all.last() == lines.last());
    if lines.len() == 1 {
        assert(all.drop_last() =~= seq![line]);
        assert(lines[0] == lines.last());
        assert(versioned_lines(seq![line], version) == versioned_line(line, version));
    } else {
        assert(all.drop_last() =~= seq![line] + lines.drop_last());
        lemma_versioned(line, lines.drop_last(), version);
        let rest = versioned_lines(lines.drop_last(), version);
        assert((first + rest).push('\n') + versioned_line(lines.last(), version) =~= first + (
        rest.push('\n') + versioned_line(lines.last(), version)));
    }
}

/// A text is split into its lines at line feeds, with or without a carriage return
/// before them; what stands behind the last one is a line too, unless it is empty.
pub proof fn texts_are_split_into_lines(line: Seq<char>, ending: Seq<char>, rest: Seq<char>)
    requires
        forall|i: int| 0 <= i < line.len() ==> #[trigger] line[i] != '\n' && line[i] != '\r',
        ending == seq!['\n'] || ending == seq!['\r', '\n'],
    ensures
        text_lines(line + ending + rest, 0) == seq![line] + text_lines(rest, 0),
        line.len() > 0 ==> text_lines(line, 0) == seq![line],
        text_lines(Seq::empty(), 0).len() == 0,
{
    let top = line + ending;
    let s = top + rest;
    let n = top.len() as int;
    lemma_index_of(s, '\n', 0, s.len() as int);
    assert(s[n - 1] == '\n');
    assert forall|i: int| 0 <= i < n - 1 implies #[trigger] s[i] != '\n' by {
        if i < line.len() {
            assert(s[i] == line[i]);
        } else {
            assert(s[i] == ending[0]);
        }
    }
    assert(line_end(s, 0) == n);
    assert(s.subrange(0, n) =~= top);
    if ending.len() == 1 {
        assert(top.drop_last() =~= line);
        if line.len() > 0 {
            assert(top[n - 2] == line[line.len() - 1]);
        }
    } else {
        assert(top[n - 2] == '\r');
        assert(top.take(n - 2) =~= line);
    }
    assert(without_terminator(top) == line);
    lemma_lines_behind(top, rest, 0);
    if line.len() > 0 {
        let l = line.len() as int;
        lemma_index_of(line, '\n', 0, l);
        assert(line_end(line, 0) == l);
        assert(line.subrange(0, l) =~= line);
        assert(line[l - 1] != '\n');
        assert(without_terminator(line) == line);
        assert(text_lines(line, l) =~= Seq::<Seq<char>>::empty());
        assert(text_lines(line, 0) =~= seq![line]);
    }
}

/// In the manifest of the extension, the line that sets the version gets the new one,
/// and every other line stays, line by line; the lines then end with line feeds.
pub proof fn version_line_is_replaced(
    line: Seq<char>,
    ending: Seq<char>,
    old_version: Seq<char>,
    rest: Seq<char>,
    version: Seq<char>,
)
    requires
        forall|i: int| 0 <= i < line.len() ==> #[trigger] line[i] != '\n' && line[i] != '\r',
        ending == seq!['\n'] || ending == seq!['\r', '\n'],
    ensures
        line == "version = "@ + old_version ==> versioned(line + ending + rest, version)
            == "version = \""@ + version + "\"\n"@ + versioned(rest, version),
        !"version = "@.is_prefix_of(line) ==> versioned(line + ending + rest, version)
            == line.push('\n') + versioned(rest, version),
        line.len() > 0 ==> versioned(line, version) == versioned_line(line, version),
        versioned(Seq::empty(), version).len() == 0,
{
    reveal_strlit("version = ");
    reveal_strlit("\"");
    reveal_strlit("\"\n");
    let top = line + ending;
    let s = top + rest;
    texts_are_split_into_lines(line, ending, rest);
    let lines = text_lines(rest, 0);
    assert(text_lines(s, 0) == seq![line] + lines);
    let first = versioned_line(line, version);
    if line.len() > 0 {
        assert(line[line.len() - 1] != '\n');
        assert(seq![line].len() == 1);
        assert(versioned_lines(seq![line], version) == first);
    }
    assert(versioned(Seq::empty(), version) =~= Seq::<char>::empty());
    if rest.len() == 0 {
        assert(s =~= top);
        assert(seq![line] + lines =~= seq![line]);
        assert(versioned(s, version) =~= first.push('\n'));
        assert(versioned(rest, version) =~= Seq::<char>::empty());
        assert(first.push('\n') + versioned(rest, version) =~= first.push('\n'));
    } else {
        lemma_versioned(line, lines, version);
        assert(s.last() == rest.last());
        assert(versioned(s, version) =~= first.push('\n') + versioned(rest, version));
    }
    if line == "version = "@ + old_version {
        assert(line.take(10) =~= "version = "@);
        assert(("version = \""@ + version + "\""@).push('\n') =~= "version = \""@ + version
            + "\"\n"@);
    }
}

} // verus!
