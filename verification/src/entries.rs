//! The versions that Cargo and npm manifests write down, and where.

use crate::lines::{find_line_end, lemma_line_end, line_at, line_end, read_line};
use crate::outside::text_of;
use crate::scan::{
    find_json_colon, find_top_level_json_object, find_unquoted_char, is_not_space, is_verbatim,
    json_colon, json_token, lemma_json_token, next_json_string, strip_unquoted_comment,
    top_level_object, unquoted_index, without_comment, TokenView,
};
use crate::text::{
    before, byte_offset, byte_offsets, chars_of, contains, contains_text, ends_with, equals,
    find_char, lemma_first_index, lemma_index_of, lowered, same_text, starts_with, string_of,
    to_ascii_lowercase, trim, trim_start, trimmed, trimmed_start, up_to,
};
use crate::toml::{
    find_inline_value, inline_value, normalize_toml_key, normalized_key, parse_quoted_string,
    quoted_value, stands_in, ValueView,
};
use vstd::prelude::*;
use vstd::slice::slice_subrange;

verus! {

/// A version in a manifest: the package, the section that names it, the version
/// as written, and the bytes it takes. A dependency that leaves its version to
/// the workspace has none.
pub struct Entry {
    pub name: String,
    pub section: String,
    pub version: Option<String>,
    pub start: usize,
    pub end: usize,
}

/// What an [`Entry`] says.
#[verifier::ext_equal]
pub struct EntryView {
    pub name: Seq<char>,
    pub section: Seq<char>,
    pub version: Option<Seq<char>>,
    pub start: int,
    pub end: int,
}

impl View for Entry {
    type V = EntryView;

    open spec fn view(&self) -> EntryView {
        EntryView {
            name: self.name@,
            section: self.section@,
            version: text_of(self.version),
            start: self.start as int,
            end: self.end as int,
        }
    }
}

/// The views of entries.
pub open spec fn entry_views(entries: Seq<Entry>) -> Seq<EntryView> {
    Seq::new(entries.len(), |i: int| entries[i]@)
}

/// `start..end` are the bytes of a stretch of `text`, and `value` is that
/// stretch, unless it is written with escapes.
pub open spec fn covers(text: Seq<char>, start: int, end: int, value: Seq<char>) -> bool {
    exists|i: int, j: int| #[trigger] covers_chars(text, i, j, start, end, value)
}

/// The characters `i..j` of `text` take the bytes `start..end`, and they are
/// `value`, unless it is written with escapes.
pub open spec fn covers_chars(
    text: Seq<char>,
    i: int,
    j: int,
    start: int,
    end: int,
    value: Seq<char>,
) -> bool {
    &&& 0 <= i <= j <= text.len()
    &&& start == byte_offset(text, i)
    &&& end == byte_offset(text, j)
    &&& is_verbatim(text.subrange(i, j)) ==> value == text.subrange(i, j)
}

/// Every version stands where its entry says.
pub open spec fn entries_stand(text: Seq<char>, entries: Seq<EntryView>) -> bool {
    forall|k: int|
        0 <= k < entries.len() ==> ((#[trigger] entries[k]).version matches Some(v) ==> covers(
            text,
            entries[k].start,
            entries[k].end,
            v,
        ))
}

// ---------------------------------------------------------------------------
// Cargo manifests
// ---------------------------------------------------------------------------

/// The sections of a Cargo manifest that list dependencies; the last of them
/// only counts where `workspace` says so.
pub open spec fn is_cargo_section(name: Seq<char>, workspace: bool) -> bool {
    ||| name == "dependencies"@
    ||| name == "dev-dependencies"@
    ||| name == "build-dependencies"@
    ||| workspace && name == "workspace.dependencies"@
}

/// The dependency section that a header line opens.
pub open spec fn cargo_section(header: Seq<char>, workspace: bool) -> Option<Seq<char>> {
    let name = trimmed(up_to(header.skip(1), ']'));
    if !"[["@.is_prefix_of(header) && is_cargo_section(name, workspace) {
        Some(name)
    } else {
        None
    }
}

/// Reads the header line of a section.
pub fn parse_cargo_section(header: &[char], workspace: bool) -> (section: Option<String>)
    requires
        header@.len() > 0,
    ensures
        text_of(section) == cargo_section(header@, workspace),
{
    if starts_with(header, "[[") {
        return None;
    }
    let rest = slice_subrange(header, 1, header.len());
    assert(rest@ =~= header@.skip(1));
    let name = trim(before(rest, ']'));
    if equals(name, "dependencies") || equals(name, "dev-dependencies") || equals(
        name,
        "build-dependencies",
    ) || (workspace && equals(name, "workspace.dependencies")) {
        Some(string_of(name))
    } else {
        None
    }
}

/// What a line of a Cargo manifest declares; positions are characters of the
/// line.
pub struct LineEntry {
    pub name: String,
    pub version: Option<String>,
    pub start: usize,
    pub end: usize,
}

/// What a [`LineEntry`] says.
#[verifier::ext_equal]
pub struct LineEntryView {
    pub name: Seq<char>,
    pub version: Option<Seq<char>>,
    pub start: int,
    pub end: int,
}

impl View for LineEntry {
    type V = LineEntryView;

    open spec fn view(&self) -> LineEntryView {
        LineEntryView {
            name: self.name@,
            version: text_of(self.version),
            start: self.start as int,
            end: self.end as int,
        }
    }
}

/// The view of an optional line entry.
pub open spec fn line_entry_of(entry: Option<LineEntry>) -> Option<LineEntryView> {
    match entry {
        Some(e) => Some(e@),
        None => None,
    }
}

/// The key of `name.workspace` up to its last part.
pub open spec fn workspace_base(key: Seq<char>) -> Seq<char> {
    trimmed(key.take(key.len() - ".workspace"@.len()))
}

/// A key that says of a package that the workspace has its version.
pub open spec fn is_workspace_key(key: Seq<char>) -> bool {
    ".workspace"@.is_suffix_of(key) && workspace_base(key).len() > 0
}

/// Inline tables that take a package from elsewhere than the registry.
pub open spec fn is_unsupported_table(table: Seq<char>, workspace: bool) -> bool {
    ||| inline_value(table, "path"@, workspace, 0) is Some
    ||| inline_value(table, "git"@, workspace, 0) is Some
    ||| inline_value(table, "registry"@, workspace, 0) is Some
    ||| !workspace && contains_text(table, "workspace = true"@)
    ||| !workspace && contains_text(table, "workspace=true"@)
}

/// Whether an inline table leaves the version to the workspace.
pub open spec fn workspace_value(table: Seq<char>) -> Option<ValueView> {
    match inline_value(table, "workspace"@, true, 0) {
        Some(v) => if v.value == "true"@ {
            Some(v)
        } else {
            None
        },
        None => None,
    }
}

/// What `name = value` declares, where `value` begins at `at`.
pub open spec fn cargo_value(
    name: Seq<char>,
    value: Seq<char>,
    at: int,
    workspace: bool,
) -> Option<LineEntryView> {
    match quoted_value(value) {
        Some(v) => Some(
            LineEntryView {
                name,
                version: Some(v.value),
                start: at + v.start,
                end: at + v.end,
            },
        ),
        None => if value.len() == 0 || value[0] != '{' {
            None
        } else {
            match (workspace, workspace_value(value)) {
                (true, Some(v)) => Some(
                    LineEntryView { name, version: None, start: at + v.start, end: at + v.end },
                ),
                _ => if is_unsupported_table(value, workspace) {
                    None
                } else {
                    match inline_value(value, "version"@, workspace, 0) {
                        Some(v) => Some(
                            LineEntryView {
                                name,
                                version: Some(v.value),
                                start: at + v.start,
                                end: at + v.end,
                            },
                        ),
                        None => None,
                    }
                },
            }
        },
    }
}

/// What a line in a dependency section declares; `workspace` says whether
/// references to the workspace count.
pub open spec fn cargo_line(raw: Seq<char>, workspace: bool) -> Option<LineEntryView> {
    let line = without_comment(raw);
    match unquoted_index(line, '=') {
        Some(equals) => {
            let key = trimmed(line.take(equals));
            let value = trimmed_start(line.skip(equals + 1));
            let at = line.len() - value.len();
            if workspace && is_workspace_key(key) && trimmed(value) == "true"@ {
                match normalized_key(workspace_base(key)) {
                    Some(name) => Some(
                        LineEntryView { name, version: None, start: at, end: at + "true"@.len() },
                    ),
                    None => None,
                }
            } else {
                match normalized_key(key) {
                    Some(name) => cargo_value(name, value, at, workspace),
                    None => None,
                }
            }
        },
        None => None,
    }
}

/// The value stands where its entry says.
pub open spec fn line_entry_stands(e: LineEntryView, line: Seq<char>) -> bool {
    &&& 0 <= e.start <= e.end <= line.len()
    &&& e.version matches Some(v) ==> stands_in(
        ValueView { value: v, start: e.start, end: e.end },
        line,
    )
}

/// Whether an inline table takes its package from elsewhere than the registry.
pub fn cargo_inline_table_is_unsupported(table: &[char], workspace: bool) -> (b: bool)
    ensures
        b == is_unsupported_table(table@, workspace),
{
    find_inline_value(table, "path", workspace).is_some() || find_inline_value(
        table,
        "git",
        workspace,
    ).is_some() || find_inline_value(table, "registry", workspace).is_some() || (!workspace && (
    contains(table, "workspace = true") || contains(table, "workspace=true")))
}

/// Reads what `name = value` declares.
fn parse_cargo_value(name: String, value: &[char], at: usize, workspace: bool) -> (entry: Option<
    LineEntry,
>)
    requires
        at + value@.len() <= usize::MAX,
    ensures
        line_entry_of(entry) == cargo_value(name@, value@, at as int, workspace),
        entry matches Some(e) ==> at <= e.start <= e.end <= at + value@.len(),
        entry matches Some(e) ==> (e.version matches Some(v) ==> stands_in(
            ValueView { value: v@, start: e.start - at, end: e.end - at },
            value@,
        )),
{
    if let Some(v) = parse_quoted_string(value) {
        return Some(
            LineEntry { name, version: Some(v.value), start: at + v.start, end: at + v.end },
        );
    }
    if value.len() == 0 || value[0] != '{' {
        return None;
    }
    if workspace {
        if let Some(v) = find_inline_value(value, "workspace", true) {
            if same_text(v.value.as_str(), "true") {
                return Some(
                    LineEntry { name, version: None, start: at + v.start, end: at + v.end },
                );
            }
        }
    }
    if cargo_inline_table_is_unsupported(value, workspace) {
        return None;
    }
    match find_inline_value(value, "version", workspace) {
        Some(v) => Some(
            LineEntry { name, version: Some(v.value), start: at + v.start, end: at + v.end },
        ),
        None => None,
    }
}

/// Reads a line of a dependency section.
#[verifier::rlimit(40)]
pub fn parse_cargo_dependency_line(raw: &[char], workspace: bool) -> (entry: Option<LineEntry>)
    ensures
        line_entry_of(entry) == cargo_line(raw@, workspace),
        entry matches Some(e) ==> line_entry_stands(e@, raw@),
{
    let line = strip_unquoted_comment(raw);
    let n: usize = line.len();
    let equals_at = match find_unquoted_char(line, '=') {
        Some(i) => i,
        None => {
            return None;
        },
    };
    let key = slice_subrange(line, 0, equals_at);
    assert(key@ =~= line@.take(equals_at as int));
    let key = trim(key);
    let rest = slice_subrange(line, equals_at + 1, n);
    assert(rest@ =~= line@.skip(equals_at + 1));
    let value = trim_start(rest);
    let at: usize = n - value.len();
    assert(value@ =~= line@.skip(at as int));
    if workspace && ends_with(key, ".workspace") {
        let kept: usize = key.len() - chars_of(".workspace").len();
        let base = slice_subrange(key, 0, kept);
        assert(base@ =~= key@.take(kept as int));
        let base = trim(base);
        let bare = trim(value);
        if base.len() > 0 && equals(bare, "true") {
            proof {
                crate::text::lemma_trimmed_start(value@);
                crate::text::lemma_trimmed_end(trimmed_start(value@));
            }
            let end: usize = at + bare.len();
            return match normalize_toml_key(base) {
                Some(name) => Some(LineEntry { name, version: None, start: at, end }),
                None => None,
            };
        }
    }
    let name = match normalize_toml_key(key) {
        Some(name) => name,
        None => {
            return None;
        },
    };
    let entry = parse_cargo_value(name, value, at, workspace);
    proof {
        if let Some(e) = line_entry_of(entry) {
            assert(value@.subrange(e.start - at, e.end - at) =~= raw@.subrange(e.start, e.end));
        }
    }
    entry
}

/// An entry of the line that begins at `from`.
pub open spec fn placed(
    s: Seq<char>,
    from: int,
    section: Seq<char>,
    e: LineEntryView,
) -> EntryView {
    EntryView {
        name: e.name,
        section,
        version: e.version,
        start: byte_offset(s, from + e.start) as int,
        end: byte_offset(s, from + e.end) as int,
    }
}

/// The entries of the line that begins at `from`.
pub open spec fn line_entries(
    s: Seq<char>,
    from: int,
    section: Option<Seq<char>>,
    workspace: bool,
) -> Seq<EntryView> {
    match section {
        Some(name) => match cargo_line(line_at(s, from), workspace) {
            Some(e) => seq![placed(s, from, name, e)],
            None => Seq::empty(),
        },
        None => Seq::empty(),
    }
}

/// The entries of a Cargo manifest from the line that begins at `from`, where
/// `section` is open. A header opens a section or closes one.
pub open spec fn cargo_entries(
    s: Seq<char>,
    from: int,
    section: Option<Seq<char>>,
    workspace: bool,
) -> Seq<EntryView>
    decreases s.len() - from,
{
    if from < 0 || from >= s.len() {
        Seq::empty()
    } else {
        proof {
            lemma_line_end(s, from);
        }
        let header = trimmed(line_at(s, from));
        let next = line_end(s, from);
        if header.len() > 0 && header[0] == '[' {
            cargo_entries(s, next, cargo_section(header, workspace), workspace)
        } else {
            line_entries(s, from, section, workspace) + cargo_entries(s, next, section, workspace)
        }
    }
}

/// Lists the entries of a Cargo manifest; `workspace` says whether workspace
/// dependencies, and references to them, count.
pub fn list_cargo_entries(text: &str, workspace: bool) -> (entries: Vec<Entry>)
    ensures
        entry_views(entries@) == cargo_entries(text@, 0, None, workspace),
        entries_stand(text@, entry_views(entries@)),
{
    let chars = chars_of(text);
    let s = chars.as_slice();
    let offsets = byte_offsets(text);
    let mut entries: Vec<Entry> = Vec::new();
    let mut section: Option<String> = None;
    let mut from: usize = 0;
    assert(entry_views(entries@) =~= Seq::<EntryView>::empty());
    assert(cargo_entries(text@, 0, None, workspace) =~= Seq::<EntryView>::empty() + cargo_entries(
        text@,
        0,
        None,
        workspace,
    ));
    while from < s.len()
        invariant
            s@ == text@,
            from <= s@.len(),
            offsets@.len() == text@.len() + 1,
            forall|i: int| 0 <= i <= text@.len() ==> #[trigger] offsets@[i] == byte_offset(text@, i),
            cargo_entries(text@, 0, None, workspace) == entry_views(entries@) + cargo_entries(
                text@,
                from as int,
                text_of(section),
                workspace,
            ),
            entries_stand(text@, entry_views(entries@)),
        decreases s@.len() - from,
    {
        let end = find_line_end(s, from);
        let line = read_line(s, from, end);
        let header = trim(line);
        let ghost done = entry_views(entries@);
        let ghost rest = cargo_entries(text@, end as int, text_of(section), workspace);
        if header.len() > 0 && header[0] == '[' {
            section = parse_cargo_section(header, workspace);
        } else if let Some(name) = &section {
            if let Some(e) = parse_cargo_dependency_line(line, workspace) {
                let ghost e_view = e@;
                let start: usize = offsets[from + e.start];
                let stop: usize = offsets[from + e.end];
                let entry = Entry {
                    name: e.name,
                    section: name.clone(),
                    version: e.version,
                    start,
                    end: stop,
                };
                proof {
                    assert(entry@ =~= placed(text@, from as int, name@, e_view));
                    assert(done + (seq![entry@] + rest) =~= done.push(entry@) + rest);
                    if let Some(v) = entry@.version {
                        assert(line@.subrange(e_view.start, e_view.end) =~= text@.subrange(
                            from + e_view.start,
                            from + e_view.end,
                        ));
                        assert(covers_chars(
                            text@,
                            from + e_view.start,
                            from + e_view.end,
                            entry@.start,
                            entry@.end,
                            v,
                        ));
                    }
                }
                let ghost entry_view = entry@;
                entries.push(entry);
                assert(entry_views(entries@) =~= done.push(entry_view));
            } else {
                assert(done + (Seq::<EntryView>::empty() + rest) =~= done + rest);
            }
        } else {
            assert(done + (Seq::<EntryView>::empty() + rest) =~= done + rest);
        }
        from = end;
    }
    assert(entry_views(entries@) + Seq::<EntryView>::empty() =~= entry_views(entries@));
    entries
}

// ---------------------------------------------------------------------------
// npm manifests
// ---------------------------------------------------------------------------

/// Specifications that take a package from elsewhere than the registry.
pub open spec fn is_unsupported_npm_spec(spec: Seq<char>) -> bool {
    let lower = lowered(spec);
    ||| "file:"@.is_prefix_of(lower)
    ||| "link:"@.is_prefix_of(lower)
    ||| "workspace:"@.is_prefix_of(lower)
    ||| "git:"@.is_prefix_of(lower)
    ||| "git+"@.is_prefix_of(lower)
    ||| "github:"@.is_prefix_of(lower)
    ||| "http:"@.is_prefix_of(lower)
    ||| "https:"@.is_prefix_of(lower)
    ||| "npm:"@.is_prefix_of(lower)
    ||| spec.contains('/') && spec[0] != '@'
}

/// Whether a specification takes a package from elsewhere than the registry.
pub fn npm_spec_is_unsupported(spec: &str) -> (b: bool)
    ensures
        b == is_unsupported_npm_spec(spec@),
{
    let chars = chars_of(spec);
    let s = chars.as_slice();
    let lower = to_ascii_lowercase(s);
    let l = lower.as_slice();
    let slash = find_char(s, '/', 0, s.len());
    proof {
        lemma_index_of(s@, '/', 0, s@.len() as int);
        if slash is None && s@.contains('/') {
            let i = choose|i: int| 0 <= i < s@.len() && s@[i] == '/';
            assert(s@[i] != '/');
        }
    }
    starts_with(l, "file:") || starts_with(l, "link:") || starts_with(l, "workspace:")
        || starts_with(l, "git:") || starts_with(l, "git+") || starts_with(l, "github:")
        || starts_with(l, "http:") || starts_with(l, "https:") || starts_with(l, "npm:") || (
    slash.is_some() && s[0] != '@')
}

/// The entries of the JSON object whose members stand in `cursor..end`: each
/// name with the string that follows its colon, up to the first name that has
/// none.
pub open spec fn object_entries(
    s: Seq<char>,
    cursor: int,
    end: int,
    section: Seq<char>,
) -> Seq<EntryView>
    decreases end - cursor,
{
    proof {
        lemma_object_step(s, cursor, end);
    }
    if cursor >= end {
        Seq::empty()
    } else {
        match object_member(s, cursor, end) {
            Some((name, value)) => {
                let rest = object_entries(s, value.outer_end, end, section);
                if is_unsupported_npm_spec(value.value) {
                    rest
                } else {
                    seq![
                        EntryView {
                            name: name.value,
                            section,
                            version: Some(value.value),
                            start: byte_offset(s, value.inner_start) as int,
                            end: byte_offset(s, value.inner_end) as int,
                        },
                    ] + rest
                }
            },
            None => Seq::empty(),
        }
    }
}

/// The next name in an object and the string that follows its colon.
pub open spec fn object_member(s: Seq<char>, cursor: int, end: int) -> Option<
    (TokenView, TokenView),
> {
    match json_token(s, cursor, end) {
        Some(name) => match json_colon(s, name.outer_end, end) {
            Some(colon) => match json_token(s, colon + 1, end) {
                Some(value) => Some((name, value)),
                None => None,
            },
            None => None,
        },
        None => None,
    }
}

/// A member ends after it begins, and before the object does.
pub proof fn lemma_object_step(s: Seq<char>, cursor: int, end: int)
    ensures
        object_member(s, cursor, end) matches Some((name, value)) ==> cursor < value.outer_end
            <= end,
{
    lemma_json_token(s, cursor, end);
    if let Some(name) = json_token(s, cursor, end) {
        lemma_first_index(is_not_space(s), name.outer_end, end);
        if let Some(colon) = json_colon(s, name.outer_end, end) {
            lemma_json_token(s, colon + 1, end);
        }
    }
}

/// The entries of a section of an npm manifest.
pub open spec fn npm_section_entries(s: Seq<char>, section: Seq<char>) -> Seq<EntryView> {
    match top_level_object(s, section, 0, 0) {
        Some((start, end)) => object_entries(s, start + 1, end, section),
        None => Seq::empty(),
    }
}

/// The entries of an npm manifest.
pub open spec fn npm_entries(s: Seq<char>) -> Seq<EntryView> {
    npm_section_entries(s, "dependencies"@) + npm_section_entries(s, "devDependencies"@)
        + npm_section_entries(s, "peerDependencies"@) + npm_section_entries(
        s,
        "optionalDependencies"@,
    )
}

/// Lists the entries of the JSON object whose members stand in `from..end`.
pub fn parse_json_dependency_object(
    text: &[char],
    offsets: &Vec<usize>,
    from: usize,
    end: usize,
    section: &str,
) -> (entries: Vec<Entry>)
    requires
        end <= text@.len(),
        offsets@.len() == text@.len() + 1,
        forall|i: int| 0 <= i <= text@.len() ==> #[trigger] offsets@[i] == byte_offset(text@, i),
    ensures
        entry_views(entries@) == object_entries(text@, from as int, end as int, section@),
        entries_stand(text@, entry_views(entries@)),
{
    let ghost whole = object_entries(text@, from as int, end as int, section@);
    let mut entries: Vec<Entry> = Vec::new();
    let mut cursor: usize = from;
    assert(entry_views(entries@) + whole =~= whole);
    while cursor < end
        invariant
            end <= text@.len(),
            offsets@.len() == text@.len() + 1,
            forall|i: int| 0 <= i <= text@.len() ==> #[trigger] offsets@[i] == byte_offset(text@, i),
            whole == object_entries(text@, from as int, end as int, section@),
            whole == entry_views(entries@) + object_entries(
                text@,
                cursor as int,
                end as int,
                section@,
            ),
            entries_stand(text@, entry_views(entries@)),
        decreases end - cursor,
    {
        let ghost done = entry_views(entries@);
        assert(done + Seq::<EntryView>::empty() =~= done);
        let name = match next_json_string(text, cursor, end) {
            Some(t) => t,
            None => {
                return entries;
            },
        };
        let colon = match find_json_colon(text, name.outer_end, end) {
            Some(i) => i,
            None => {
                return entries;
            },
        };
        let value = match next_json_string(text, colon + 1, end) {
            Some(t) => t,
            None => {
                return entries;
            },
        };
        let ghost rest = object_entries(text@, value.outer_end as int, end as int, section@);
        cursor = value.outer_end;
        if !npm_spec_is_unsupported(value.value.as_str()) {
            let ghost inner = (value.inner_start as int, value.inner_end as int);
            let entry = Entry {
                name: name.value,
                section: section.to_string(),
                start: offsets[value.inner_start],
                end: offsets[value.inner_end],
                version: Some(value.value),
            };
            let ghost view = entry@;
            assert(done + (seq![view] + rest) =~= done.push(view) + rest);
            assert(covers_chars(
                text@,
                inner.0,
                inner.1,
                view.start,
                view.end,
                view.version->0,
            ));
            entries.push(entry);
            assert(entry_views(entries@) =~= done.push(view));
        }
    }
    assert(entry_views(entries@) + Seq::<EntryView>::empty() =~= entry_views(entries@));
    entries
}

/// Lists the entries of a section of an npm manifest.
fn list_npm_section(text: &[char], offsets: &Vec<usize>, section: &str) -> (entries: Vec<Entry>)
    requires
        offsets@.len() == text@.len() + 1,
        forall|i: int| 0 <= i <= text@.len() ==> #[trigger] offsets@[i] == byte_offset(text@, i),
    ensures
        entry_views(entries@) == npm_section_entries(text@, section@),
        entries_stand(text@, entry_views(entries@)),
{
    match find_top_level_json_object(text, section) {
        Some(o) => parse_json_dependency_object(text, offsets, o.start + 1, o.end, section),
        None => {
            let entries: Vec<Entry> = Vec::new();
            assert(entry_views(entries@) =~= Seq::<EntryView>::empty());
            entries
        },
    }
}

/// Views of entries put one behind the other.
proof fn lemma_entry_views_concat(a: Seq<Entry>, b: Seq<Entry>)
    ensures
        entry_views(a + b) == entry_views(a) + entry_views(b),
{
    assert(entry_views(a + b) =~= entry_views(a) + entry_views(b));
}

/// Lists the entries of an npm manifest.
pub fn list_npm_entries(text: &str) -> (entries: Vec<Entry>)
    ensures
        entry_views(entries@) == npm_entries(text@),
        entries_stand(text@, entry_views(entries@)),
{
    let chars = chars_of(text);
    let s = chars.as_slice();
    let offsets = byte_offsets(text);
    let mut entries = list_npm_section(s, &offsets, "dependencies");
    let mut dev = list_npm_section(s, &offsets, "devDependencies");
    let mut peer = list_npm_section(s, &offsets, "peerDependencies");
    let mut optional = list_npm_section(s, &offsets, "optionalDependencies");
    proof {
        lemma_entry_views_concat(entries@, dev@);
        lemma_entry_views_concat(entries@ + dev@, peer@);
        lemma_entry_views_concat(entries@ + dev@ + peer@, optional@);
    }
    entries.append(&mut dev);
    entries.append(&mut peer);
    entries.append(&mut optional);
    entries
}

} // verus!
