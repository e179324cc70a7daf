//! The versions that Python manifests write down, and where.

use crate::lines::{
    find_line_end, lemma_line_end, line_at, line_end, read_line, split_lines, text_lines,
};
use crate::outside::{pep508_parse, pep508_requirement, text_of, texts_of};
use crate::requirement::{
    is_quotation_mark, is_readable, python_specifier_span, requirement_is_readable, specifier_span,
};
use crate::scan::{
    array_end, comment_end, escaped_at, find_matching_toml_array, find_unquoted_char, is_plain_to,
    is_verbatim, json_token, lemma_comment_end, lemma_json_token, lemma_literal_token,
    literal_token, next_json_string, next_toml_literal_string, past_space, reads_alike,
    skip_toml_comment, skip_toml_ws, strip_unquoted_comment, unquoted_index, without_comment,
    StringToken, TokenView,
};
use crate::text::{
    before, byte_len, byte_offset, byte_offsets, chars_of, contains, contains_text, equals,
    first_index, is_whitespace, lemma_byte_offset_monotonic, lemma_encode_concat, lemma_first_index,
    same_text, starts_with, string_of, trim, trim_end, trim_start, trimmed, trimmed_end,
    trimmed_start, up_to,
};
use crate::toml::{normalize_toml_key, normalized_key};
use vstd::prelude::*;
use vstd::slice::slice_subrange;
use vstd::string::StringExecFns;

verus! {

/// A requirement in a manifest: the package, the section that names it, its
/// version specifiers as they stand in the text and one by one, the bytes they
/// take, the requirement itself, and the characters `from..to` that it is read
/// from.
pub struct PythonEntry {
    pub name: String,
    pub section: String,
    pub current: String,
    pub specifiers: Vec<String>,
    pub start: usize,
    pub end: usize,
    pub requirement: String,
    pub from: usize,
    pub to: usize,
}

/// What a [`PythonEntry`] says.
#[verifier::ext_equal]
pub struct PythonEntryView {
    pub name: Seq<char>,
    pub section: Seq<char>,
    pub current: Seq<char>,
    pub specifiers: Seq<Seq<char>>,
    pub start: int,
    pub end: int,
    pub requirement: Seq<char>,
    pub from: int,
    pub to: int,
}

impl View for PythonEntry {
    type V = PythonEntryView;

    open spec fn view(&self) -> PythonEntryView {
        PythonEntryView {
            name: self.name@,
            section: self.section@,
            current: self.current@,
            specifiers: texts_of(self.specifiers@),
            start: self.start as int,
            end: self.end as int,
            requirement: self.requirement@,
            from: self.from as int,
            to: self.to as int,
        }
    }
}

/// The view of an optional entry.
pub open spec fn python_entry_of(entry: Option<PythonEntry>) -> Option<PythonEntryView> {
    match entry {
        Some(e) => Some(e@),
        None => None,
    }
}

/// The views of entries.
pub open spec fn python_entry_views(entries: Seq<PythonEntry>) -> Seq<PythonEntryView> {
    Seq::new(entries.len(), |i: int| entries[i]@)
}

/// An optional entry as a list of none or one.
pub open spec fn listed(entry: Option<PythonEntryView>) -> Seq<PythonEntryView> {
    match entry {
        Some(e) => seq![e],
        None => Seq::empty(),
    }
}

/// `value` is a stretch of `text`, and `start..end` are its bytes.
pub open spec fn is_at(text: Seq<char>, start: int, end: int, value: Seq<char>) -> bool {
    exists|i: int, j: int| #[trigger] is_at_chars(text, i, j, start, end, value)
}

/// The characters `i..j` of `text` are `value` and take the bytes `start..end`.
pub open spec fn is_at_chars(
    text: Seq<char>,
    i: int,
    j: int,
    start: int,
    end: int,
    value: Seq<char>,
) -> bool {
    &&& 0 <= i <= j <= text.len()
    &&& start == byte_offset(text, i)
    &&& end == byte_offset(text, j)
    &&& value == text.subrange(i, j)
}

/// Where the specifiers of a requirement end.
pub open spec fn specifiers_end(requirement: Seq<char>) -> int {
    match specifier_span(requirement) {
        Some((start, end)) => end,
        None => 0,
    }
}

/// An entry is read from a stretch of `text`, up to the end of its specifiers as it
/// stands, and its specifiers stand where it says.
pub open spec fn stands_as_read(text: Seq<char>, e: PythonEntryView) -> bool {
    let n = specifiers_end(e.requirement);
    &&& 0 <= e.from <= e.from + n <= e.to <= text.len()
    &&& n <= e.requirement.len()
    &&& e.requirement.take(n) == text.subrange(e.from, e.from + n)
    &&& is_at(text, e.start, e.end, e.current)
}

/// An entry is read from a stretch of `text` that holds no escapes up to the end of
/// its specifiers.
pub open spec fn is_written_plainly(text: Seq<char>, e: PythonEntryView) -> bool {
    let end = e.from + specifiers_end(e.requirement);
    is_verbatim(
        text.subrange(
            e.from,
            if end < e.to {
                end
            } else {
                e.to
            },
        ),
    )
}

/// An entry is read from one line.
pub open spec fn is_on_one_line(text: Seq<char>, e: PythonEntryView) -> bool {
    forall|p: int| e.from <= p < e.to ==> #[trigger] text[p] != '\n'
}

/// Every entry stands where it says.
pub open spec fn python_entries_stand(text: Seq<char>, entries: Seq<PythonEntryView>) -> bool {
    forall|k: int| 0 <= k < entries.len() ==> stands_as_read(text, #[trigger] entries[k])
}

/// An entry that is written without escapes up to the end of its specifiers stands
/// where it says, and one between double quotation marks stands on one line.
pub open spec fn stands_in_list(text: Seq<char>, e: PythonEntryView) -> bool {
    &&& is_written_plainly(text, e) ==> stands_as_read(text, e)
    &&& text[e.from - 1] == '"' ==> is_on_one_line(text, e)
}

/// Every entry of a project file stands in its list.
pub open spec fn plain_entries_stand(text: Seq<char>, entries: Seq<PythonEntryView>) -> bool {
    forall|k: int| 0 <= k < entries.len() ==> stands_in_list(text, #[trigger] entries[k])
}

// ---------------------------------------------------------------------------
// One requirement
// ---------------------------------------------------------------------------

/// What is read of a requirement: its package and its version specifiers.
pub open spec fn read_requirement(requirement: Seq<char>) -> Option<(Seq<char>, Seq<Seq<char>>)> {
    if is_readable(requirement) {
        pep508_parse(requirement)
    } else {
        None
    }
}

/// The view of what is read of a requirement.
pub open spec fn parsed_of(parsed: Option<(String, Vec<String>)>) -> Option<
    (Seq<char>, Seq<Seq<char>>),
> {
    match parsed {
        Some((name, specifiers)) => Some((name@, texts_of(specifiers@))),
        None => None,
    }
}

/// The entry of a requirement that is read from the characters `from..to`, the
/// first of which is the byte `at`, from what is read of it.
pub open spec fn requirement_entry(
    requirement: Seq<char>,
    parsed: Option<(Seq<char>, Seq<Seq<char>>)>,
    section: Seq<char>,
    at: int,
    from: int,
    to: int,
) -> Option<PythonEntryView> {
    match (parsed, specifier_span(requirement)) {
        (Some((name, specifiers)), Some((start, end))) => if specifiers.len() > 0 {
            Some(
                PythonEntryView {
                    name,
                    section,
                    current: trimmed(requirement.subrange(start, end)),
                    specifiers,
                    start: at + byte_offset(requirement, start),
                    end: at + byte_offset(requirement, end),
                    requirement,
                    from,
                    to,
                },
            )
        } else {
            None
        },
        _ => None,
    }
}

/// Text that neither begins nor ends with white space is its own trimming.
proof fn lemma_trimmed_whole(s: Seq<char>)
    requires
        s.len() > 0,
        !is_whitespace(s[0]),
        !is_whitespace(s.last()),
    ensures
        trimmed(s) == s,
{
}

/// A stretch of a text lies in it with all its offsets.
pub(crate) proof fn lemma_offset_in_stretch(s: Seq<char>, i: int, j: int, k: int)
    requires
        0 <= i <= j <= s.len(),
        0 <= k <= j - i,
    ensures
        byte_offset(s, i + k) == byte_offset(s, i) + byte_offset(s.subrange(i, j), k),
{
    assert(s.take(i + k) =~= s.take(i) + s.subrange(i, j).take(k));
    lemma_encode_concat(s.take(i), s.subrange(i, j).take(k));
}

/// A requirement that stands in a text as it is, up to the end of its specifiers,
/// leads to an entry that stands where it says.
proof fn lemma_entry_stands(
    text: Seq<char>,
    requirement: Seq<char>,
    i: int,
    j: int,
    parsed: Option<(Seq<char>, Seq<Seq<char>>)>,
    section: Seq<char>,
    start: int,
    end: int,
)
    requires
        specifier_span(requirement) == Some((start, end)),
        0 <= start < end <= requirement.len(),
        0 <= i <= i + end <= j <= text.len(),
        requirement.take(end) == text.subrange(i, i + end),
        !is_whitespace(requirement[start]),
        !is_whitespace(requirement[end - 1]),
    ensures
        requirement_entry(
            requirement,
            parsed,
            section,
            byte_offset(text, i) as int,
            i,
            j,
        ) matches Some(e) ==> stands_as_read(text, e),
{
    let stretch = text.subrange(i, i + end);
    let span = requirement.subrange(start, end);
    assert(span[0] == requirement[start]);
    assert(span.last() == requirement[end - 1]);
    lemma_trimmed_whole(span);
    lemma_offset_in_stretch(text, i, i + end, start);
    lemma_offset_in_stretch(text, i, i + end, end);
    assert(requirement.take(end).take(start) =~= requirement.take(start));
    assert(stretch.take(end) =~= stretch);
    assert(span =~= requirement.take(end).subrange(start, end));
    assert(span =~= text.subrange(i + start, i + end));
    if let Some(e) = requirement_entry(
        requirement,
        parsed,
        section,
        byte_offset(text, i) as int,
        i,
        j,
    ) {
        assert(is_at_chars(text, i + start, i + end, e.start, e.end, e.current));
    }
}

/// Makes the entry of a requirement from what was read of it.
pub fn python_requirement_entry(
    requirement: &str,
    parsed: Option<(String, Vec<String>)>,
    section: &str,
    at: usize,
    from: usize,
    to: usize,
) -> (entry: Option<PythonEntry>)
    requires
        at + byte_len(requirement@) <= usize::MAX,
    ensures
        python_entry_of(entry) == requirement_entry(
            requirement@,
            parsed_of(parsed),
            section@,
            at as int,
            from as int,
            to as int,
        ),
        entry is Some ==> (specifier_span(requirement@) matches Some((start, end)) && 0 <= start
            < end <= requirement@.len() && !is_whitespace(requirement@[start]) && !is_whitespace(
            requirement@[end - 1],
        )),
{
    let (name, specifiers) = match parsed {
        Some(p) => p,
        None => {
            return None;
        },
    };
    let chars = chars_of(requirement);
    let s = chars.as_slice();
    let (start, end) = match python_specifier_span(s) {
        Some(span) => span,
        None => {
            return None;
        },
    };
    if specifiers.len() == 0 {
        return None;
    }
    let offsets = byte_offsets(requirement);
    proof {
        lemma_byte_offset_monotonic(s@, start as int, end as int);
    }
    let current = string_of(trim(slice_subrange(s, start, end)));
    let first: usize = offsets[start];
    let last: usize = offsets[end];
    Some(
        PythonEntry {
            name,
            section: section.to_string(),
            current,
            specifiers,
            start: at + first,
            end: at + last,
            requirement: requirement.to_string(),
            from,
            to,
        },
    )
}

/// Reads a requirement: its package and its version specifiers.
pub fn read_python_requirement(requirement: &str) -> (parsed: Option<(String, Vec<String>)>)
    ensures
        parsed_of(parsed) == read_requirement(requirement@),
{
    let chars = chars_of(requirement);
    if requirement_is_readable(chars.as_slice()) {
        pep508_requirement(requirement)
    } else {
        None
    }
}

/// Reads the requirement of the characters `from..to`, the first of which is the
/// byte `at`.
pub fn parse_python_requirement(
    requirement: &str,
    section: &str,
    at: usize,
    from: usize,
    to: usize,
) -> (entry: Option<PythonEntry>)
    requires
        at + byte_len(requirement@) <= usize::MAX,
    ensures
        python_entry_of(entry) == requirement_entry(
            requirement@,
            read_requirement(requirement@),
            section@,
            at as int,
            from as int,
            to as int,
        ),
        entry is Some ==> (specifier_span(requirement@) matches Some((start, end)) && 0 <= start
            < end <= requirement@.len() && !is_whitespace(requirement@[start]) && !is_whitespace(
            requirement@[end - 1],
        )),
{
    let parsed = read_python_requirement(requirement);
    python_requirement_entry(requirement, parsed, section, at, from, to)
}

// ---------------------------------------------------------------------------
// Requirements files
// ---------------------------------------------------------------------------

/// Whether position `i` lies between quotation marks, where both kinds count
/// alike: an odd number of unescaped ones stand before it.
pub open spec fn in_quotes(s: Seq<char>, i: int) -> bool
    decreases i,
{
    i > 0 && ((is_quotation_mark(s[i - 1]) && !escaped_at(s, 0, i - 1)) != in_quotes(s, i - 1))
}

/// Holds where a comment begins: at an unescaped, unquoted `#` that begins the
/// line or follows white space.
pub open spec fn starts_comment(s: Seq<char>) -> spec_fn(int) -> bool {
    |i: int|
        s[i] == '#' && !escaped_at(s, 0, i) && !in_quotes(s, i) && (i == 0 || is_whitespace(
            s[i - 1],
        ))
}

/// A line of a requirements file without its comment.
pub open spec fn without_requirement_comment(line: Seq<char>) -> Seq<char> {
    match first_index(starts_comment(line), 0, line.len() as int) {
        Some(i) => trimmed_end(line.take(i)),
        None => line,
    }
}

/// Drops the comment of a line of a requirements file.
pub fn strip_requirement_comment(line: &[char]) -> (kept: &[char])
    ensures
        kept@ == without_requirement_comment(line@),
        kept@.len() <= line@.len(),
        kept@ == line@.take(kept@.len() as int),
{
    let mut quoted = false;
    let mut escaped = false;
    let mut after_space = true;
    let mut i: usize = 0;
    let ghost p = starts_comment(line@);
    while i < line.len()
        invariant
            i <= line@.len(),
            escaped == escaped_at(line@, 0, i as int),
            quoted == in_quotes(line@, i as int),
            after_space == (i == 0 || is_whitespace(line@[i - 1])),
            p == starts_comment(line@),
            first_index(p, 0, line@.len() as int) == first_index(p, i as int, line@.len() as int),
        decreases line@.len() - i,
    {
        let c = line[i];
        if escaped {
            escaped = false;
        } else if c == '\\' {
            escaped = true;
        } else if is_quotation_mark(c) {
            quoted = !quoted;
        } else if !quoted && c == '#' && after_space {
            assert(p(i as int));
            let head = slice_subrange(line, 0, i);
            assert(head@ =~= line@.take(i as int));
            let kept = trim_end(head);
            assert(kept@ =~= line@.take(kept@.len() as int));
            return kept;
        }
        assert(!p(i as int));
        after_space = is_whitespace(c);
        i += 1;
    }
    assert(line@.take(line@.len() as int) =~= line@);
    line
}

/// Requirements that name a file or an address.
pub open spec fn is_path_like(requirement: Seq<char>) -> bool {
    ||| requirement.len() > 0 && (requirement[0] == '.' || requirement[0] == '/' || requirement[0]
        == '\\')
    ||| contains_text(requirement, "://"@)
    ||| "git+"@.is_prefix_of(requirement)
    ||| "file:"@.is_prefix_of(requirement)
}

/// Whether a requirement names a file or an address.
pub fn looks_like_requirement_path(requirement: &[char]) -> (b: bool)
    ensures
        b == is_path_like(requirement@),
{
    (requirement.len() > 0 && (requirement[0] == '.' || requirement[0] == '/' || requirement[0]
        == '\\')) || contains(requirement, "://") || starts_with(requirement, "git+")
        || starts_with(requirement, "file:")
}

/// The requirement that a line of a requirements file holds, and where in the
/// line it begins. Options, paths and addresses are none.
pub open spec fn line_requirement(line: Seq<char>) -> Option<(Seq<char>, int)> {
    let kept = without_requirement_comment(line);
    let rest = trimmed_start(kept);
    let requirement = trimmed_end(rest);
    if requirement.len() == 0 || requirement[0] == '-' || is_path_like(requirement) {
        None
    } else {
        Some((requirement, kept.len() - rest.len()))
    }
}

/// Reads a line of a requirements file.
pub fn parse_requirements_line(line: &[char]) -> (found: Option<(&[char], usize)>)
    ensures
        (match found {
            Some((requirement, start)) => Some((requirement@, start as int)),
            None => None,
        }) == line_requirement(line@),
        found matches Some((requirement, start)) ==> start + requirement@.len() <= line@.len()
            && requirement@ == line@.subrange(start as int, start + requirement@.len()),
{
    let kept = strip_requirement_comment(line);
    let rest = trim_start(kept);
    let start: usize = kept.len() - rest.len();
    let requirement = trim_end(rest);
    if requirement.len() == 0 || requirement[0] == '-' || looks_like_requirement_path(requirement) {
        return None;
    }
    assert(requirement@ =~= line@.subrange(start as int, start + requirement@.len()));
    Some((requirement, start))
}

/// The entry of the line of a requirements file that begins at `from`.
pub open spec fn requirements_line_entry(s: Seq<char>, from: int) -> Option<PythonEntryView> {
    match line_requirement(line_at(s, from)) {
        Some((requirement, start)) => requirement_entry(
            requirement,
            read_requirement(requirement),
            "requirements"@,
            byte_offset(s, from + start) as int,
            from + start,
            from + start + requirement.len(),
        ),
        None => None,
    }
}

/// The entries of a requirements file from the line that begins at `from`.
pub open spec fn requirements_entries(s: Seq<char>, from: int) -> Seq<PythonEntryView>
    decreases s.len() - from,
{
    if from < 0 || from >= s.len() {
        Seq::empty()
    } else {
        proof {
            lemma_line_end(s, from);
        }
        listed(requirements_line_entry(s, from)) + requirements_entries(s, line_end(s, from))
    }
}

/// Lists the entries of a requirements file.
#[verifier::rlimit(40)]
pub fn list_requirements_entries(text: &str) -> (entries: Vec<PythonEntry>)
    ensures
        python_entry_views(entries@) == requirements_entries(text@, 0),
        python_entries_stand(text@, python_entry_views(entries@)),
{
    let chars = chars_of(text);
    let s = chars.as_slice();
    let offsets = byte_offsets(text);
    let mut entries: Vec<PythonEntry> = Vec::new();
    let mut from: usize = 0;
    assert(python_entry_views(entries@) + requirements_entries(text@, 0) =~= requirements_entries(
        text@,
        0,
    ));
    while from < s.len()
        invariant
            s@ == text@,
            from <= s@.len(),
            byte_len(text@) <= usize::MAX,
            offsets@.len() == text@.len() + 1,
            forall|i: int| 0 <= i <= text@.len() ==> #[trigger] offsets@[i] == byte_offset(text@, i),
            requirements_entries(text@, 0) == python_entry_views(entries@) + requirements_entries(
                text@,
                from as int,
            ),
            python_entries_stand(text@, python_entry_views(entries@)),
        decreases s@.len() - from,
    {
        let end = find_line_end(s, from);
        let line = read_line(s, from, end);
        let ghost done = python_entry_views(entries@);
        let ghost rest = requirements_entries(text@, end as int);
        let found = parse_requirements_line(line);
        let mut entry: Option<PythonEntry> = None;
        if let Some((requirement, start)) = found {
            let ghost i = from + start;
            let ghost j = i + requirement@.len();
            proof {
                assert(requirement@ =~= text@.subrange(i, j));
                lemma_offset_in_stretch(text@, i, j, requirement@.len() as int);
                assert(requirement@.take(requirement@.len() as int) =~= requirement@);
                lemma_byte_offset_monotonic(text@, j, j);
            }
            let at: usize = offsets[from + start];
            let requirement_text = string_of(requirement);
            entry = parse_python_requirement(
                requirement_text.as_str(),
                "requirements",
                at,
                from + start,
                from + start + requirement.len(),
            );
            proof {
                if entry is Some {
                    let (a, b) = specifier_span(requirement@)->0;
                    assert(requirement@.take(b) =~= text@.subrange(i, i + b));
                    lemma_entry_stands(
                        text@,
                        requirement@,
                        i,
                        j,
                        read_requirement(requirement@),
                        "requirements"@,
                        a,
                        b,
                    );
                }
            }
        }
        assert(python_entry_of(entry) == requirements_line_entry(text@, from as int));
        if let Some(e) = entry {
            let ghost view = e@;
            entries.push(e);
            assert(python_entry_views(entries@) =~= done.push(view));
            assert(done + (seq![view] + rest) =~= done.push(view) + rest);
        } else {
            assert(done + (Seq::<PythonEntryView>::empty() + rest) =~= done + rest);
        }
        from = end;
    }
    assert(python_entry_views(entries@) + Seq::<PythonEntryView>::empty() =~= python_entry_views(
        entries@,
    ));
    entries
}

/// Holds of white space.
pub open spec fn is_space_at(s: Seq<char>) -> spec_fn(int) -> bool {
    |i: int| is_whitespace(s[i])
}

/// The first word of a line of a requirements file, and what follows it.
pub open spec fn line_directive(line: Seq<char>) -> (Seq<char>, Seq<char>) {
    let clean = trimmed(without_requirement_comment(line));
    match first_index(is_space_at(clean), 0, clean.len() as int) {
        Some(i) => (clean.take(i), trimmed(clean.skip(i))),
        None => (clean, Seq::empty()),
    }
}

/// Splits a line of a requirements file into its first word and the rest.
pub fn parse_requirements_directive(line: &[char]) -> (parts: (&[char], &[char]))
    ensures
        (parts.0@, parts.1@) == line_directive(line@),
{
    let clean = trim(strip_requirement_comment(line));
    let ghost p = is_space_at(clean@);
    let n: usize = clean.len();
    let mut i: usize = 0;
    while i < n && !is_whitespace(clean[i])
        invariant
            i <= n == clean@.len(),
            p == is_space_at(clean@),
            first_index(p, 0, n as int) == first_index(p, i as int, n as int),
        decreases n - i,
    {
        assert(!p(i as int));
        i += 1;
    }
    assert(i < n ==> p(i as int));
    let word = slice_subrange(clean, 0, i);
    let tail = slice_subrange(clean, i, n);
    assert(word@ =~= clean@.take(i as int));
    assert(tail@ =~= clean@.skip(i as int));
    let rest = trim(tail);
    if i >= n {
        assert(clean@.take(n as int) =~= clean@);
        assert(tail@ =~= Seq::<char>::empty());
        assert(trimmed(tail@) =~= Seq::<char>::empty());
    }
    (word, rest)
}

/// The file that a line of a requirements file refers to.
pub open spec fn included_path(line: Seq<char>) -> Option<Seq<char>> {
    let (directive, value) = line_directive(line);
    if (directive == "-r"@ || directive == "--requirement"@ || directive == "-c"@ || directive
        == "--constraint"@) && value.len() > 0 {
        Some(value)
    } else {
        None
    }
}

/// The files that lines of a requirements file refer to.
pub open spec fn included_paths(lines: Seq<Seq<char>>) -> Seq<Seq<char>>
    decreases lines.len(),
{
    if lines.len() == 0 {
        Seq::empty()
    } else {
        let before = included_paths(lines.drop_last());
        match included_path(lines.last()) {
            Some(path) => before.push(path),
            None => before,
        }
    }
}

/// Lists the requirements and constraints files that a requirements file refers
/// to.
pub fn requirements_include_paths(text: &str) -> (paths: Vec<String>)
    ensures
        texts_of(paths@) == included_paths(text_lines(text@, 0)),
{
    let chars = chars_of(text);
    let lines = split_lines(chars.as_slice());
    let mut paths: Vec<String> = Vec::new();
    let mut i: usize = 0;
    let ghost whole = text_lines(text@, 0);
    assert(whole.take(0) =~= Seq::<Seq<char>>::empty());
    assert(texts_of(paths@) =~= Seq::<Seq<char>>::empty());
    while i < lines.len()
        invariant
            i <= lines@.len(),
            whole == text_lines(text@, 0),
            lines@.len() == whole.len(),
            forall|k: int| 0 <= k < lines@.len() ==> (#[trigger] lines@[k])@ == whole[k],
            texts_of(paths@) == included_paths(whole.take(i as int)),
        decreases lines@.len() - i,
    {
        let line = lines[i];
        assert(line@ == whole[i as int]);
        assert(whole.take(i + 1).drop_last() =~= whole.take(i as int));
        let (directive, value) = parse_requirements_directive(line);
        let ghost done = texts_of(paths@);
        if (equals(directive, "-r") || equals(directive, "--requirement") || equals(directive, "-c")
            || equals(directive, "--constraint")) && value.len() > 0 {
            let path = string_of(value);
            let ghost view = path@;
            paths.push(path);
            assert(texts_of(paths@) =~= done.push(view));
        }
        i += 1;
    }
    assert(whole.take(i as int) =~= whole);
    paths
}

// ---------------------------------------------------------------------------
// Project files
// ---------------------------------------------------------------------------

/// The section that a header line opens.
pub open spec fn toml_section(header: Seq<char>) -> Option<Seq<char>> {
    let name = trimmed(up_to(header.skip(1), ']'));
    if !"[["@.is_prefix_of(header) && name.len() > 0 {
        Some(name)
    } else {
        None
    }
}

/// Reads the header line of a section.
pub fn parse_toml_section_name(header: &[char]) -> (section: Option<String>)
    requires
        header@.len() > 0,
    ensures
        text_of(section) == toml_section(header@),
{
    if starts_with(header, "[[") {
        return None;
    }
    let rest = slice_subrange(header, 1, header.len());
    assert(rest@ =~= header@.skip(1));
    let name = trim(before(rest, ']'));
    if name.len() > 0 {
        Some(string_of(name))
    } else {
        None
    }
}

/// The keys of a project file that list requirements.
pub open spec fn is_requirements_key(section: Seq<char>, key: Seq<char>) -> bool {
    ||| section == "project"@ && normalized_key(key) == Some("dependencies"@)
    ||| section == "build-system"@ && normalized_key(key) == Some("requires"@)
    ||| section == "project.optional-dependencies"@ && normalized_key(key) is Some
}

/// Whether a key of a project file lists requirements.
pub fn pyproject_dependency_key_is_supported(section: &str, key: &[char]) -> (b: bool)
    ensures
        b == is_requirements_key(section@, key@),
{
    match normalize_toml_key(key) {
        Some(name) => {
            (same_text(section, "project") && same_text(name.as_str(), "dependencies")) || (
            same_text(section, "build-system") && same_text(name.as_str(), "requires"))
                || same_text(section, "project.optional-dependencies")
        },
        None => false,
    }
}

/// What a list of requirements is called.
pub open spec fn section_label(section: Seq<char>, key: Seq<char>) -> Seq<char> {
    if section == "project"@ {
        "project.dependencies"@
    } else if section == "build-system"@ {
        "build-system.requires"@
    } else if section == "project.optional-dependencies"@ {
        match normalized_key(key) {
            Some(extra) => "project.optional-dependencies."@ + extra,
            None => "project.optional-dependencies"@,
        }
    } else {
        section
    }
}

/// Names a list of requirements.
pub fn pyproject_section_label(section: &str, key: &[char]) -> (label: String)
    ensures
        label@ == section_label(section@, key@),
{
    if same_text(section, "project") {
        "project.dependencies".to_string()
    } else if same_text(section, "build-system") {
        "build-system.requires".to_string()
    } else if same_text(section, "project.optional-dependencies") {
        match normalize_toml_key(key) {
            Some(extra) => {
                let mut label = "project.optional-dependencies.".to_string();
                label.append(extra.as_str());
                label
            },
            None => "project.optional-dependencies".to_string(),
        }
    } else {
        section.to_string()
    }
}

/// A list of requirements: what it is called, and where its brackets stand.
pub struct TomlDependencyArray {
    pub section: String,
    pub start: usize,
    pub end: usize,
}

/// What a [`TomlDependencyArray`] says.
#[verifier::ext_equal]
pub struct ArrayView {
    pub section: Seq<char>,
    pub start: int,
    pub end: int,
}

impl View for TomlDependencyArray {
    type V = ArrayView;

    open spec fn view(&self) -> ArrayView {
        ArrayView { section: self.section@, start: self.start as int, end: self.end as int }
    }
}

/// The views of lists.
pub open spec fn array_views(arrays: Seq<TomlDependencyArray>) -> Seq<ArrayView> {
    Seq::new(arrays.len(), |i: int| arrays[i]@)
}

/// The list of requirements that the line at `from` begins.
pub open spec fn line_array(s: Seq<char>, from: int, section: Seq<char>) -> Option<ArrayView> {
    let line = without_comment(line_at(s, from));
    match unquoted_index(line, '=') {
        Some(equals) => {
            let key = trimmed(line.take(equals));
            match past_space(s, from + equals + 1, s.len() as int) {
                Some(start) => if is_requirements_key(section, key) && s[start] == '[' {
                    match array_end(s, start) {
                        Some(end) => Some(
                            ArrayView { section: section_label(section, key), start, end },
                        ),
                        None => None,
                    }
                } else {
                    None
                },
                None => None,
            }
        },
        None => None,
    }
}

/// The lists of requirements of a project file from the line that begins at
/// `from`, where `section` is open.
pub open spec fn pyproject_arrays(s: Seq<char>, from: int, section: Option<Seq<char>>) -> Seq<
    ArrayView,
>
    decreases s.len() - from,
{
    if from < 0 || from >= s.len() {
        Seq::empty()
    } else {
        proof {
            lemma_line_end(s, from);
        }
        let header = trimmed(line_at(s, from));
        let next = line_end(s, from);
        if header.len() > 0 && header[0] == '[' {
            pyproject_arrays(s, next, toml_section(header))
        } else {
            let rest = pyproject_arrays(s, next, section);
            match section {
                Some(name) => match line_array(s, from, name) {
                    Some(a) => seq![a] + rest,
                    None => rest,
                },
                None => rest,
            }
        }
    }
}

/// Reads the list of requirements that the line in `from..end` begins.
fn read_line_array(s: &[char], from: usize, end: usize, section: &str) -> (array: Option<
    TomlDependencyArray,
>)
    requires
        from < s@.len(),
        end == line_end(s@, from as int),
        from < end <= s@.len(),
    ensures
        (match array {
            Some(a) => Some(a@),
            None => None,
        }) == line_array(s@, from as int, section@),
        array matches Some(a) ==> a.start < a.end < s@.len(),
{
    let n: usize = s.len();
    let line = strip_unquoted_comment(read_line(s, from, end));
    let equals_at = match find_unquoted_char(line, '=') {
        Some(i) => i,
        None => {
            return None;
        },
    };
    let key = slice_subrange(line, 0, equals_at);
    assert(key@ =~= line@.take(equals_at as int));
    let key = trim(key);
    let start = match skip_toml_ws(s, from + equals_at + 1) {
        Some(i) => i,
        None => {
            return None;
        },
    };
    if !pyproject_dependency_key_is_supported(section, key) || s[start] != '[' {
        return None;
    }
    proof {
        crate::scan::lemma_closing_bracket(s@, '[', ']', true, start as int, 0);
    }
    match find_matching_toml_array(s, start) {
        Some(close) => Some(
            TomlDependencyArray {
                section: pyproject_section_label(section, key),
                start,
                end: close,
            },
        ),
        None => None,
    }
}

/// Lists the lists of requirements of a project file.
pub fn find_pyproject_dependency_arrays(s: &[char]) -> (arrays: Vec<TomlDependencyArray>)
    ensures
        array_views(arrays@) == pyproject_arrays(s@, 0, None),
        forall|k: int|
            0 <= k < arrays@.len() ==> (#[trigger] arrays@[k]).start < arrays@[k].end < s@.len(),
{
    let ghost whole = pyproject_arrays(s@, 0, None);
    let mut arrays: Vec<TomlDependencyArray> = Vec::new();
    let mut section: Option<String> = None;
    let mut from: usize = 0;
    assert(array_views(arrays@) + whole =~= whole);
    while from < s.len()
        invariant
            from <= s@.len(),
            whole == pyproject_arrays(s@, 0, None),
            whole == array_views(arrays@) + pyproject_arrays(s@, from as int, text_of(section)),
            forall|k: int|
                0 <= k < arrays@.len() ==> (#[trigger] arrays@[k]).start < arrays@[k].end
                    < s@.len(),
        decreases s@.len() - from,
    {
        let end = find_line_end(s, from);
        let line = read_line(s, from, end);
        let header = trim(line);
        let ghost done = array_views(arrays@);
        let ghost rest = pyproject_arrays(s@, end as int, text_of(section));
        if header.len() > 0 && header[0] == '[' {
            section = parse_toml_section_name(header);
        } else if let Some(name) = &section {
            if let Some(array) = read_line_array(s, from, end, name.as_str()) {
                let ghost view = array@;
                arrays.push(array);
                assert(array_views(arrays@) =~= done.push(view));
                assert(done + (seq![view] + rest) =~= done.push(view) + rest);
            }
        }
        from = end;
    }
    assert(array_views(arrays@) + Seq::<ArrayView>::empty() =~= array_views(arrays@));
    arrays
}

/// Holds of what begins a string or a comment.
pub open spec fn is_mark_at(s: Seq<char>) -> spec_fn(int) -> bool {
    |i: int| is_quotation_mark(s[i]) || s[i] == '#'
}

/// The string that begins with the quotation mark at `i`.
pub open spec fn string_token(s: Seq<char>, i: int, to: int) -> Option<TokenView> {
    if s[i] == '\'' {
        literal_token(s, i, to)
    } else {
        json_token(s, i, to)
    }
}

/// The strings in `cursor..to`, outside comments and up to the first that cannot
/// be read.
pub open spec fn string_tokens(s: Seq<char>, cursor: int, to: int) -> Seq<TokenView>
    decreases to - cursor,
{
    proof {
        lemma_first_index(is_mark_at(s), cursor, to);
    }
    match first_index(is_mark_at(s), cursor, to) {
        Some(i) => {
            proof {
                lemma_json_token(s, i, to);
                lemma_literal_token(s, i, to);
                lemma_comment_end(s, i, to);
            }
            if s[i] == '#' {
                string_tokens(s, comment_end(s, i, to), to)
            } else {
                match string_token(s, i, to) {
                    Some(t) => seq![t] + string_tokens(s, t.outer_end, to),
                    None => Seq::empty(),
                }
            }
        },
        None => Seq::empty(),
    }
}

/// A string was read as it stands, up to its first escape; and one between double
/// quotation marks stands on one line.
pub open spec fn token_stands(text: Seq<char>, t: TokenView) -> bool {
    &&& 0 <= t.inner_start <= t.inner_end <= text.len()
    &&& is_verbatim(text.subrange(t.inner_start, t.inner_end)) ==> t.value == text.subrange(
        t.inner_start,
        t.inner_end,
    )
    &&& forall|n: int| #[trigger] is_plain_to(text, t, n) ==> reads_alike(text, t, n)
    &&& text[t.inner_start - 1] == '"' ==> forall|p: int|
        t.inner_start <= p < t.inner_end ==> #[trigger] text[p] != '\n'
    &&& byte_offset(text, t.inner_start) + byte_len(t.value) <= byte_len(text)
}

/// The views of tokens.
pub open spec fn token_views(tokens: Seq<StringToken>) -> Seq<TokenView> {
    Seq::new(tokens.len(), |i: int| tokens[i]@)
}

/// A literal string is read as it stands.
proof fn lemma_literal_stands(text: Seq<char>, t: TokenView)
    requires
        0 <= t.inner_start <= t.inner_end <= text.len(),
        t.value == text.subrange(t.inner_start, t.inner_end),
    ensures
        forall|n: int| #[trigger] is_plain_to(text, t, n) ==> reads_alike(text, t, n),
{
    assert forall|n: int| #[trigger] is_plain_to(text, t, n) implies reads_alike(text, t, n) by {
        assert(t.value.take(n) =~= text.subrange(t.inner_start, t.inner_start + n));
    }
}

/// Lists the strings in `from..to`.
pub fn toml_string_tokens(text: &[char], from: usize, to: usize) -> (tokens: Vec<StringToken>)
    requires
        from <= to <= text@.len(),
    ensures
        token_views(tokens@) == string_tokens(text@, from as int, to as int),
        forall|k: int|
            0 <= k < tokens@.len() ==> token_stands(text@, (#[trigger] tokens@[k])@),
{
    let ghost whole = string_tokens(text@, from as int, to as int);
    let ghost p = is_mark_at(text@);
    let mut tokens: Vec<StringToken> = Vec::new();
    let mut cursor: usize = from;
    let mut i: usize = from;
    assert(token_views(tokens@) + whole =~= whole);
    while i < to
        invariant
            from <= cursor <= i <= to <= text@.len(),
            p == is_mark_at(text@),
            whole == string_tokens(text@, from as int, to as int),
            whole == token_views(tokens@) + string_tokens(text@, cursor as int, to as int),
            first_index(p, cursor as int, to as int) == first_index(p, i as int, to as int),
            forall|k: int|
                0 <= k < tokens@.len() ==> token_stands(text@, (#[trigger] tokens@[k])@),
        decreases to - i,
    {
        let ghost done = token_views(tokens@);
        if is_quotation_mark(text[i]) {
            assert(p(i as int));
            let found = if text[i] == '\'' {
                next_toml_literal_string(text, i, to)
            } else {
                next_json_string(text, i, to)
            };
            match found {
                Some(token) => {
                    let ghost view = token@;
                    let ghost rest = string_tokens(text@, token.outer_end as int, to as int);
                    proof {
                        assert(done + (seq![view] + rest) =~= done.push(view) + rest);
                        if text@[i as int] == '\'' {
                            lemma_literal_stands(text@, view);
                        }
                        lemma_byte_offset_monotonic(
                            text@,
                            view.inner_end,
                            view.inner_end,
                        );
                    }
                    cursor = token.outer_end;
                    i = cursor;
                    tokens.push(token);
                    assert(token_views(tokens@) =~= done.push(view));
                },
                None => {
                    assert(done + Seq::<TokenView>::empty() =~= done);
                    return tokens;
                },
            }
        } else if text[i] == '#' {
            assert(p(i as int));
            cursor = skip_toml_comment(text, i, to);
            i = cursor;
        } else {
            assert(!p(i as int));
            i += 1;
        }
    }
    assert(token_views(tokens@) + Seq::<TokenView>::empty() =~= token_views(tokens@));
    tokens
}

/// The entry of a string in a list of requirements.
pub open spec fn token_entry(s: Seq<char>, t: TokenView, section: Seq<char>) -> Option<
    PythonEntryView,
> {
    requirement_entry(
        t.value,
        read_requirement(t.value),
        section,
        byte_offset(s, t.inner_start) as int,
        t.inner_start,
        t.inner_end,
    )
}

/// The entries of strings in a list of requirements.
pub open spec fn token_entries(s: Seq<char>, tokens: Seq<TokenView>, section: Seq<char>) -> Seq<
    PythonEntryView,
>
    decreases tokens.len(),
{
    if tokens.len() == 0 {
        Seq::empty()
    } else {
        token_entries(s, tokens.drop_last(), section) + listed(
            token_entry(s, tokens.last(), section),
        )
    }
}

/// The entries of lists of requirements.
pub open spec fn array_entries(s: Seq<char>, arrays: Seq<ArrayView>) -> Seq<PythonEntryView>
    decreases arrays.len(),
{
    if arrays.len() == 0 {
        Seq::empty()
    } else {
        let last = arrays.last();
        array_entries(s, arrays.drop_last()) + token_entries(
            s,
            string_tokens(s, last.start, last.end),
            last.section,
        )
    }
}

/// The entries of a project file.
pub open spec fn pyproject_entries(s: Seq<char>) -> Seq<PythonEntryView> {
    array_entries(s, pyproject_arrays(s, 0, None))
}

/// The entry of a string stands in its list.
proof fn lemma_token_entry_stands(
    s: Seq<char>,
    t: TokenView,
    section: Seq<char>,
    start: int,
    end: int,
)
    requires
        token_stands(s, t),
        specifier_span(t.value) == Some((start, end)),
        0 <= start < end <= t.value.len(),
        !is_whitespace(t.value[start]),
        !is_whitespace(t.value[end - 1]),
        token_entry(s, t, section) is Some,
    ensures
        stands_in_list(s, token_entry(s, t, section)->0),
{
    let e = token_entry(s, t, section)->0;
    let i = t.inner_start;
    let j = t.inner_end;
    if is_written_plainly(s, e) {
        if j <= i + end {
            assert(t.value == s.subrange(i, j));
            assert(t.value.take(end) =~= s.subrange(i, i + end));
        } else {
            assert(is_plain_to(s, t, end));
        }
        lemma_entry_stands(s, t.value, i, j, read_requirement(t.value), section, start, end);
    }
}

/// Lists the entries of a list of requirements.
fn list_array_entries(s: &[char], offsets: &Vec<usize>, array: &TomlDependencyArray) -> (entries:
    Vec<PythonEntry>)
    requires
        array.start < array.end < s@.len(),
        byte_len(s@) <= usize::MAX,
        offsets@.len() == s@.len() + 1,
        forall|i: int| 0 <= i <= s@.len() ==> #[trigger] offsets@[i] == byte_offset(s@, i),
    ensures
        python_entry_views(entries@) == token_entries(
            s@,
            string_tokens(s@, array.start as int, array.end as int),
            array.section@,
        ),
        plain_entries_stand(s@, python_entry_views(entries@)),
{
    let tokens = toml_string_tokens(s, array.start, array.end);
    let ghost views = token_views(tokens@);
    let mut entries: Vec<PythonEntry> = Vec::new();
    let mut i: usize = 0;
    assert(views.take(0) =~= Seq::<TokenView>::empty());
    assert(python_entry_views(entries@) =~= Seq::<PythonEntryView>::empty());
    while i < tokens.len()
        invariant
            i <= tokens@.len(),
            views == token_views(tokens@),
            byte_len(s@) <= usize::MAX,
            offsets@.len() == s@.len() + 1,
            forall|k: int| 0 <= k <= s@.len() ==> #[trigger] offsets@[k] == byte_offset(s@, k),
            forall|k: int| 0 <= k < tokens@.len() ==> token_stands(s@, (#[trigger] tokens@[k])@),
            python_entry_views(entries@) == token_entries(s@, views.take(i as int), array.section@),
            plain_entries_stand(s@, python_entry_views(entries@)),
        decreases tokens@.len() - i,
    {
        let token = &tokens[i];
        let ghost t = token@;
        let ghost done = python_entry_views(entries@);
        assert(token_stands(s@, tokens@[i as int]@));
        assert(views.take(i + 1).drop_last() =~= views.take(i as int));
        assert(views.take(i + 1).last() == t);
        let at: usize = offsets[token.inner_start];
        let entry = parse_python_requirement(
            token.value.as_str(),
            array.section.as_str(),
            at,
            token.inner_start,
            token.inner_end,
        );
        proof {
            if entry is Some {
                let (a, b) = specifier_span(t.value)->0;
                lemma_token_entry_stands(s@, t, array.section@, a, b);
            }
        }
        if let Some(e) = entry {
            let ghost view = e@;
            entries.push(e);
            assert(python_entry_views(entries@) =~= done.push(view));
            assert(done + seq![view] =~= done.push(view));
        } else {
            assert(done + Seq::<PythonEntryView>::empty() =~= done);
        }
        i += 1;
    }
    assert(views.take(i as int) =~= views);
    entries
}

/// Lists the entries of a project file.
pub fn list_pyproject_entries(text: &str) -> (entries: Vec<PythonEntry>)
    ensures
        python_entry_views(entries@) == pyproject_entries(text@),
        plain_entries_stand(text@, python_entry_views(entries@)),
{
    let chars = chars_of(text);
    let s = chars.as_slice();
    let offsets = byte_offsets(text);
    let arrays = find_pyproject_dependency_arrays(s);
    let ghost views = array_views(arrays@);
    let mut entries: Vec<PythonEntry> = Vec::new();
    let mut i: usize = 0;
    assert(views.take(0) =~= Seq::<ArrayView>::empty());
    assert(python_entry_views(entries@) =~= Seq::<PythonEntryView>::empty());
    while i < arrays.len()
        invariant
            i <= arrays@.len(),
            s@ == text@,
            views == array_views(arrays@),
            byte_len(s@) <= usize::MAX,
            offsets@.len() == s@.len() + 1,
            forall|k: int| 0 <= k <= s@.len() ==> #[trigger] offsets@[k] == byte_offset(s@, k),
            forall|k: int|
                0 <= k < arrays@.len() ==> (#[trigger] arrays@[k]).start < arrays@[k].end
                    < s@.len(),
            python_entry_views(entries@) == array_entries(s@, views.take(i as int)),
            plain_entries_stand(s@, python_entry_views(entries@)),
        decreases arrays@.len() - i,
    {
        assert(views.take(i + 1).drop_last() =~= views.take(i as int));
        assert(views.take(i + 1).last() == arrays@[i as int]@);
        let mut more = list_array_entries(s, &offsets, &arrays[i]);
        let ghost done = entries@;
        let ghost added = more@;
        entries.append(&mut more);
        assert(python_entry_views(entries@) =~= python_entry_views(done) + python_entry_views(
            added,
        ));
        i += 1;
    }
    assert(views.take(i as int) =~= views);
    entries
}

} // verus!
