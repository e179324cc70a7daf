//! What the lines of a Cargo manifest have to do with the header above them.

use crate::cargo_edits::lemma_line_entry_bounds;
use crate::cargo_laws::{
    heading_line, heading_text, is_heading, is_package_section, is_section_name,
    lemma_heading_line, lemma_trimmed_heading, Heading,
};
use crate::entries::{cargo_entries, cargo_line, cargo_section, line_entries};
use crate::joined::{
    ends_a_line, later_entries, lemma_bytes_joined, lemma_cargo_second, lemma_line_first,
};
use crate::laws::later_dependencies;
use crate::lines::{lemma_line_end, line_at, line_end, without_line_break};
use crate::manifest::{manifest_dependencies, ManifestKind};
use crate::markers::is_gap;
use crate::python_laws::{lemma_kept_at, lemma_one_line, lemma_trimmed_lead};
use crate::text::{
    byte_len, index_of, is_whitespace, lemma_index_of, lemma_trimmed_end, lemma_trimmed_start,
    trimmed, trimmed_end, trimmed_start, up_to,
};
use vstd::prelude::*;

verus! {

// ---------------------------------------------------------------------------
// Lines without headers
// ---------------------------------------------------------------------------

/// The character at `k` stands before the one at `i`, on the same line, and is no
/// blank.
pub open spec fn stands_before(s: Seq<char>, k: int, i: int) -> bool {
    &&& 0 <= k < i
    &&& !is_whitespace(s[k])
    &&& forall|m: int| k <= m < i ==> #[trigger] s[m] != '\n'
}

/// No line of a text begins with a bracket.
#[verifier::opaque]
pub open spec fn lacks_headers(s: Seq<char>) -> bool {
    forall|i: int|
        0 <= i < s.len() && #[trigger] s[i] == '[' ==> exists|k: int| stands_before(s, k, i)
}

/// A line begins at `from`.
pub open spec fn begins_line(s: Seq<char>, from: int) -> bool {
    0 <= from <= s.len() && (from == 0 || from == s.len() || s[from - 1] == '\n')
}

/// A line without its end is the beginning of the line.
proof fn lemma_unbroken(line: Seq<char>)
    ensures
        without_line_break(line).len() <= line.len(),
        without_line_break(line) == line.take(without_line_break(line).len() as int),
    decreases line.len(),
{
    if line.len() > 0 && (line.last() == '\r' || line.last() == '\n') {
        lemma_unbroken(line.drop_last());
        let n = without_line_break(line).len() as int;
        assert(line.drop_last().take(n) =~= line.take(n));
    } else {
        assert(line.take(line.len() as int) =~= line);
    }
}

/// The blanks before what is left.
proof fn lemma_blanks(s: Seq<char>)
    ensures
        forall|k: int|
            0 <= k < s.len() - trimmed_start(s).len() ==> is_whitespace(#[trigger] s[k]),
    decreases s.len(),
{
    if s.len() > 0 && is_whitespace(s[0]) {
        lemma_blanks(s.skip(1));
        assert forall|k: int| 0 <= k < s.len() - trimmed_start(s).len() implies is_whitespace(
            #[trigger] s[k],
        ) by {
            if k > 0 {
                assert(s.skip(1)[k - 1] == s[k]);
            }
        }
    }
}

/// No line of a text without headers is one.
pub(crate) proof fn lemma_no_header(s: Seq<char>, from: int)
    requires
        lacks_headers(s),
        begins_line(s, from),
        from < s.len(),
    ensures
        trimmed(line_at(s, from)).len() > 0 ==> trimmed(line_at(s, from))[0] != '[',
        begins_line(s, line_end(s, from)),
{
    reveal(lacks_headers);
    let end = line_end(s, from);
    lemma_line_end(s, from);
    lemma_index_of(s, '\n', from, s.len() as int);
    let whole = s.subrange(from, end);
    let line = line_at(s, from);
    lemma_unbroken(whole);
    lemma_trimmed_start(line);
    lemma_trimmed_end(trimmed_start(line));
    lemma_blanks(line);
    let header = trimmed(line);
    let p = line.len() - trimmed_start(line).len();
    if header.len() > 0 && header[0] == '[' {
        assert(trimmed_start(line)[0] == header[0]);
        assert(line[p] == '[');
        assert(whole[p] == line[p]);
        let at = from + p;
        assert(s[at] == '[');
        let k = choose|k: int| stands_before(s, k, at);
        if k < from {
            assert(s[from - 1] != '\n');
        } else {
            assert(whole[k - from] == s[k]);
            assert(line[k - from] == whole[k - from]);
        }
    }
}

/// The entries of lines and of what stands behind them.
proof fn lemma_lines_joined(
    a: Seq<char>,
    b: Seq<char>,
    from: int,
    section: Option<Seq<char>>,
    workspace: bool,
)
    requires
        ends_a_line(a),
        lacks_headers(a),
        begins_line(a, from),
    ensures
        cargo_entries(a + b, from, section, workspace) == cargo_entries(a, from, section, workspace)
            + later_entries(cargo_entries(b, 0, section, workspace), byte_len(a) as int),
    decreases a.len() - from,
{
    let later = later_entries(cargo_entries(b, 0, section, workspace), byte_len(a) as int);
    if from < a.len() {
        lemma_line_first(a, b, from);
        lemma_line_end(a, from);
        lemma_no_header(a, from);
        let next = line_end(a, from);
        lemma_lines_joined(a, b, next, section, workspace);
        lemma_line_entry_bounds(a, from, workspace);
        if let Some(e) = cargo_line(line_at(a, from), workspace) {
            lemma_bytes_joined(a, b, from + e.start);
            lemma_bytes_joined(a, b, from + e.end);
        }
        let here = line_entries(a, from, section, workspace);
        let rest = cargo_entries(a, next, section, workspace);
        assert(line_entries(a + b, from, section, workspace) =~= here);
        assert(here + (rest + later) =~= here + rest + later);
    } else {
        lemma_cargo_second(a, b, 0, section, workspace);
        assert(cargo_entries(a, from, section, workspace) + later =~= later);
    }
}

/// Lines outside any section of dependencies have no entries.
pub(crate) proof fn lemma_sectionless(s: Seq<char>, from: int, workspace: bool)
    requires
        lacks_headers(s),
        begins_line(s, from),
    ensures
        cargo_entries(s, from, None, workspace).len() == 0,
    decreases s.len() - from,
{
    if from < s.len() {
        lemma_line_end(s, from);
        lemma_no_header(s, from);
        lemma_sectionless(s, line_end(s, from), workspace);
    }
}

/// The entries below a header are those of its section.
proof fn lemma_below(h: Heading, b: Seq<char>, workspace: bool)
    requires
        is_heading(h),
        is_section_name(h.section),
    ensures
        cargo_entries(heading_text(h) + b, 0, None, workspace) == later_entries(
            cargo_entries(b, 0, cargo_section(trimmed(heading_line(h)), workspace), workspace),
            byte_len(heading_text(h)) as int,
        ),
{
    let top = heading_text(h);
    let section = cargo_section(trimmed(heading_line(h)), workspace);
    lemma_heading_line(h);
    lemma_line_first(top, b, 0);
    lemma_trimmed_heading(h);
    lemma_cargo_second(top, b, 0, section, workspace);
}

/// Entries below a header, in two parts.
pub(crate) proof fn lemma_section_joined(
    h: Heading,
    a: Seq<char>,
    b: Seq<char>,
    workspace: bool,
)
    requires
        is_heading(h),
        is_section_name(h.section),
        ends_a_line(a),
        lacks_headers(a),
    ensures
        cargo_entries(heading_text(h) + (a + b), 0, None, workspace) == cargo_entries(
            heading_text(h) + a,
            0,
            None,
            workspace,
        ) + later_entries(
            cargo_entries(heading_text(h) + b, 0, None, workspace),
            byte_len(a) as int,
        ),
{
    let section = cargo_section(trimmed(heading_line(h)), workspace);
    let bytes = byte_len(heading_text(h)) as int;
    lemma_below(h, a + b, workspace);
    lemma_below(h, a, workspace);
    lemma_below(h, b, workspace);
    lemma_lines_joined(a, b, 0, section, workspace);
    let x = cargo_entries(a, 0, section, workspace);
    let y = cargo_entries(b, 0, section, workspace);
    let n = byte_len(a) as int;
    assert(later_entries(x + later_entries(y, n), bytes) =~= later_entries(x, bytes)
        + later_entries(later_entries(y, bytes), n));
}

// ---------------------------------------------------------------------------
// Laws
// ---------------------------------------------------------------------------

/// A section declares what its lines declare: those up to a line break, and then those
/// behind it, as far to the right as the first ones are long.
pub proof fn section_lines_join(h: Heading, a: Seq<char>, b: Seq<char>)
    requires
        is_heading(h),
        is_section_name(h.section),
        ends_a_line(a),
        lacks_headers(a),
    ensures
        manifest_dependencies(heading_text(h) + (a + b), ManifestKind::Cargo)
            == manifest_dependencies(heading_text(h) + a, ManifestKind::Cargo)
            + later_dependencies(
            manifest_dependencies(heading_text(h) + b, ManifestKind::Cargo),
            byte_len(a) as int,
        ),
{
    lemma_section_joined(h, a, b, true);
    assert(manifest_dependencies(heading_text(h) + (a + b), ManifestKind::Cargo)
        =~= manifest_dependencies(heading_text(h) + a, ManifestKind::Cargo) + later_dependencies(
        manifest_dependencies(heading_text(h) + b, ManifestKind::Cargo),
        byte_len(a) as int,
    ));
}

/// What stands above the first header declares nothing.
pub proof fn lines_above_the_headers_declare_nothing(a: Seq<char>)
    requires
        lacks_headers(a),
    ensures
        manifest_dependencies(a, ManifestKind::Cargo).len() == 0,
{
    lemma_sectionless(a, 0, true);
}

/// A header of whatever name.
pub open spec fn any_header(
    lead: Seq<char>,
    name: Seq<char>,
    rest: Seq<char>,
    ending: Seq<char>,
) -> Seq<char> {
    lead + (seq!['['] + name + seq![']'] + rest) + ending
}

/// A header of whatever name, on a line of its own.
pub open spec fn is_any_header(
    lead: Seq<char>,
    name: Seq<char>,
    rest: Seq<char>,
    ending: Seq<char>,
) -> bool {
    &&& is_gap(lead)
    &&& forall|i: int|
        0 <= i < name.len() ==> #[trigger] name[i] != ']' && name[i] != '\n' && name[i] != '\r'
    &&& forall|i: int| 0 <= i < rest.len() ==> #[trigger] rest[i] != '\n' && rest[i] != '\r'
    &&& ending == seq!['\n'] || ending == seq!['\r', '\n']
}

/// The line of a header of whatever name, and the section that it opens.
pub(crate) proof fn lemma_any_header(
    lead: Seq<char>,
    name: Seq<char>,
    rest: Seq<char>,
    ending: Seq<char>,
)
    requires
        is_any_header(lead, name, rest, ending),
    ensures
        ({
            let top = any_header(lead, name, rest, ending);
            let header = trimmed(line_at(top, 0));
            &&& top.len() > 0
            &&& ends_a_line(top)
            &&& line_end(top, 0) == top.len()
            &&& header.len() > 1
            &&& header[0] == '['
            &&& up_to(header.skip(1), ']') == name
            &&& name.len() > 0 && name[0] == '[' ==> "[["@.is_prefix_of(header)
        }),
{
    reveal_strlit("[[");
    let body = seq!['['] + name + seq![']'] + rest;
    let line = lead + body;
    let n = name.len() as int;
    let l = lead.len() as int;
    assert forall|i: int| 0 <= i < line.len() implies #[trigger] line[i] != '\n' && line[i]
        != '\r' by {
        if i < l {
            assert(line[i] == lead[i]);
        } else if i == l {
            assert(line[i] == '[');
        } else if i < l + 1 + n {
            assert(line[i] == name[i - l - 1]);
        } else if i == l + 1 + n {
            assert(line[i] == ']');
        } else {
            assert(line[i] == rest[i - l - n - 2]);
        }
    }
    lemma_one_line(line, ending);
    assert(any_header(lead, name, rest, ending).last() == ending.last());
    assert(body[0] == '[');
    lemma_trimmed_lead(lead, body);
    assert(body[n + 1] == ']');
    lemma_kept_at(body, n + 1);
    lemma_trimmed_end(body);
    let header = trimmed_end(body);
    let inner = header.skip(1);
    assert forall|k: int| 0 <= k < n implies #[trigger] inner[k] == name[k] by {
        assert(inner[k] == body[k + 1]);
    }
    assert(inner[n] == body[n + 1]);
    lemma_index_of(inner, ']', 0, inner.len() as int);
    assert forall|k: int| 0 <= k < n implies #[trigger] inner[k] != ']' by {
        assert(inner[k] == name[k]);
    }
    assert(index_of(inner, ']', 0, inner.len() as int) == Some(n));
    assert(up_to(inner, ']') =~= name);
    if n > 0 && name[0] == '[' {
        assert(header[1] == inner[0]);
        assert("[["@ =~= header.take(2));
    }
}

/// The lines below a header of another name have no entries.
pub(crate) proof fn lemma_other_section(
    lead: Seq<char>,
    name: Seq<char>,
    rest: Seq<char>,
    ending: Seq<char>,
    a: Seq<char>,
    workspace: bool,
)
    requires
        is_any_header(lead, name, rest, ending),
        (name.len() > 0 && name[0] == '[') || (!is_package_section(trimmed(name)) && (workspace
            ==> trimmed(name) != "workspace.dependencies"@)),
        lacks_headers(a),
    ensures
        cargo_entries(any_header(lead, name, rest, ending) + a, 0, None, workspace).len() == 0,
{
    let top = any_header(lead, name, rest, ending);
    lemma_any_header(lead, name, rest, ending);
    lemma_line_first(top, a, 0);
    lemma_cargo_second(top, a, 0, None, workspace);
    lemma_sectionless(a, 0, workspace);
}

/// The lines below a header of another name declare nothing, whatever they say; nor do
/// those below a header between double brackets.
pub proof fn other_sections_declare_nothing(
    lead: Seq<char>,
    name: Seq<char>,
    rest: Seq<char>,
    ending: Seq<char>,
    a: Seq<char>,
)
    requires
        is_any_header(lead, name, rest, ending),
        (name.len() > 0 && name[0] == '[') || (!is_package_section(trimmed(name)) && trimmed(name)
            != "workspace.dependencies"@),
        lacks_headers(a),
    ensures
        manifest_dependencies(any_header(lead, name, rest, ending) + a, ManifestKind::Cargo).len()
            == 0,
{
    lemma_other_section(lead, name, rest, ending, a, true);
}

} // verus!
