//! Project files that are written one behind the other.

use crate::cargo_laws::{
    assigned_text, declaration_text, heading_text, is_assignment, is_closed, is_heading,
    is_section_name, lemma_assigned_line, lemma_bare_key, lemma_heading_line, lemma_named,
    lemma_split, lemma_trimmed_heading, lemma_uncommented, Assignment, Heading,
};
use crate::edits::{byte_shift, is_edit, replaced, shift};
use crate::joined::{begins_with_header, ends_a_line, lemma_line_first, lemma_line_second};
use crate::laws::later_dependencies;
use crate::lines::{lemma_line_end, line_at, line_end};
use crate::manifest::{manifest_dependencies, python_dependencies, ManifestKind};
use crate::pyproject_edits::{
    begun_entries, lemma_array_before, lemma_list_same, lemma_project_behind, lemma_project_step,
    project_entries,
};
use crate::pyproject_lines::{
    assigns_at, begun_list, is_section_line, lemma_bracket_bounds, list_bracket, list_key,
    section_behind,
};
use crate::project_laws::list_label;
use crate::python::{pyproject_arrays, section_label, toml_section, PythonEntryView};
use crate::python_laws::is_line_ending;
use crate::tables::is_bare;
use crate::python_edits::moved_entries;
use crate::scan::{array_end, is_not_space, is_unquoted, past_space, without_comment};
use crate::section_laws::{
    any_header, begins_line, is_any_header, lacks_headers, lemma_any_header, lemma_no_header,
};
use crate::text::{byte_len, is_whitespace, lemma_encode_concat, lemma_first_index, trimmed};
use vstd::prelude::*;

verus! {

/// Every assignment of a text has its value in it, and every list of requirements in it
/// is closed.
pub open spec fn is_complete(s: Seq<char>, from: int, section: Option<Seq<char>>) -> bool
    decreases s.len() - from,
{
    if from < 0 || from >= s.len() {
        true
    } else {
        proof {
            lemma_line_end(s, from);
        }
        &&& !is_section_line(s, from) ==> (assigns_at(line_at(s, from)) matches Some(e)
            ==> past_space(s, from + e + 1, s.len() as int) is Some)
        &&& begun_list(s, from, section) matches Some(start) ==> array_end(s, start) is Some
        &&& is_complete(s, line_end(s, from), section_behind(s, from, section))
    }
}

/// The section that is open at the end of a text.
pub open spec fn last_section(s: Seq<char>, from: int, section: Option<Seq<char>>) -> Option<
    Seq<char>,
>
    decreases s.len() - from,
{
    if from < 0 || from >= s.len() {
        section
    } else {
        proof {
            lemma_line_end(s, from);
        }
        last_section(s, line_end(s, from), section_behind(s, from, section))
    }
}

/// What a line assigns is found in both texts.
proof fn lemma_bracket_first(a: Seq<char>, b: Seq<char>, from: int)
    requires
        ends_a_line(a),
        0 <= from < a.len(),
        assigns_at(line_at(a, from)) matches Some(e) ==> past_space(
            a,
            from + e + 1,
            a.len() as int,
        ) is Some,
    ensures
        list_bracket(a + b, from) == list_bracket(a, from),
        list_key(a + b, from) == list_key(a, from),
        is_section_line(a + b, from) == is_section_line(a, from),
        line_end(a + b, from) == line_end(a, from),
{
    let t = a + b;
    lemma_line_first(a, b, from);
    if let Some(e) = assigns_at(line_at(a, from)) {
        let x = from + e + 1;
        let line = without_comment(line_at(a, from));
        lemma_first_index(is_unquoted(line, '='), 0, line.len() as int);
        let p = is_not_space(a);
        let q = is_not_space(t);
        lemma_first_index(p, x, a.len() as int);
        lemma_first_index(q, x, t.len() as int);
        let i = past_space(a, x, a.len() as int)->0;
        assert(p(i));
        assert(t[i] == a[i]);
        assert(q(i));
        assert forall|k: int| x <= k < i implies !(#[trigger] q(k)) by {
            assert(!p(k));
            assert(t[k] == a[k]);
        }
        assert(past_space(t, x, t.len() as int) == Some(i));
    }
}

/// The list that a line of the first text begins is the same in both.
proof fn lemma_begun_first(a: Seq<char>, b: Seq<char>, from: int, section: Option<Seq<char>>)
    requires
        ends_a_line(a),
        b.len() > 0,
        0 <= from < a.len(),
        is_complete(a, from, section),
    ensures
        begun_entries(a + b, from, section) == begun_entries(a, from, section),
        section_behind(a + b, from, section) == section_behind(a, from, section),
        line_end(a + b, from) == line_end(a, from),
{
    let n = a.len() as int;
    lemma_line_first(a, b, from);
    if !is_section_line(a, from) {
        lemma_bracket_first(a, b, from);
    }
    assert(replaced(a, n, n, b) =~= a + b);
    assert(is_edit(a, n, n, b));
    lemma_bracket_bounds(a, from);
    if let Some(start) = begun_list(a, from, section) {
        crate::scan::lemma_closing_bracket(a, '[', ']', true, start, 0);
        let end = array_end(a, start)->0;
        lemma_array_before(a, n, n, b, start, 0);
        lemma_list_same(
            a,
            n,
            n,
            b,
            start,
            end,
            section_label(section->0, list_key(a, from)),
        );
    }
}

/// The entries of both texts, from a line of the first one on.
proof fn lemma_project_joined(a: Seq<char>, b: Seq<char>, from: int, section: Option<Seq<char>>)
    requires
        ends_a_line(a),
        a.len() > 0,
        b.len() > 0,
        0 <= from <= a.len(),
        is_complete(a, from, section),
    ensures
        project_entries(a + b, from, section) == project_entries(a, from, section) + moved_entries(
            project_entries(b, 0, last_section(a, from, section)),
            a.len() as int,
            byte_len(a) as int,
        ),
    decreases a.len() - from,
{
    let n = a.len() as int;
    let bytes = byte_len(a) as int;
    let later = moved_entries(project_entries(b, 0, last_section(a, from, section)), n, bytes);
    if from < n {
        lemma_line_end(a, from);
        lemma_project_step(a, from, section);
        lemma_project_step(a + b, from, section);
        lemma_begun_first(a, b, from, section);
        let next = line_end(a, from);
        let behind = section_behind(a, from, section);
        lemma_project_joined(a, b, next, behind);
        let here = begun_entries(a, from, section);
        let rest = project_entries(a, next, behind);
        assert(here + (rest + later) =~= here + rest + later);
    } else {
        assert(replaced(b, 0, 0, a) =~= a + b);
        lemma_project_behind(b, 0, 0, a, 0, section);
        assert(shift(0, 0, a) == n);
        assert(byte_shift(b, 0, 0, a) == bytes);
        assert(project_entries(a, from, section) =~= Seq::<PythonEntryView>::empty());
        assert(Seq::<PythonEntryView>::empty() + later =~= later);
    }
}

/// The dependencies of entries, and of moved ones behind them.
proof fn lemma_python_join(a: Seq<PythonEntryView>, b: Seq<PythonEntryView>, d: int, bytes: int)
    ensures
        python_dependencies(a + moved_entries(b, d, bytes)) == python_dependencies(a)
            + later_dependencies(python_dependencies(b), bytes),
{
    assert(python_dependencies(a + moved_entries(b, d, bytes)) =~= python_dependencies(a)
        + later_dependencies(python_dependencies(b), bytes));
}

/// A project file that is split before a header lists what its two parts list, the
/// second one's dependencies as far to the right as the first one is long, if the first
/// one is complete.
pub proof fn project_files_join(a: Seq<char>, b: Seq<char>)
    requires
        ends_a_line(a),
        is_complete(a, 0, None),
        begins_with_header(b),
    ensures
        manifest_dependencies(a + b, ManifestKind::Pyproject) == manifest_dependencies(
            a,
            ManifestKind::Pyproject,
        ) + later_dependencies(
            manifest_dependencies(b, ManifestKind::Pyproject),
            byte_len(a) as int,
        ),
{
    let n = a.len() as int;
    let bytes = byte_len(a) as int;
    if n == 0 {
        assert(a + b =~= b);
        assert(project_entries(a, 0, None) =~= Seq::<PythonEntryView>::empty());
        assert(byte_len(a) == 0);
        assert(manifest_dependencies(a, ManifestKind::Pyproject) + later_dependencies(
            manifest_dependencies(b, ManifestKind::Pyproject),
            bytes,
        ) =~= manifest_dependencies(b, ManifestKind::Pyproject));
    } else {
        lemma_project_joined(a, b, 0, None);
        let section = last_section(a, 0, None);
        assert(project_entries(b, 0, section) == project_entries(b, 0, None));
        lemma_python_join(project_entries(a, 0, None), project_entries(b, 0, None), n, bytes);
    }
}

// ---------------------------------------------------------------------------
// Sections
// ---------------------------------------------------------------------------

/// Lines without headers leave the section open.
proof fn lemma_section_stays(s: Seq<char>, from: int, section: Option<Seq<char>>)
    requires
        lacks_headers(s),
        begins_line(s, from),
    ensures
        last_section(s, from, section) == section,
    decreases s.len() - from,
{
    if from < s.len() {
        lemma_line_end(s, from);
        lemma_no_header(s, from);
        lemma_section_stays(s, line_end(s, from), section);
    }
}

/// The section that is open behind a header and lines of the section.
proof fn lemma_last_behind(
    a: Seq<char>,
    b: Seq<char>,
    from: int,
    section: Option<Seq<char>>,
)
    requires
        0 <= from <= b.len(),
    ensures
        last_section(a + b, a.len() + from, section) == last_section(b, from, section),
    decreases b.len() - from,
{
    if from < b.len() {
        lemma_line_second(a, b, from);
        lemma_line_end(b, from);
        lemma_last_behind(a, b, line_end(b, from), section_behind(b, from, section));
    }
}

/// A header and what stands below it.
proof fn lemma_header_first(h: Heading, a: Seq<char>)
    requires
        is_heading(h),
        is_section_name(h.section),
    ensures
        ({
            let top = heading_text(h);
            &&& top.len() > 0
            &&& ends_a_line(top)
            &&& is_complete(top, 0, None)
            &&& project_entries(top, 0, None).len() == 0
            &&& last_section(top, 0, None) == Some(h.section)
            &&& last_section(top + a, 0, None) == last_section(a, 0, Some(h.section))
        }),
{
    let top = heading_text(h);
    lemma_heading_line(h);
    lemma_trimmed_heading(h);
    lemma_named(h);
    assert(toml_section(trimmed(line_at(top, 0))) == Some(h.section));
    lemma_line_first(top, a, 0);
    lemma_last_behind(top, a, 0, Some(h.section));
    lemma_project_step(top, 0, None);
    assert(last_section(top, 0, None) == last_section(top, top.len() as int, Some(h.section)));
    assert(is_complete(top, top.len() as int, Some(h.section)));
    assert(project_entries(top, top.len() as int, Some(h.section)) =~= Seq::<
        PythonEntryView,
    >::empty());
    assert(begun_entries(top, 0, None) =~= Seq::<PythonEntryView>::empty());
}

/// A section lists what its lines list: those up to a line break, and then those behind
/// it, as far to the right as the first ones are long, if the first ones are complete.
pub proof fn section_lists_join(h: Heading, a: Seq<char>, b: Seq<char>)
    requires
        is_heading(h),
        is_section_name(h.section),
        ends_a_line(a),
        lacks_headers(a),
        is_complete(heading_text(h) + a, 0, None),
    ensures
        manifest_dependencies(heading_text(h) + (a + b), ManifestKind::Pyproject)
            == manifest_dependencies(heading_text(h) + a, ManifestKind::Pyproject)
            + later_dependencies(
            manifest_dependencies(heading_text(h) + b, ManifestKind::Pyproject),
            byte_len(a) as int,
        ),
{
    let top = heading_text(h);
    let x = top + a;
    let n = byte_len(a) as int;
    lemma_header_first(h, a);
    lemma_section_stays(a, 0, Some(h.section));
    let none = Seq::<PythonEntryView>::empty();
    assert(project_entries(top, 0, None) =~= none);
    if b.len() == 0 {
        assert(top + (a + b) =~= x);
        assert(top + b =~= top);
        assert(manifest_dependencies(x, ManifestKind::Pyproject) + later_dependencies(
            manifest_dependencies(top, ManifestKind::Pyproject),
            n,
        ) =~= manifest_dependencies(x, ManifestKind::Pyproject));
    } else {
        let below = project_entries(b, 0, Some(h.section));
        assert(top + (a + b) =~= x + b);
        if a.len() > 0 {
            assert(x.last() == a.last());
        } else {
            assert(x =~= top);
        }
        lemma_project_joined(x, b, 0, None);
        lemma_project_joined(top, b, 0, None);
        lemma_encode_concat(top, a);
        lemma_python_join(
            project_entries(x, 0, None),
            below,
            x.len() as int,
            byte_len(x) as int,
        );
        lemma_python_join(none, below, top.len() as int, byte_len(top) as int);
        let there = later_dependencies(python_dependencies(below), byte_len(top) as int);
        assert(python_dependencies(none) + there =~= there);
        assert(later_dependencies(there, n) =~= later_dependencies(
            python_dependencies(below),
            byte_len(x) as int,
        ));
    }
}

/// The sections of a project file that can list requirements.
pub open spec fn is_listing_section(section: Seq<char>) -> bool {
    section == "project"@ || section == "build-system"@ || section
        == "project.optional-dependencies"@
}

/// Lines of another section begin no list.
proof fn lemma_listless(top: Seq<char>, a: Seq<char>, from: int, section: Option<Seq<char>>)
    requires
        lacks_headers(a),
        begins_line(a, from),
        section matches Some(name) ==> !is_listing_section(name),
    ensures
        pyproject_arrays(top + a, top.len() + from, section).len() == 0,
    decreases a.len() - from,
{
    if from < a.len() {
        lemma_line_end(a, from);
        lemma_line_second(top, a, from);
        lemma_no_header(a, from);
        lemma_listless(top, a, line_end(a, from), section);
    }
}

/// What stands above the first header of a project file lists nothing; nor do the lines
/// below a header of another name, or between double brackets.
pub proof fn other_sections_list_nothing(
    lead: Seq<char>,
    name: Seq<char>,
    rest: Seq<char>,
    ending: Seq<char>,
    a: Seq<char>,
)
    requires
        is_any_header(lead, name, rest, ending),
        (name.len() > 0 && name[0] == '[') || !is_listing_section(trimmed(name)),
        lacks_headers(a),
    ensures
        manifest_dependencies(a, ManifestKind::Pyproject).len() == 0,
        manifest_dependencies(
            any_header(lead, name, rest, ending) + a,
            ManifestKind::Pyproject,
        ).len() == 0,
{
    let top = any_header(lead, name, rest, ending);
    let none = Seq::<char>::empty();
    assert(none + a =~= a);
    lemma_listless(none, a, 0, None);
    lemma_any_header(lead, name, rest, ending);
    lemma_line_first(top, a, 0);
    lemma_listless(top, a, 0, toml_section(trimmed(line_at(top, 0))));
}

/// A line that assigns to another key lists nothing.
pub proof fn other_keys_list_nothing(
    h: Heading,
    a: Assignment,
    value: Seq<char>,
    ending: Seq<char>,
)
    requires
        is_heading(h),
        is_section_name(h.section),
        is_assignment(a),
        is_bare(a.key),
        list_label(h.section, a.key) is None,
        is_closed(value),
        value.len() > 0,
        !is_whitespace(value[0]),
        is_line_ending(ending),
    ensures
        manifest_dependencies(
            declaration_text(h, a, value, ending),
            ManifestKind::Pyproject,
        ).len() == 0,
{
    let top = heading_text(h);
    let b = assigned_text(a, value) + ending;
    lemma_heading_line(h);
    lemma_trimmed_heading(h);
    lemma_named(h);
    lemma_line_first(top, b, 0);
    lemma_line_second(top, b, 0);
    lemma_bare_key(a.key);
    lemma_uncommented(a, value);
    lemma_split(a, value);
    lemma_assigned_line(a, value, ending);
    assert(toml_section(trimmed(line_at(top, 0))) == Some(h.section));
    reveal_with_fuel(pyproject_arrays, 3);
}

} // verus!
