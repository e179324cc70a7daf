//! What is read of requirements as they are written.

use crate::lines::{line_at, line_end, without_line_break};
use crate::manifest::{
    manifest_dependencies, python_dependencies, DependencyView, ManifestKind, Registry,
};
use crate::markers::{is_gap, lemma_stands_parts, stands};
use crate::outside::pep508_parse;
use crate::python::{
    in_quotes, line_requirement, listed, read_requirement, requirement_entry, requirements_entries,
    requirements_line_entry, starts_comment, without_requirement_comment,
};
use crate::requirement::specifier_span;
use crate::scan::escaped_at;
use crate::text::{
    byte_len, first_index, is_whitespace, lemma_encode_concat, lemma_first_index, lemma_index_of,
    trimmed, trimmed_end, trimmed_start,
};
use crate::written::{
    head_text, is_clean, is_clean_char, is_written, lemma_clean, lemma_closed, lemma_ends,
    lemma_no_path, lemma_readable, lemma_span, lemma_trimmed_gap, lemma_unmarked,
    requirement_text, Written,
};
use vstd::prelude::*;

verus! {

/// The dependency on a Python package whose version specifiers are `written`, one by
/// one `specifiers`, and begin at the byte `start`.
pub open spec fn requirement_dependency(
    name: Seq<char>,
    section: Seq<char>,
    written: Seq<char>,
    specifiers: Seq<Seq<char>>,
    start: int,
) -> DependencyView {
    DependencyView {
        name,
        section,
        registry: Registry::Pypi,
        current: written,
        start,
        end: start + byte_len(written),
        can_edit: true,
        prefix: "=="@,
        current_version: None,
        python_specifiers: Some(specifiers),
        is_workspace: false,
    }
}

/// The dependencies that a requirement makes, where its text begins at the byte `at`:
/// one, with the name and the specifiers that the parser of requirements finds, if it
/// finds any specifiers; else none.
pub open spec fn requirement_dependencies(w: Written, section: Seq<char>, at: int) -> Seq<
    DependencyView,
> {
    match pep508_parse(requirement_text(w)) {
        Some((name, specifiers)) => if specifiers.len() > 0 {
            seq![
                requirement_dependency(
                    name,
                    section,
                    w.specifiers,
                    specifiers,
                    at + byte_len(head_text(w)),
                ),
            ]
        } else {
            Seq::empty()
        },
        None => Seq::empty(),
    }
}

/// The entry of a requirement whose version specifiers stand behind `head`.
proof fn lemma_spanned(
    s: Seq<char>,
    head: Seq<char>,
    written: Seq<char>,
    parsed: Option<(Seq<char>, Seq<Seq<char>>)>,
    section: Seq<char>,
    at: int,
    from: int,
    to: int,
)
    requires
        written.len() > 0,
        !is_whitespace(written[0]),
        !is_whitespace(written.last()),
        stands(s, 0, head + written),
        specifier_span(s) == Some((head.len() as int, (head + written).len() as int)),
    ensures
        python_dependencies(listed(requirement_entry(s, parsed, section, at, from, to))) == (
        match parsed {
            Some((name, specifiers)) => if specifiers.len() > 0 {
                seq![
                    requirement_dependency(name, section, written, specifiers, at + byte_len(head)),
                ]
            } else {
                Seq::empty()
            },
            None => Seq::empty(),
        }),
{
    let e = head.len() as int;
    let f = (head + written).len() as int;
    lemma_stands_parts(s, 0, head, written);
    assert(s.take(e) =~= s.subrange(0, e));
    assert(s.take(f) =~= s.subrange(0, f));
    lemma_encode_concat(head, written);
    assert(s.subrange(e, f) == written);
    assert(trimmed_start(written) == written);
    assert(trimmed(written) == written);
    if let Some((name, specifiers)) = parsed {
        if specifiers.len() > 0 {
            assert(python_dependencies(
                listed(requirement_entry(s, parsed, section, at, from, to)),
            ) =~= seq![
                requirement_dependency(name, section, written, specifiers, at + byte_len(head)),
            ]);
        }
    }
    assert(python_dependencies(listed(None)) =~= Seq::<DependencyView>::empty());
}

/// The parts of a requirement that the entry depends on.
proof fn lemma_spans(w: Written)
    requires
        is_written(w),
    ensures
        w.specifiers.len() > 0,
        !is_whitespace(w.specifiers[0]),
        !is_whitespace(w.specifiers.last()),
        stands(requirement_text(w), 0, head_text(w) + w.specifiers),
        specifier_span(requirement_text(w)) == Some(
            (head_text(w).len() as int, (head_text(w) + w.specifiers).len() as int),
        ),
{
    let s = requirement_text(w);
    lemma_span(w);
    let n = (head_text(w) + w.specifiers).len() as int;
    assert(s.subrange(0, n) =~= head_text(w) + w.specifiers);
}

/// A requirement that is written as it should be is read by the parser.
proof fn lemma_parsed(w: Written)
    requires
        is_written(w),
    ensures
        read_requirement(requirement_text(w)) == pep508_parse(requirement_text(w)),
{
    lemma_readable(w);
}

/// The entry of a requirement that is written as it should be.
pub proof fn lemma_entry(w: Written, section: Seq<char>, at: int, from: int, to: int)
    requires
        is_written(w),
    ensures
        python_dependencies(
            listed(
                requirement_entry(
                    requirement_text(w),
                    read_requirement(requirement_text(w)),
                    section,
                    at,
                    from,
                    to,
                ),
            ),
        ) == requirement_dependencies(w, section, at),
{
    let s = requirement_text(w);
    lemma_parsed(w);
    lemma_spans(w);
    lemma_spanned(s, head_text(w), w.specifiers, pep508_parse(s), section, at, from, to);
}

// ---------------------------------------------------------------------------
// Requirements files
// ---------------------------------------------------------------------------

/// What can stand behind a requirement in its line: blanks, or blanks and a comment.
pub open spec fn is_trailer(trailer: Seq<char>, gap: Seq<char>) -> bool {
    &&& is_gap(gap)
    &&& gap.is_prefix_of(trailer)
    &&& trailer == gap || (0 < gap.len() < trailer.len() && trailer[gap.len() as int] == '#')
    &&& forall|i: int| 0 <= i < trailer.len() ==> #[trigger] trailer[i] != '\n' && trailer[i]
        != '\r'
}

/// What ends a line: a line feed, perhaps behind a carriage return, or the end of the
/// file.
pub open spec fn is_line_ending(ending: Seq<char>) -> bool {
    ending == seq!['\n'] || ending == seq!['\r', '\n'] || ending.len() == 0
}

/// Leading blanks are trimmed.
pub proof fn lemma_trimmed_lead(lead: Seq<char>, rest: Seq<char>)
    requires
        is_gap(lead),
        rest.len() > 0,
        !is_whitespace(rest[0]),
    ensures
        trimmed_start(lead + rest) == rest,
    decreases lead.len(),
{
    if lead.len() > 0 {
        assert((lead + rest)[0] == lead[0]);
        assert((lead + rest).skip(1) =~= lead.skip(1) + rest);
        lemma_trimmed_lead(lead.skip(1), rest);
    } else {
        assert(lead + rest =~= rest);
    }
}

/// The requirement of a line, with blanks around it and perhaps a comment behind it.
proof fn lemma_line(lead: Seq<char>, w: Written, trailer: Seq<char>, gap: Seq<char>)
    requires
        is_gap(lead),
        is_written(w),
        is_trailer(trailer, gap),
    ensures
        line_requirement(lead + requirement_text(w) + trailer) == Some(
            (requirement_text(w), lead.len() as int),
        ),
{
    let r = requirement_text(w);
    let line = lead + r + trailer;
    let n = (lead + r).len() as int;
    let q = n + gap.len();
    lemma_ends(w);
    lemma_clean(w);
    lemma_no_path(w);
    let p = starts_comment(line);
    lemma_first_index(p, 0, line.len() as int);
    assert forall|k: int| 0 <= k < q implies !(#[trigger] p(k)) by {
        lemma_no_comment(lead, r, trailer, gap, k);
    }
    lemma_gap_behind(lead, r, trailer, gap);
    let kept = without_requirement_comment(line);
    if trailer != gap {
        lemma_comment(lead, w, trailer, gap);
        assert(p(q));
        assert(first_index(p, 0, line.len() as int) == Some(q));
        lemma_trimmed_gap(line.take(q), n);
        assert(line.take(q).take(n) =~= lead + r);
        assert(kept == lead + r);
        lemma_trimmed_lead(lead, r);
        lemma_trimmed_gap(r, r.len() as int);
        assert(r.take(r.len() as int) =~= r);
    } else {
        assert(first_index(p, 0, line.len() as int) is None);
        assert(kept == line);
        assert(line =~= lead + (r + gap));
        lemma_trimmed_lead(lead, r + gap);
        lemma_trimmed_gap(r + gap, r.len() as int);
        assert((r + gap).take(r.len() as int) =~= r);
    }
}

/// The blanks behind a requirement.
proof fn lemma_gap_behind(lead: Seq<char>, r: Seq<char>, trailer: Seq<char>, gap: Seq<char>)
    requires
        r.len() > 0,
        !is_whitespace(r.last()),
        is_trailer(trailer, gap),
    ensures
        ({
            let line = lead + r + trailer;
            let n = (lead + r).len() as int;
            let q = n + gap.len();
            &&& q <= line.len()
            &&& !is_whitespace(line[n - 1])
            &&& forall|k: int| n <= k < q ==> is_whitespace(#[trigger] line[k])
            &&& forall|k: int| r.len() <= k < (r + gap).len() ==> is_whitespace(
                #[trigger] (r + gap)[k],
            )
        }),
{
    let line = lead + r + trailer;
    let n = (lead + r).len() as int;
    assert(line[n - 1] == r.last());
    assert forall|k: int| n <= k < n + gap.len() implies is_whitespace(#[trigger] line[k]) by {
        assert(line[k] == trailer[k - n]);
        assert(gap[k - n] == trailer[k - n]);
    }
}

/// No comment begins before the blanks behind a requirement are over.
proof fn lemma_no_comment(lead: Seq<char>, r: Seq<char>, trailer: Seq<char>, gap: Seq<char>, k: int)
    requires
        is_gap(lead),
        is_clean(r),
        is_trailer(trailer, gap),
        0 <= k < (lead + r).len() + gap.len(),
    ensures
        (lead + r + trailer)[k] != '#',
{
    let line = lead + r + trailer;
    if k < lead.len() {
        assert(line[k] == lead[k]);
    } else if k < (lead + r).len() {
        assert(line[k] == r[k - lead.len()]);
        assert(is_clean_char(r[k - lead.len()]));
    } else {
        let m = k - (lead + r).len();
        assert(line[k] == trailer[m]);
        assert(gap[m] == trailer[m]);
    }
}

/// The quotation marks of a requirement are closed behind it.
proof fn lemma_closed_line(lead: Seq<char>, w: Written, trailer: Seq<char>, gap: Seq<char>)
    requires
        is_gap(lead),
        is_written(w),
        is_gap(gap),
        gap.is_prefix_of(trailer),
    ensures
        !in_quotes(
            lead + requirement_text(w) + trailer,
            (lead + requirement_text(w)).len() + gap.len() as int,
        ),
{
    let r = requirement_text(w);
    let line = lead + r + trailer;
    let n = (lead + r).len() as int;
    assert(line.subrange(0, line.len() as int) =~= line);
    lemma_stands_parts(line, 0, lead + r, trailer);
    lemma_stands_parts(line, 0, lead, r);
    let tail = trailer.skip(gap.len() as int);
    assert(trailer =~= gap + tail);
    lemma_stands_parts(line, n, gap, tail);
    lemma_unmarked(line, 0, lead);
    lemma_closed(line, lead.len() as int, w);
    lemma_unmarked(line, n, gap);
}

/// A comment begins behind the blanks.
proof fn lemma_comment(lead: Seq<char>, w: Written, trailer: Seq<char>, gap: Seq<char>)
    requires
        is_gap(lead),
        is_written(w),
        is_trailer(trailer, gap),
        trailer != gap,
    ensures
        ({
            let line = lead + requirement_text(w) + trailer;
            let q = (lead + requirement_text(w)).len() + gap.len();
            &&& q < line.len()
            &&& starts_comment(line)(q as int)
        }),
{
    let r = requirement_text(w);
    let line = lead + r + trailer;
    let n = (lead + r).len() as int;
    let q = n + gap.len();
    lemma_ends(w);
    lemma_gap_behind(lead, r, trailer, gap);
    lemma_closed_line(lead, w, trailer, gap);
    assert(line[q] == trailer[gap.len() as int]);
    assert(is_whitespace(line[q - 1]));
    assert(!escaped_at(line, 0, q));
}

/// A text of one line.
pub proof fn lemma_one_line(line: Seq<char>, ending: Seq<char>)
    requires
        line.len() > 0,
        is_line_ending(ending),
        forall|i: int| 0 <= i < line.len() ==> #[trigger] line[i] != '\n' && line[i] != '\r',
    ensures
        line_end(line + ending, 0) == (line + ending).len(),
        line_at(line + ending, 0) == line,
{
    let s = line + ending;
    lemma_index_of(s, '\n', 0, s.len() as int);
    assert forall|i: int| 0 <= i < line.len() implies s[i] != '\n' by {
        assert(s[i] == line[i]);
    }
    assert(s.subrange(0, s.len() as int) =~= s);
    lemma_line_break(line, ending);
}

/// What ends a line is dropped.
pub proof fn lemma_line_break(line: Seq<char>, ending: Seq<char>)
    requires
        is_line_ending(ending),
        line.len() > 0 ==> line.last() != '\n' && line.last() != '\r',
    ensures
        without_line_break(line + ending) == line,
{
    let s = line + ending;
    reveal_with_fuel(without_line_break, 3);
    if ending.len() == 0 {
        assert(s =~= line);
    } else if ending.len() == 1 {
        assert(s.last() == '\n');
        assert(s.drop_last() =~= line);
    } else {
        assert(s.last() == '\n');
        assert(s.drop_last() =~= line.push('\r'));
        assert(s.drop_last().last() == '\r');
        assert(s.drop_last().drop_last() =~= line);
    }
}

/// A requirement in a requirements file is read. Whatever its name, its extras, its
/// specifiers and its marker are, and whatever blanks and comment stand around it, the
/// line makes one dependency, if the parser of requirements finds a name and
/// specifiers in it: with these, and at the bytes that the specifiers take.
pub proof fn written_requirement_is_read(
    lead: Seq<char>,
    w: Written,
    trailer: Seq<char>,
    gap: Seq<char>,
    ending: Seq<char>,
)
    requires
        is_gap(lead),
        is_written(w),
        is_trailer(trailer, gap),
        is_line_ending(ending),
    ensures
        manifest_dependencies(
            lead + requirement_text(w) + trailer + ending,
            ManifestKind::Requirements,
        ) == requirement_dependencies(w, "requirements"@, byte_len(lead) as int),
{
    let r = requirement_text(w);
    let line = lead + r + trailer;
    let s = line + ending;
    lemma_ends(w);
    lemma_clean(w);
    lemma_line(lead, w, trailer, gap);
    assert forall|i: int| 0 <= i < line.len() implies #[trigger] line[i] != '\n' && line[i]
        != '\r' by {
        if i < lead.len() {
            assert(line[i] == lead[i]);
        } else if i < (lead + r).len() {
            assert(line[i] == r[i - lead.len()]);
            assert(is_clean_char(r[i - lead.len()]));
        } else {
            assert(line[i] == trailer[i - (lead + r).len()]);
        }
    }
    lemma_one_line(line, ending);
    let n = lead.len() as int;
    assert(s.take(n) =~= lead);
    let here = listed(requirements_line_entry(s, 0));
    reveal_with_fuel(requirements_entries, 2);
    assert(requirements_entries(s, 0) =~= here);
    lemma_entry(w, "requirements"@, byte_len(lead) as int, n, n + r.len());
}

/// Options, and lines without a requirement, make no dependencies: a line whose first
/// character, blanks apart, is a hyphen or a number sign, and a line of blanks.
pub proof fn other_lines_make_nothing(lead: Seq<char>, rest: Seq<char>, ending: Seq<char>)
    requires
        is_gap(lead),
        rest.len() == 0 || rest[0] == '-' || rest[0] == '#',
        forall|i: int| 0 <= i < rest.len() ==> #[trigger] rest[i] != '\n' && rest[i] != '\r',
        is_line_ending(ending),
    ensures
        manifest_dependencies(lead + rest + ending, ManifestKind::Requirements).len() == 0,
{
    let line = lead + rest;
    let s = line + ending;
    if line.len() > 0 {
        assert forall|i: int| 0 <= i < line.len() implies #[trigger] line[i] != '\n' && line[i]
            != '\r' by {
            if i < lead.len() {
                assert(line[i] == lead[i]);
            } else {
                assert(line[i] == rest[i - lead.len()]);
            }
        }
        lemma_one_line(line, ending);
        lemma_nothing(lead, rest);
        reveal_with_fuel(requirements_entries, 2);
    } else {
        assert(s =~= ending);
        lemma_empty_line(ending);
        reveal_with_fuel(requirements_entries, 2);
    }
}

/// An empty line is empty.
proof fn lemma_empty_at(ending: Seq<char>)
    requires
        is_line_ending(ending),
        ending.len() > 0,
    ensures
        line_end(ending, 0) == ending.len(),
        line_at(ending, 0) == Seq::<char>::empty(),
{
    lemma_index_of(ending, '\n', 0, ending.len() as int);
    assert(ending[ending.len() - 1] == '\n');
    lemma_line_break(Seq::empty(), ending);
    assert(Seq::<char>::empty() + ending =~= ending);
    assert(ending.subrange(0, ending.len() as int) =~= ending);
}

/// An empty line holds no requirement.
proof fn lemma_empty_line(ending: Seq<char>)
    requires
        is_line_ending(ending),
    ensures
        ending.len() > 0 ==> line_end(ending, 0) == ending.len(),
        ending.len() > 0 ==> requirements_line_entry(ending, 0) is None,
{
    if ending.len() > 0 {
        lemma_empty_at(ending);
        let none = Seq::<char>::empty();
        assert(none + none =~= none);
        lemma_nothing(none, none);
    }
}

/// Nothing but blanks, an option or a comment is no requirement.
proof fn lemma_nothing(lead: Seq<char>, rest: Seq<char>)
    requires
        is_gap(lead),
        rest.len() == 0 || rest[0] == '-' || rest[0] == '#',
    ensures
        line_requirement(lead + rest) is None,
{
    let line = lead + rest;
    let p = starts_comment(line);
    lemma_first_index(p, 0, line.len() as int);
    let n = lead.len() as int;
    assert forall|k: int| 0 <= k < n implies !(#[trigger] p(k)) && is_whitespace(line[k]) by {
        assert(line[k] == lead[k]);
    }
    let kept = without_requirement_comment(line);
    if rest.len() > 0 {
        assert(line[n] == rest[0]);
        if rest[0] == '#' {
            assert(line.subrange(0, line.len() as int) =~= line);
            lemma_stands_parts(line, 0, lead, rest);
            lemma_unmarked(line, 0, lead);
            assert(n > 0 ==> line[n - 1] == lead[n - 1]);
            assert(p(n));
            assert(line.take(n) =~= lead);
            lemma_blank(lead);
            assert(kept.len() == 0);
            assert(trimmed_start(kept) == kept);
        } else {
            assert(!p(n));
            match first_index(p, 0, line.len() as int) {
                Some(q) => {
                    lemma_kept_at(line.take(q), n);
                    crate::text::lemma_trimmed_end(line.take(q));
                },
                None => {},
            }
            assert(kept.len() > n && kept =~= line.take(kept.len() as int));
            let tail = kept.skip(n);
            assert(kept =~= lead + tail);
            assert(tail[0] == '-');
            lemma_trimmed_lead(lead, tail);
            lemma_kept_at(tail, 0);
            crate::text::lemma_trimmed_end(tail);
            assert(trimmed_end(tail)[0] == '-');
        }
    } else {
        assert(line =~= lead);
        lemma_blank(lead);
        lemma_blank_start(lead);
        assert(trimmed_end(Seq::<char>::empty()) =~= Seq::<char>::empty());
    }
}

/// Blanks are trimmed away.
proof fn lemma_blank(gap: Seq<char>)
    requires
        is_gap(gap),
    ensures
        trimmed_end(gap).len() == 0,
    decreases gap.len(),
{
    if gap.len() > 0 {
        assert(gap.last() == gap[gap.len() - 1]);
        lemma_blank(gap.drop_last());
    }
}

/// Blanks are trimmed away from the start too.
proof fn lemma_blank_start(gap: Seq<char>)
    requires
        is_gap(gap),
    ensures
        trimmed_start(gap) == Seq::<char>::empty(),
    decreases gap.len(),
{
    if gap.len() > 0 {
        assert(gap[0] == ' ' || gap[0] == '\t');
        lemma_blank_start(gap.skip(1));
    } else {
        assert(gap =~= Seq::<char>::empty());
    }
}

/// What is no white space is not trimmed.
pub proof fn lemma_kept_at(s: Seq<char>, i: int)
    requires
        0 <= i < s.len(),
        !is_whitespace(s[i]),
    ensures
        trimmed_end(s).len() > i,
    decreases s.len(),
{
    if is_whitespace(s.last()) {
        lemma_kept_at(s.drop_last(), i);
    }
}

} // verus!
