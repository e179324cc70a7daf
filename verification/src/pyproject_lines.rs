//! The lines of a project file that begin lists, and what becomes of them when a
//! requirement is pinned to a version.

use crate::cargo_edits::{lemma_line_before, lemma_line_behind};
use crate::edits::{
    is_edit, lemma_escaped_same, lemma_first_moved, lemma_first_same, lemma_replaced, replaced,
    shift,
};
use crate::lines::{lemma_line_end, line_at, line_end};
use crate::npm_edits::{lemma_space_behind, shifted_option};
use crate::python::{is_requirements_key, toml_section};
use crate::python_edits::{
    is_repin, lemma_break_found, lemma_escaped_behind, lemma_line_edited, lemma_line_stretch,
    lemma_pin, lemma_repin_subrange, lemma_trim_end_found, lemma_trim_start_found,
};
use crate::requirement::is_foreign;
use crate::scan::{
    array_end, is_not_space, is_unquoted, past_space, quoted_at, unquoted_index, without_comment,
};
use crate::text::{
    first_index, is_whitespace, lemma_first_index, lemma_index_of, trimmed, trimmed_start,
};
use vstd::prelude::*;

verus! {

/// The bracket that follows `from`, with nothing but white space before it.
pub open spec fn bracket_behind(s: Seq<char>, from: int) -> Option<int> {
    match past_space(s, from, s.len() as int) {
        Some(i) => if s[i] == '[' {
            Some(i)
        } else {
            None
        },
        None => None,
    }
}

/// The equals sign of an assignment.
pub open spec fn assigns_at(line: Seq<char>) -> Option<int> {
    unquoted_index(without_comment(line), '=')
}

/// The bracket of the list that the line at `from` assigns.
pub open spec fn list_bracket(s: Seq<char>, from: int) -> Option<int> {
    match assigns_at(line_at(s, from)) {
        Some(equals) => bracket_behind(s, from + equals + 1),
        None => None,
    }
}

/// What the line at `from` assigns to.
pub open spec fn list_key(s: Seq<char>, from: int) -> Seq<char> {
    let line = line_at(s, from);
    trimmed(without_comment(line).take(assigns_at(line)->0))
}

/// The line at `from` opens a section.
pub open spec fn is_section_line(s: Seq<char>, from: int) -> bool {
    let header = trimmed(line_at(s, from));
    header.len() > 0 && header[0] == '['
}

/// The bracket of the list of requirements that the line at `from` begins, where
/// `section` is open.
pub open spec fn begun_list(s: Seq<char>, from: int, section: Option<Seq<char>>) -> Option<int> {
    match (section, list_bracket(s, from)) {
        (Some(name), Some(start)) => if !is_section_line(s, from) && is_requirements_key(
            name,
            list_key(s, from),
        ) {
            Some(start)
        } else {
            None
        },
        _ => None,
    }
}

/// No line from the one at `from` on, up to one that begins behind `end`, opens a
/// section or begins a list.
pub open spec fn is_quiet(s: Seq<char>, from: int, end: int) -> bool
    decreases s.len() - from,
{
    if from < 0 || from >= s.len() || from > end {
        true
    } else {
        proof {
            lemma_line_end(s, from);
        }
        &&& !is_section_line(s, from)
        &&& list_bracket(s, from) is None
        &&& is_quiet(s, line_end(s, from), end)
    }
}

/// The section that is open behind the line at `from`.
pub open spec fn section_behind(s: Seq<char>, from: int, section: Option<Seq<char>>) -> Option<
    Seq<char>,
> {
    if is_section_line(s, from) {
        toml_section(trimmed(line_at(s, from)))
    } else {
        section
    }
}

/// Every list of requirements that begins on a line from the one at `from` on is
/// closed, and no line in it opens a section or begins a list.
pub open spec fn lists_apart(s: Seq<char>, from: int, section: Option<Seq<char>>) -> bool
    decreases s.len() - from,
{
    if from < 0 || from >= s.len() {
        true
    } else {
        proof {
            lemma_line_end(s, from);
        }
        &&& begun_list(s, from, section) matches Some(start) ==> (array_end(s, start) matches Some(
            end,
        ) && is_quiet(s, line_end(s, from), end))
        &&& lists_apart(s, line_end(s, from), section_behind(s, from, section))
    }
}

// ---------------------------------------------------------------------------
// Assignments
// ---------------------------------------------------------------------------

/// What is quoted depends on what stands before it.
proof fn lemma_quoted_same(s: Seq<char>, t: Seq<char>, p: int)
    requires
        forall|k: int| 0 <= k < p ==> #[trigger] s[k] == t[k],
    ensures
        quoted_at(s, p) == quoted_at(t, p),
    decreases p,
{
    if p > 0 {
        assert(s[p - 1] == t[p - 1]);
        lemma_quoted_same(s, t, p - 1);
        lemma_escaped_same(s, t, 0, p - 1);
    }
}

/// A stretch without quotation marks neither opens nor closes a quotation.
proof fn lemma_quoted_over(s: Seq<char>, x: int, p: int)
    requires
        0 <= x <= p <= s.len(),
        forall|k: int| x <= k < p ==> #[trigger] s[k] != '"',
    ensures
        quoted_at(s, p) == quoted_at(s, x),
    decreases p - x,
{
    if x < p {
        lemma_quoted_over(s, x, p - 1);
        assert(s[p - 1] != '"');
    }
}

/// What is quoted behind replaced specifiers stays so.
proof fn lemma_quoted_behind(u: Seq<char>, x: int, y: int, new: Seq<char>, p: int)
    requires
        is_repin(u, x, y, new),
        y <= p <= u.len(),
    ensures
        quoted_at(replaced(u, x, y, new), p + shift(x, y, new)) == quoted_at(u, p),
    decreases p,
{
    lemma_pin(new);
    lemma_replaced(u, x, y, new);
    let t = replaced(u, x, y, new);
    let d = shift(x, y, new);
    if p == y {
        lemma_quoted_same(u, t, x);
        assert forall|k: int| x <= k < y implies #[trigger] u[k] != '"' by {
            assert(!is_foreign(u[k]));
        }
        lemma_quoted_over(u, x, y);
        assert forall|k: int| x <= k < y + d implies #[trigger] t[k] != '"' by {
            assert(!is_foreign(new[k - x]));
        }
        lemma_quoted_over(t, x, y + d);
    } else {
        lemma_quoted_behind(u, x, y, new, p - 1);
        lemma_escaped_behind(u, x, y, new, p - 1);
        assert(u[p - 1] == t[p - 1 + d]);
    }
}

/// Holds of an unquoted equals sign or number sign.
spec fn is_sign(s: Seq<char>) -> spec_fn(int) -> bool {
    |i: int| is_unquoted(s, '=')(i) || is_unquoted(s, '#')(i)
}

/// The first unquoted equals sign or number sign.
spec fn first_sign(s: Seq<char>) -> Option<int> {
    first_index(is_sign(s), 0, s.len() as int)
}

/// An assignment has its equals sign before any comment.
proof fn lemma_assigns(u: Seq<char>)
    ensures
        assigns_at(u) == (match first_sign(u) {
            Some(e) => if u[e] == '=' {
                Some(e)
            } else {
                None
            },
            None => None,
        }),
        assigns_at(u) matches Some(e) ==> 0 <= e < u.len() && without_comment(u).take(e) == u.take(
            e,
        ),
{
    let n = u.len() as int;
    let hash = is_unquoted(u, '#');
    let equals = is_unquoted(u, '=');
    let sign = is_sign(u);
    lemma_first_index(hash, 0, n);
    lemma_first_index(sign, 0, n);
    let kept = without_comment(u);
    let h = kept.len() as int;
    assert(kept =~= u.take(h));
    let kept_equals = is_unquoted(kept, '=');
    assert forall|k: int| 0 <= k < h implies #[trigger] kept_equals(k) == equals(k) by {
        lemma_quoted_same(kept, u, k);
        lemma_escaped_same(kept, u, 0, k);
    }
    lemma_first_index(kept_equals, 0, h);
    match first_sign(u) {
        Some(e) => {
            assert(sign(e));
            if u[e] == '=' {
                assert(e < h) by {
                    if h < n {
                        assert(hash(h));
                        assert(sign(h));
                    }
                }
                assert(kept_equals(e));
                assert forall|k: int| 0 <= k < e implies !#[trigger] kept_equals(k) by {
                    assert(!sign(k));
                    assert(kept_equals(k) == equals(k));
                }
            } else {
                assert(hash(e));
                assert(h <= e);
                assert forall|k: int| 0 <= k < h implies !#[trigger] kept_equals(k) by {
                    assert(!sign(k));
                    assert(kept_equals(k) == equals(k));
                }
            }
        },
        None => {
            assert forall|k: int| 0 <= k < h implies !#[trigger] kept_equals(k) by {
                assert(!sign(k));
                assert(kept_equals(k) == equals(k));
            }
        },
    }
    if let Some(e) = assigns_at(u) {
        assert(kept.take(e) =~= u.take(e));
    }
}

/// Signs before replaced specifiers, and behind them, stay.
proof fn lemma_signs(u: Seq<char>, x: int, y: int, new: Seq<char>)
    requires
        is_repin(u, x, y, new),
    ensures
        ({
            let p = is_sign(u);
            let q = is_sign(replaced(u, x, y, new));
            let d = shift(x, y, new);
            &&& forall|k: int| 0 <= k < x ==> #[trigger] p(k) == q(k)
            &&& forall|k: int| y <= k < u.len() ==> #[trigger] p(k) == q(k + d)
        }),
{
    lemma_pin(new);
    lemma_replaced(u, x, y, new);
    let t = replaced(u, x, y, new);
    let d = shift(x, y, new);
    let p = is_sign(u);
    let q = is_sign(t);
    assert forall|k: int| 0 <= k < x implies #[trigger] p(k) == q(k) by {
        lemma_quoted_same(u, t, k);
        lemma_escaped_same(u, t, 0, k);
    }
    assert forall|k: int| y <= k < u.len() implies #[trigger] p(k) == q(k + d) by {
        lemma_quoted_behind(u, x, y, new, k);
        lemma_escaped_behind(u, x, y, new, k);
        assert(u[k] == t[k + d]);
    }
}

/// The first sign of a line whose specifiers are replaced: one before them stays;
/// else the first equals sign of the new ones is it, unless they are quoted.
proof fn lemma_sign_edited(u: Seq<char>, x: int, y: int, new: Seq<char>)
    requires
        is_repin(u, x, y, new),
        0 < x,
        u[x - 1] != '\\',
    ensures
        ({
            let d = shift(x, y, new);
            match first_sign(replaced(u, x, y, new)) {
                Some(e) => e <= x || (y + d <= e && first_sign(u) == Some(e - d)),
                None => true,
            }
        }),
        first_sign(replaced(u, x, y, new)) matches Some(e) ==> e < x ==> first_sign(u) == Some(e),
        first_sign(u) matches Some(e) ==> e < x ==> first_sign(replaced(u, x, y, new)) == Some(e),
{
    lemma_pin(new);
    lemma_replaced(u, x, y, new);
    lemma_signs(u, x, y, new);
    let t = replaced(u, x, y, new);
    let d = shift(x, y, new);
    let n = u.len() as int;
    let p = is_sign(u);
    let q = is_sign(t);
    lemma_first_index(p, 0, n);
    lemma_first_index(q, 0, t.len() as int);
    if let Some(e) = first_sign(u) {
        if e < x {
            lemma_first_same(p, q, 0, n, t.len() as int, e);
        }
    }
    if let Some(e) = first_sign(t) {
        if e < x {
            lemma_first_same(q, p, 0, t.len() as int, n, e);
        } else if e > x {
            assert(t[x] == new[0]);
            assert(t[x - 1] == u[x - 1]);
            assert(!q(x));
            assert(quoted_at(t, x));
            lemma_quoted_same(u, t, x);
            assert forall|k: int| x <= k < y implies !#[trigger] p(k) by {
                assert forall|m: int| x <= m < k implies #[trigger] u[m] != '"' by {
                    assert(!is_foreign(u[m]));
                }
                lemma_quoted_over(u, x, k);
            }
            assert forall|k: int| x <= k < y + d implies !#[trigger] q(k) by {
                assert forall|m: int| x <= m < k implies #[trigger] t[m] != '"' by {
                    assert(!is_foreign(new[m - x]));
                }
                lemma_quoted_over(t, x, k);
            }
            lemma_first_moved(p, q, x, y, d, 0, n);
            assert(q(e));
        }
    }
}

// ---------------------------------------------------------------------------
// Lines
// ---------------------------------------------------------------------------

/// Brackets before replaced specifiers follow what they followed.
proof fn lemma_bracket_same(s: Seq<char>, i: int, j: int, new: Seq<char>, a: int)
    requires
        is_repin(s, i, j, new),
        0 <= a <= i,
    ensures
        bracket_behind(replaced(s, i, j, new), a) == bracket_behind(s, a),
        bracket_behind(s, a) matches Some(start) ==> start < i,
{
    lemma_pin(new);
    lemma_replaced(s, i, j, new);
    let t = replaced(s, i, j, new);
    let p = is_not_space(s);
    let q = is_not_space(t);
    lemma_first_index(p, a, s.len() as int);
    lemma_first_index(q, a, t.len() as int);
    assert(t[i] == new[0]);
    assert(p(i) && q(i));
    assert(!is_foreign(s[i]));
    let k = first_index(p, a, s.len() as int)->0;
    assert forall|m: int| a <= m <= k implies #[trigger] p(m) == q(m) by {
        if m < i {
            assert(t[m] == s[m]);
        }
    }
    lemma_first_same(p, q, a, s.len() as int, t.len() as int, k);
}

/// How much white space a text begins with.
spec fn indent(u: Seq<char>) -> int {
    u.len() - trimmed_start(u).len()
}

/// What a line begins with, without its white space.
proof fn lemma_first_kept(u: Seq<char>, k: int)
    requires
        0 <= k < u.len(),
        !is_whitespace(u[k]),
    ensures
        0 <= indent(u) <= k,
        trimmed(u).len() > 0,
        trimmed(u)[0] == u[indent(u)],
        !is_whitespace(u[indent(u)]),
        forall|p: int| 0 <= p < indent(u) ==> is_whitespace(#[trigger] u[p]),
{
    let first = lemma_trim_start_found(u);
    let rest = trimmed_start(u);
    assert(rest[0] == u[first]);
    let m = lemma_trim_end_found(rest);
    assert(m > 0) by {
        if m == 0 {
            assert(is_whitespace(rest[0]));
        }
    }
    assert(trimmed(u)[0] == rest[0]);
}

/// The line that holds the specifiers at `i..j` reaches behind them.
proof fn lemma_line_holds(s: Seq<char>, i: int, j: int, from: int)
    requires
        0 <= from <= i < j <= s.len(),
        i < line_end(s, from),
        forall|k: int| i <= k < j ==> #[trigger] s[k] != '\n',
        !is_whitespace(s[j - 1]),
    ensures
        j <= from + line_at(s, from).len(),
        j <= line_end(s, from) <= s.len(),
{
    lemma_line_end(s, from);
    lemma_index_of(s, '\n', from, s.len() as int);
    let next = line_end(s, from);
    assert(j <= next) by {
        if next < j {
            assert(s[next - 1] == '\n');
        }
    }
    let line = s.subrange(from, next);
    let m = lemma_break_found(line);
    if m < j - from {
        assert(line[j - 1 - from] == s[j - 1]);
    }
}

/// The line that holds replaced specifiers: it opens a section if it did, and
/// begins a list before them if it did.
#[verifier::rlimit(40)]
pub(crate) proof fn lemma_line_here(s: Seq<char>, i: int, j: int, new: Seq<char>, from: int, q: int)
    requires
        is_repin(s, i, j, new),
        0 <= from <= q < i < line_end(s, from),
        !is_whitespace(s[q]),
        s[i - 1] != '\\',
        forall|k: int| i <= k < j ==> #[trigger] s[k] != '\n',
    ensures
        j <= line_end(s, from) <= s.len(),
        ({
            let t = replaced(s, i, j, new);
            let d = shift(i, j, new);
            &&& line_end(t, from) == line_end(s, from) + d
            &&& is_section_line(t, from) == is_section_line(s, from)
            &&& list_bracket(s, from) is None ==> list_bracket(t, from) is None
            &&& list_bracket(s, from) matches Some(start) ==> start < i ==> list_bracket(t, from)
                == Some(start) && list_key(t, from) == list_key(s, from)
        }),
{
    lemma_line_holds(s, i, j, from);
    lemma_line_edited(s, i, j, new, from);
    lemma_replaced(s, i, j, new);
    lemma_pin(new);
    let t = replaced(s, i, j, new);
    let d = shift(i, j, new);
    let u = line_at(s, from);
    let x = i - from;
    let y = j - from;
    lemma_repin_subrange(s, i, j, new, from, from + u.len());
    let v = replaced(u, x, y, new);
    lemma_replaced(u, x, y, new);
    assert(u[x - 1] == s[i - 1]);
    assert(u[q - from] == s[q]);
    assert(v[q - from] == u[q - from]);
    lemma_first_kept(u, q - from);
    lemma_first_kept(v, q - from);
    assert(indent(u) == indent(v)) by {
        assert(v[indent(u)] == u[indent(u)]);
        assert(v[indent(v)] == u[indent(v)]);
        if indent(u) < indent(v) {
            assert(is_whitespace(v[indent(u)]));
        }
        if indent(v) < indent(u) {
            assert(is_whitespace(u[indent(v)]));
        }
    }
    lemma_sign_edited(u, x, y, new);
    lemma_assigns(u);
    lemma_assigns(v);
    lemma_brackets_here(s, i, j, new, from);
    if let Some(e) = assigns_at(u) {
        if e < x {
            lemma_bracket_same(s, i, j, new, from + e + 1);
            assert(v[e] == u[e]);
            assert(u.take(e) =~= v.take(e));
        } else {
            lemma_first_index(is_not_space(s), from + e + 1, s.len() as int);
        }
    }
}

/// A line that holds replaced specifiers begins no list if it began none.
#[verifier::rlimit(40)]
proof fn lemma_brackets_here(s: Seq<char>, i: int, j: int, new: Seq<char>, from: int)
    requires
        is_repin(s, i, j, new),
        0 <= from < i,
        j <= from + line_at(s, from).len(),
        line_at(s, from) == s.subrange(from, from + line_at(s, from).len()),
        from + line_at(s, from).len() <= s.len(),
        s[i - 1] != '\\',
        line_at(replaced(s, i, j, new), from) == replaced(
            line_at(s, from),
            i - from,
            j - from,
            new,
        ),
    ensures
        list_bracket(s, from) is None ==> list_bracket(replaced(s, i, j, new), from) is None,
{
    lemma_replaced(s, i, j, new);
    lemma_pin(new);
    let t = replaced(s, i, j, new);
    let d = shift(i, j, new);
    let u = line_at(s, from);
    let x = i - from;
    let y = j - from;
    lemma_repin_subrange(s, i, j, new, from, from + u.len());
    let v = replaced(u, x, y, new);
    lemma_replaced(u, x, y, new);
    assert(u[x - 1] == s[i - 1]);
    lemma_sign_edited(u, x, y, new);
    lemma_assigns(u);
    lemma_assigns(v);
    if let Some(e) = assigns_at(v) {
        if e < x {
            assert(v[e] == u[e]);
            lemma_bracket_same(s, i, j, new, from + e + 1);
        } else if e == x {
            let p = is_not_space(t);
            lemma_first_index(p, i + 1, t.len() as int);
            assert(t[i + 1] == new[1]);
            assert(p(i + 1));
        } else {
            assert(u[e - d] == v[e - d + d]);
            lemma_space_behind(s, i, j, new, from + e - d + 1, s.len() as int);
            lemma_first_index(is_not_space(s), from + e - d + 1, s.len() as int);
            if let Some(k) = past_space(s, from + e - d + 1, s.len() as int) {
                assert(s[k] == t[k + d]);
            }
        }
    }
}

/// A line before replaced specifiers stays.
pub(crate) proof fn lemma_line_ahead(s: Seq<char>, i: int, j: int, new: Seq<char>, from: int)
    requires
        is_repin(s, i, j, new),
        0 <= from < s.len(),
        line_end(s, from) <= i,
    ensures
        ({
            let t = replaced(s, i, j, new);
            &&& line_end(t, from) == line_end(s, from)
            &&& line_at(t, from) == line_at(s, from)
            &&& list_bracket(t, from) == list_bracket(s, from)
            &&& list_key(t, from) == list_key(s, from)
            &&& list_bracket(s, from) matches Some(start) ==> from < start < i
        }),
{
    lemma_line_before(s, i, j, new, from);
    lemma_line_stretch(s, from);
    let u = line_at(s, from);
    lemma_assigns(u);
    if let Some(e) = assigns_at(u) {
        lemma_bracket_same(s, i, j, new, from + e + 1);
        lemma_first_index(is_not_space(s), from + e + 1, s.len() as int);
    }
}

/// A list stands behind where its line begins.
pub(crate) proof fn lemma_bracket_bounds(s: Seq<char>, from: int)
    requires
        0 <= from < s.len(),
    ensures
        list_bracket(s, from) matches Some(start) ==> from < start < s.len() && s[start] == '[',
{
    lemma_line_stretch(s, from);
    lemma_assigns(line_at(s, from));
    if let Some(e) = assigns_at(line_at(s, from)) {
        lemma_first_index(is_not_space(s), from + e + 1, s.len() as int);
    }
}

/// A line behind the replaced stretch stays.
pub(crate) proof fn lemma_line_after(s: Seq<char>, i: int, j: int, new: Seq<char>, from: int)
    requires
        is_edit(s, i, j, new),
        j <= from < s.len(),
    ensures
        ({
            let t = replaced(s, i, j, new);
            let d = shift(i, j, new);
            &&& line_end(t, from + d) == line_end(s, from) + d
            &&& line_at(t, from + d) == line_at(s, from)
            &&& list_bracket(t, from + d) == shifted_option(list_bracket(s, from), d)
            &&& list_key(t, from + d) == list_key(s, from)
        }),
{
    lemma_replaced(s, i, j, new);
    lemma_line_behind(s, i, j, new, from);
    lemma_line_stretch(s, from);
    let t = replaced(s, i, j, new);
    let d = shift(i, j, new);
    let u = line_at(s, from);
    lemma_assigns(u);
    if let Some(e) = assigns_at(u) {
        lemma_space_behind(s, i, j, new, from + e + 1, s.len() as int);
        lemma_first_index(is_not_space(s), from + e + 1, s.len() as int);
        if let Some(k) = past_space(s, from + e + 1, s.len() as int) {
            assert(s[k] == t[k + d]);
        }
    }
}

} // verus!
