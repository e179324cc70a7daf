//! Requirements as they are written: a name, extras, version specifiers and a marker.

use crate::markers::{
    ends_marker, is_gap, is_marker, lemma_gap, lemma_marker, lemma_marker_gap, lemma_marker_text,
    lemma_run, lemma_stands, lemma_stands_parts, marker_text, operand_text, stands, is_operand,
    is_sign_operator, is_word_operator, Marker, Operand,
};
use crate::python::{in_quotes, is_path_like};
use crate::requirement::{
    ends_specifiers, extras_end, in_class, is_foreign, is_name_separator, is_operator_at,
    is_readable, marker_reads, run_end, specifier_span, specifier_start, specifier_stop,
    version_reads, version_start, Class,
};
use crate::scan::escaped_at;
use crate::text::{
    contains_text, index_of, is_ascii_alphanumeric, is_whitespace, lemma_first_index,
    lemma_index_of, trimmed_end,
};
use vstd::prelude::*;

verus! {

/// A requirement: a package, its extras between brackets or nothing, its version
/// specifiers, in parentheses or not, and its marker.
pub struct Written {
    pub name: Seq<char>,
    pub gap: Seq<char>,
    pub extras: Seq<char>,
    pub blank: Seq<char>,
    pub opening: Seq<char>,
    pub specifiers: Seq<char>,
    pub closing: Seq<char>,
    pub marker: Option<WrittenMarker>,
}

/// A marker, with the blanks around the semicolon before it.
pub struct WrittenMarker {
    pub before: Seq<char>,
    pub after: Seq<char>,
    pub marker: Marker,
}

/// What stands before the version specifiers.
pub open spec fn head_text(w: Written) -> Seq<char> {
    w.name + w.gap + w.extras + w.blank + w.opening
}

/// What stands behind the version specifiers.
pub open spec fn tail_text(w: Written) -> Seq<char> {
    w.closing + match w.marker {
        Some(m) => m.before + seq![';'] + m.after + marker_text(m.marker),
        None => Seq::empty(),
    }
}

/// A requirement in writing.
pub open spec fn requirement_text(w: Written) -> Seq<char> {
    head_text(w) + w.specifiers + tail_text(w)
}

/// A package name: letters, digits and punctuation, which does not stand at either
/// end.
pub open spec fn is_package_name(name: Seq<char>) -> bool {
    &&& name.len() > 0
    &&& is_ascii_alphanumeric(name[0])
    &&& is_ascii_alphanumeric(name.last())
    &&& forall|i: int|
        0 <= i < name.len() ==> is_ascii_alphanumeric(#[trigger] name[i]) || name[i] == '.'
            || name[i] == '-' || name[i] == '_'
}

/// Extras: nothing, or names between brackets, separated by commas and spaces.
pub open spec fn is_extras(extras: Seq<char>) -> bool {
    extras.len() == 0 || {
        &&& extras.len() >= 2
        &&& extras[0] == '['
        &&& extras.last() == ']'
        &&& forall|i: int| 0 < i < extras.len() - 1 ==> #[trigger] is_extra_at(extras, i)
    }
}

/// What can stand in extras: letters, digits, commas, spaces, and punctuation before
/// a letter or a digit.
pub open spec fn is_extra_at(extras: Seq<char>, i: int) -> bool {
    ||| is_ascii_alphanumeric(extras[i])
    ||| extras[i] == ',' || extras[i] == ' '
    ||| (extras[i] == '.' || extras[i] == '-' || extras[i] == '_') && is_ascii_alphanumeric(
        extras[i + 1],
    )
}

/// Version specifiers: they begin with a comparison operator, end with no blank, and
/// hold nothing that ends them or cannot stand in them.
pub open spec fn is_specifiers(specifiers: Seq<char>) -> bool {
    &&& specifiers.len() >= 2
    &&& specifiers[0] == '<' || specifiers[0] == '>' || ((specifiers[0] == '=' || specifiers[0]
        == '~' || specifiers[0] == '!') && specifiers[1] == '=')
    &&& !is_whitespace(specifiers.last())
    &&& forall|i: int|
        0 <= i < specifiers.len() ==> {
            let c = #[trigger] specifiers[i];
            &&& c != ';' && c != '(' && c != ')' && c != '[' && c != ']' && c != '"' && c != '\''
            &&& c != '\\' && c != '#' && c != ':' && c != '\n' && c != '\r'
        }
}

/// A requirement that is written as it should be.
pub open spec fn is_written(w: Written) -> bool {
    &&& is_package_name(w.name)
    &&& is_gap(w.gap) && is_gap(w.blank)
    &&& is_extras(w.extras)
    &&& is_specifiers(w.specifiers)
    &&& (w.opening.len() == 0 && w.closing.len() == 0) || (w.opening == seq!['('] && w.closing
        == seq![')'])
    &&& w.marker matches Some(m) ==> is_gap(m.before) && is_gap(m.after) && is_marker(m.marker)
}

/// Where the parts of a requirement stand.
proof fn lemma_parts(w: Written)
    ensures
        ({
            let s = requirement_text(w);
            let a = w.name.len() as int;
            let b = a + w.gap.len();
            let c = b + w.extras.len();
            let d = c + w.blank.len();
            let e = d + w.opening.len();
            let f = e + w.specifiers.len();
            let g = f + w.closing.len();
            &&& stands(s, 0, w.name)
            &&& stands(s, a, w.gap)
            &&& stands(s, b, w.extras)
            &&& stands(s, c, w.blank)
            &&& stands(s, d, w.opening)
            &&& stands(s, e, w.specifiers)
            &&& stands(s, f, w.closing)
            &&& e == head_text(w).len()
            &&& s.len() == f + tail_text(w).len()
            &&& w.marker is None ==> s.len() == g
            &&& w.marker matches Some(m) ==> {
                let h = g + m.before.len();
                let i = h + 1 + m.after.len();
                &&& stands(s, g, m.before)
                &&& h < s.len()
                &&& s[h] == ';'
                &&& stands(s, h + 1, m.after)
                &&& stands(s, i, marker_text(m.marker))
                &&& s.len() == i + marker_text(m.marker).len()
            }
        }),
{
    let s = requirement_text(w);
    let head = head_text(w);
    let tail = tail_text(w);
    assert(s.subrange(0, s.len() as int) =~= s);
    lemma_stands_parts(s, 0, head + w.specifiers, tail);
    lemma_stands_parts(s, 0, head, w.specifiers);
    lemma_stands_parts(s, 0, w.name + w.gap + w.extras + w.blank, w.opening);
    lemma_stands_parts(s, 0, w.name + w.gap + w.extras, w.blank);
    lemma_stands_parts(s, 0, w.name + w.gap, w.extras);
    lemma_stands_parts(s, 0, w.name, w.gap);
    let f = (head + w.specifiers).len() as int;
    match w.marker {
        Some(m) => {
            let g = f + w.closing.len();
            let rest = m.before + seq![';'] + m.after + marker_text(m.marker);
            lemma_stands_parts(s, f, w.closing, rest);
            lemma_stands_parts(s, g, m.before + seq![';'] + m.after, marker_text(m.marker));
            lemma_stands_parts(s, g, m.before + seq![';'], m.after);
            lemma_stands_parts(s, g, m.before, seq![';']);
            lemma_stands(s, g + m.before.len(), seq![';']);
            assert(s[g + m.before.len()] == seq![';'][0]);
        },
        None => {
            assert(tail =~= w.closing);
        },
    }
}

/// The name of a requirement is read to its end, and what follows it begins
/// otherwise.
proof fn lemma_name(w: Written)
    requires
        is_written(w),
    ensures
        ({
            let s = requirement_text(w);
            let a = w.name.len() as int;
            let b = a + w.gap.len();
            let c = b + w.extras.len();
            let d = c + w.blank.len();
            let e = d + w.opening.len();
            &&& s[0] == w.name[0]
            &&& s[a - 1] == w.name.last()
            &&& e < s.len()
            &&& s[e] == w.specifiers[0]
            &&& run_end(s, Class::Space, 0) == 0
            &&& run_end(s, Class::Name, 0) == a
            &&& w.extras.len() > 0 ==> run_end(s, Class::Space, a) == b && s[b] == '['
            &&& w.extras.len() == 0 ==> run_end(s, Class::Space, a) == d && s[d] != '['
            &&& run_end(s, Class::Space, c) == d
            &&& w.opening.len() > 0 ==> s[d] == '(' && run_end(s, Class::Space, e) == e
            &&& w.opening.len() == 0 ==> s[d] != '('
        }),
{
    let s = requirement_text(w);
    let a = w.name.len() as int;
    let b = a + w.gap.len();
    let c = b + w.extras.len();
    let d = c + w.blank.len();
    let e = d + w.opening.len();
    lemma_parts(w);
    lemma_stands(s, 0, w.name);
    lemma_stands(s, a, w.gap);
    lemma_stands(s, b, w.extras);
    lemma_stands(s, c, w.blank);
    lemma_stands(s, d, w.opening);
    lemma_stands(s, e, w.specifiers);
    assert(s[0] == w.name[0]);
    assert(s[a - 1] == w.name[a - 1]);
    assert(s[e] == w.specifiers[0]);
    assert(w.opening.len() > 0 ==> s[d] == w.opening[0]);
    assert(w.blank.len() > 0 ==> s[c] == w.blank[0]);
    assert(w.extras.len() > 0 ==> s[b] == w.extras[0]);
    assert(w.gap.len() > 0 ==> s[a] == w.gap[0]);
    lemma_run(s, Class::Space, 0, 0);
    assert forall|k: int| 0 <= k < a implies in_class(Class::Name, #[trigger] s[k]) by {
        assert(s[k] == w.name[k]);
    }
    lemma_run(s, Class::Name, 0, a);
    lemma_gap(s, c, w.blank);
    if w.extras.len() > 0 {
        lemma_gap(s, a, w.gap);
    } else {
        let both = w.gap + w.blank;
        lemma_stands_parts(s, a, w.gap, w.blank);
        lemma_gap(s, a, both);
    }
    lemma_run(s, Class::Space, e, e);
}

/// Extras are read to their end.
proof fn lemma_extras(s: Seq<char>, b: int, extras: Seq<char>)
    requires
        is_extras(extras),
        extras.len() > 0,
        stands(s, b, extras),
    ensures
        extras_end(s, b) == Some(b + extras.len()),
{
    let c = b + extras.len();
    lemma_stands(s, b, extras);
    assert(s[b] == extras[0]);
    assert(s[c - 1] == extras[extras.len() - 1]);
    lemma_index_of(s, ']', b, s.len() as int);
    assert forall|k: int| b < k < c - 1 implies #[trigger] s[k] != ']' && s[k] != '[' && (
    is_name_separator(s[k]) ==> k + 1 < s.len() && in_class(Class::Name, s[k + 1])) by {
        lemma_extra_char(s, b, extras, k);
    }
    assert(index_of(s, ']', b, s.len() as int) == Some(c - 1));
}

/// A character between the brackets of extras.
proof fn lemma_extra_char(s: Seq<char>, b: int, extras: Seq<char>, k: int)
    requires
        is_extras(extras),
        stands(s, b, extras),
        b < k < b + extras.len() - 1,
    ensures
        s[k] != ']',
        s[k] != '[',
        is_name_separator(s[k]) ==> k + 1 < s.len() && in_class(Class::Name, s[k + 1]),
{
    lemma_stands(s, b, extras);
    assert(is_extra_at(extras, k - b));
    assert(s[k] == extras[k - b]);
    assert(s[k + 1] == extras[k + 1 - b]);
}

/// A requirement that is written as it should be can be read.
pub proof fn lemma_readable(w: Written)
    requires
        is_written(w),
    ensures
        is_readable(requirement_text(w)),
{
    let s = requirement_text(w);
    let a = w.name.len() as int;
    let b = a + w.gap.len();
    let c = b + w.extras.len();
    let d = c + w.blank.len();
    let e = d + w.opening.len();
    lemma_name(w);
    if w.extras.len() > 0 {
        lemma_parts(w);
        lemma_extras(s, b, w.extras);
        assert(version_start(s, c) == e);
    } else {
        assert(extras_end(s, d) == Some(d));
        lemma_run(s, Class::Space, d, d);
        assert(version_start(s, d) == e);
    }
    lemma_version(w);
}

/// The version of a requirement, and its marker, read well.
proof fn lemma_version(w: Written)
    requires
        is_written(w),
    ensures
        version_reads(requirement_text(w), head_text(w).len() as int),
{
    let s = requirement_text(w);
    let e = head_text(w).len() as int;
    lemma_specifier_chars(w);
    lemma_index_of(s, ';', e, s.len() as int);
    match w.marker {
        Some(m) => {
            let h = e + w.specifiers.len() + w.closing.len() + m.before.len();
            assert(index_of(s, ';', e, s.len() as int) == Some(h));
            lemma_marker_part(w, m);
        },
        None => {
            assert(index_of(s, ';', e, s.len() as int) is None);
        },
    }
}

/// From the version specifiers to the marker, nothing stands that cannot.
proof fn lemma_specifier_chars(w: Written)
    requires
        is_written(w),
    ensures
        ({
            let s = requirement_text(w);
            let e = head_text(w).len() as int;
            let g = e + w.specifiers.len() + w.closing.len();
            let h = match w.marker {
                Some(m) => g + m.before.len(),
                None => g,
            };
            &&& is_operator_at(s, e)
            &&& e < h <= s.len()
            &&& w.marker is Some ==> h < s.len() && s[h] == ';'
            &&& w.marker is None ==> h == s.len()
            &&& forall|k: int| e <= k < h ==> #[trigger] s[k] != ';' && !is_foreign(s[k])
        }),
{
    let s = requirement_text(w);
    let e = head_text(w).len() as int;
    let f = e + w.specifiers.len();
    let g = f + w.closing.len();
    lemma_parts(w);
    lemma_stands(s, e, w.specifiers);
    lemma_stands(s, f, w.closing);
    assert(s[e] == w.specifiers[0]);
    assert(s[e + 1] == w.specifiers[1]);
    assert(w.closing.len() > 0 ==> s[f] == w.closing[0]);
    let h = match w.marker {
        Some(m) => g + m.before.len(),
        None => g,
    };
    if let Some(m) = w.marker {
        lemma_stands(s, g, m.before);
    }
    assert forall|k: int| e <= k < h implies #[trigger] s[k] != ';' && !is_foreign(s[k]) by {
        if k < f {
            assert(s[k] == w.specifiers[k - e]);
        } else if k >= g {
            if let Some(m) = w.marker {
                assert(s[k] == m.before[k - g]);
            }
        }
    }
}

/// The marker of a requirement reads well.
proof fn lemma_marker_part(w: Written, m: WrittenMarker)
    requires
        is_written(w),
        w.marker == Some(m),
    ensures
        ({
            let h = head_text(w).len() + w.specifiers.len() + w.closing.len() + m.before.len();
            marker_reads(requirement_text(w), h as int + 1, 0, false)
        }),
{
    let s = requirement_text(w);
    let h = (head_text(w).len() + w.specifiers.len() + w.closing.len() + m.before.len()) as int;
    let i = h + 1 + m.after.len();
    let end = s.len() as int;
    lemma_parts(w);
    lemma_marker_gap(s, h + 1, m.after, 0, false);
    lemma_run(s, Class::Word, end, end);
    lemma_run(s, Class::Space, end, end);
    assert(ends_marker(s, end));
    lemma_marker(s, i, 0, m.marker);
    assert(marker_reads(s, end, 0, true));
}

/// What stands before the version specifiers: no operators and no semicolons, and
/// brackets only around extras.
proof fn lemma_head_char(w: Written, i: int)
    requires
        is_written(w),
        0 <= i < head_text(w).len(),
    ensures
        ({
            let c = requirement_text(w)[i];
            let b = w.name.len() + w.gap.len();
            &&& i < requirement_text(w).len()
            &&& c != '<' && c != '>' && c != '=' && c != '~' && c != '!' && c != ';' && c != '+'
            &&& c != '"' && c != '\''
            &&& c == '[' <==> (w.extras.len() > 0 && i == b)
            &&& c == ']' <==> (w.extras.len() > 0 && i == b + w.extras.len() - 1)
        }),
{
    let s = requirement_text(w);
    let a = w.name.len() as int;
    let b = a + w.gap.len();
    let c = b + w.extras.len();
    let d = c + w.blank.len();
    lemma_parts(w);
    if i < a {
        lemma_stands(s, 0, w.name);
        assert(s[i] == w.name[i]);
    } else if i < b {
        lemma_stands(s, a, w.gap);
        assert(s[i] == w.gap[i - a]);
    } else if i < c {
        lemma_stands(s, b, w.extras);
        assert(s[i] == w.extras[i - b]);
        assert(b < i < c - 1 ==> is_extra_at(w.extras, i - b));
        assert(i == c - 1 ==> s[i] == w.extras.last());
    } else if i < d {
        lemma_stands(s, c, w.blank);
        assert(s[i] == w.blank[i - c]);
    } else {
        lemma_stands(s, d, w.opening);
        assert(s[i] == w.opening[i - d]);
    }
}

/// Before the version specifiers no operator stands.
proof fn lemma_specifier_start(w: Written, i: int)
    requires
        is_written(w),
        0 <= i <= head_text(w).len(),
    ensures
        ({
            let b = w.name.len() + w.gap.len();
            let depth: nat = if b < i < b + w.extras.len() {
                1
            } else {
                0
            };
            specifier_start(requirement_text(w), i, depth) == Some(head_text(w).len() as int)
        }),
    decreases head_text(w).len() - i,
{
    let s = requirement_text(w);
    if i < head_text(w).len() {
        lemma_specifier_start(w, i + 1);
        lemma_head_char(w, i);
    } else {
        lemma_specifier_chars(w);
        assert(s[i] == '<' || s[i] == '>' || s[i] == '=' || s[i] == '~' || s[i] == '!');
    }
}

/// Text that ends with no white space is its own trimming, whatever blanks follow.
pub proof fn lemma_trimmed_gap(s: Seq<char>, n: int)
    requires
        0 < n <= s.len(),
        !is_whitespace(s[n - 1]),
        forall|k: int| n <= k < s.len() ==> is_whitespace(#[trigger] s[k]),
    ensures
        trimmed_end(s) == s.take(n),
    decreases s.len(),
{
    if s.len() > n {
        assert(is_whitespace(s[s.len() - 1]));
        lemma_trimmed_gap(s.drop_last(), n);
        assert(s.drop_last().take(n) =~= s.take(n));
    } else {
        assert(s.take(n) =~= s);
    }
}

/// The version specifiers of a requirement are found where they stand.
pub proof fn lemma_span(w: Written)
    requires
        is_written(w),
    ensures
        ({
            let e = head_text(w).len() as int;
            let f = e + w.specifiers.len();
            &&& specifier_span(requirement_text(w)) == Some((e, f))
            &&& requirement_text(w).subrange(e, f) == w.specifiers
        }),
{
    let s = requirement_text(w);
    let e = head_text(w).len() as int;
    let f = e + w.specifiers.len();
    let g = f + w.closing.len();
    lemma_parts(w);
    lemma_specifier_start(w, 0);
    lemma_stands(s, e, w.specifiers);
    lemma_stands(s, f, w.closing);
    assert(w.closing.len() > 0 ==> s[f] == w.closing[0]);
    let p = ends_specifiers(s);
    lemma_first_index(p, e, s.len() as int);
    assert forall|k: int| e <= k < f implies !(#[trigger] p(k)) by {
        assert(s[k] == w.specifiers[k - e]);
    }
    let stop = specifier_stop(s, e);
    let head = s.take(stop);
    match w.marker {
        Some(m) => {
            let h = g + m.before.len();
            lemma_stands(s, g, m.before);
            assert(p(h));
            if w.closing.len() > 0 {
                assert(p(f));
                assert(stop == f);
            } else {
                assert forall|k: int| f <= k < h implies !(#[trigger] p(k)) && is_whitespace(
                    s[k],
                ) by {
                    assert(s[k] == m.before[k - g]);
                }
                assert(stop == h);
            }
        },
        None => {
            if w.closing.len() > 0 {
                assert(p(f));
            }
            assert(stop == f);
        },
    }
    assert(s[f - 1] == w.specifiers[w.specifiers.len() - 1]);
    lemma_trimmed_gap(head, f);
}

/// A requirement begins with a letter or a digit and ends with no white space.
pub proof fn lemma_ends(w: Written)
    requires
        is_written(w),
    ensures
        requirement_text(w).len() > 0,
        is_ascii_alphanumeric(requirement_text(w)[0]),
        !is_whitespace(requirement_text(w).last()),
{
    let s = requirement_text(w);
    let e = head_text(w).len() as int;
    let f = e + w.specifiers.len();
    lemma_parts(w);
    lemma_name(w);
    lemma_stands(s, e, w.specifiers);
    lemma_stands(s, f, w.closing);
    match w.marker {
        Some(m) => {
            let t = marker_text(m.marker);
            let i = s.len() - t.len();
            lemma_marker_text(m.marker);
            lemma_stands(s, i, t);
            assert(s[s.len() - 1] == t[t.len() - 1]);
        },
        None => {
            if w.closing.len() > 0 {
                assert(s[f] == w.closing[0]);
            } else {
                assert(s[f - 1] == w.specifiers[w.specifiers.len() - 1]);
            }
        },
    }
}

// ---------------------------------------------------------------------------
// What requirements are made of
// ---------------------------------------------------------------------------

/// Text without backslashes, number signs, colons and line breaks.
pub open spec fn is_clean(text: Seq<char>) -> bool {
    forall|i: int| 0 <= i < text.len() ==> is_clean_char(#[trigger] text[i])
}

/// No backslash, number sign, colon or line break.
pub open spec fn is_clean_char(c: char) -> bool {
    c != '\\' && c != '#' && c != ':' && c != '\n' && c != '\r'
}

/// Clean texts stay clean when they are put together.
proof fn lemma_clean_parts(a: Seq<char>, b: Seq<char>)
    requires
        is_clean(a),
        is_clean(b),
    ensures
        is_clean(a + b),
{
    assert forall|i: int| 0 <= i < (a + b).len() implies is_clean_char(#[trigger] (a + b)[i]) by {
        if i < a.len() {
            assert((a + b)[i] == a[i]);
        } else {
            assert((a + b)[i] == b[i - a.len()]);
        }
    }
}

/// Sides of comparisons are clean.
proof fn lemma_clean_operand(o: Operand)
    requires
        is_operand(o),
    ensures
        is_clean(operand_text(o)),
{
    if let Operand::Text { quote, text } = o {
        lemma_clean_parts(seq![quote], text);
        lemma_clean_parts(seq![quote] + text, seq![quote]);
    }
}

/// Operators are clean.
proof fn lemma_clean_operator(operator: Seq<char>)
    requires
        is_sign_operator(operator) || is_word_operator(operator),
    ensures
        is_clean(operator),
        forall|i: int|
            0 <= i < operator.len() ==> #[trigger] operator[i] != '"' && operator[i] != '\'',
{
    reveal_strlit("==");
    reveal_strlit("!=");
    reveal_strlit("<=");
    reveal_strlit(">=");
    reveal_strlit("<");
    reveal_strlit(">");
    reveal_strlit("~=");
    reveal_strlit("===");
    reveal_strlit("in");
    reveal_strlit("not in");
}

/// Markers are clean.
proof fn lemma_clean_marker(m: Marker)
    requires
        is_marker(m),
    ensures
        is_clean(marker_text(m)),
    decreases m,
{
    match m {
        Marker::Compare { left, before, operator, after, right } => {
            let l = operand_text(left);
            lemma_clean_operand(left);
            lemma_clean_operand(right);
            lemma_clean_operator(operator);
            lemma_clean_parts(l, before);
            lemma_clean_parts(l + before, operator);
            lemma_clean_parts(l + before + operator, after);
            lemma_clean_parts(l + before + operator + after, operand_text(right));
        },
        Marker::Joined { first, word, second } => {
            reveal_strlit("and");
            reveal_strlit("or");
            lemma_clean_marker(*first);
            lemma_clean_marker(*second);
            let w = seq![' '] + word + seq![' '];
            lemma_clean_parts(seq![' '], word);
            lemma_clean_parts(seq![' '] + word, seq![' ']);
            lemma_clean_parts(marker_text(*first), w);
            lemma_clean_parts(marker_text(*first) + w, marker_text(*second));
        },
        Marker::Group(inner) => {
            lemma_clean_marker(*inner);
            lemma_clean_parts(seq!['('], marker_text(*inner));
            lemma_clean_parts(seq!['('] + marker_text(*inner), seq![')']);
        },
    }
}

/// Requirements are clean.
pub proof fn lemma_clean(w: Written)
    requires
        is_written(w),
    ensures
        is_clean(requirement_text(w)),
{
    assert forall|i: int| 0 <= i < w.extras.len() implies is_clean_char(#[trigger] w.extras[i]) by {
        assert(0 < i < w.extras.len() - 1 ==> is_extra_at(w.extras, i));
        assert(i == w.extras.len() - 1 ==> w.extras[i] == w.extras.last());
    }
    lemma_clean_parts(w.name, w.gap);
    lemma_clean_parts(w.name + w.gap, w.extras);
    lemma_clean_parts(w.name + w.gap + w.extras, w.blank);
    lemma_clean_parts(w.name + w.gap + w.extras + w.blank, w.opening);
    lemma_clean_parts(head_text(w), w.specifiers);
    match w.marker {
        Some(m) => {
            lemma_clean_marker(m.marker);
            lemma_clean_parts(m.before, seq![';']);
            lemma_clean_parts(m.before + seq![';'], m.after);
            lemma_clean_parts(m.before + seq![';'] + m.after, marker_text(m.marker));
            lemma_clean_parts(
                w.closing,
                m.before + seq![';'] + m.after + marker_text(m.marker),
            );
        },
        None => {
            lemma_clean_parts(w.closing, Seq::empty());
        },
    }
    lemma_clean_parts(head_text(w) + w.specifiers, tail_text(w));
}

// ---------------------------------------------------------------------------
// Quotation marks
// ---------------------------------------------------------------------------

/// Neither quotation mark is in a text.
pub open spec fn is_unmarked(text: Seq<char>) -> bool {
    forall|i: int| 0 <= i < text.len() ==> #[trigger] text[i] != '"' && text[i] != '\''
}

/// Where no quotation marks stand, nothing is opened or closed.
pub proof fn lemma_unmarked(s: Seq<char>, i: int, part: Seq<char>)
    requires
        stands(s, i, part),
        is_unmarked(part),
    ensures
        in_quotes(s, i + part.len()) == in_quotes(s, i),
    decreases part.len(),
{
    if part.len() > 0 {
        let rest = part.drop_last();
        assert(part =~= rest + seq![part.last()]);
        lemma_stands_parts(s, i, rest, seq![part.last()]);
        lemma_unmarked(s, i, rest);
        lemma_stands(s, i, part);
        assert(s[i + part.len() - 1] == part[part.len() - 1]);
    }
}

/// A side of a comparison closes the quotation marks that it opens.
proof fn lemma_closed_operand(s: Seq<char>, i: int, o: Operand)
    requires
        is_operand(o),
        stands(s, i, operand_text(o)),
        i > 0 ==> s[i - 1] != '\\',
    ensures
        in_quotes(s, i + operand_text(o).len()) == in_quotes(s, i),
{
    match o {
        Operand::Key(key) => {
            lemma_unmarked(s, i, key);
        },
        Operand::Text { quote, text } => {
            let n = text.len() as int;
            lemma_stands_parts(s, i, seq![quote] + text, seq![quote]);
            lemma_stands_parts(s, i, seq![quote], text);
            lemma_stands(s, i, seq![quote]);
            lemma_stands(s, i + 1, text);
            lemma_stands(s, i + 1 + n, seq![quote]);
            assert(s[i] == seq![quote][0]);
            assert(s[i + 1 + n] == seq![quote][0]);
            assert(n > 0 ==> s[i + n] == text[n - 1]);
            lemma_unmarked(s, i + 1, text);
            assert(!escaped_at(s, 0, i));
            assert(!escaped_at(s, 0, i + 1 + n));
        },
    }
}

/// A comparison closes the quotation marks that it opens.
proof fn lemma_closed_comparison(
    s: Seq<char>,
    i: int,
    left: Operand,
    before: Seq<char>,
    operator: Seq<char>,
    after: Seq<char>,
    right: Operand,
)
    requires
        is_operand(left),
        is_operand(right),
        is_gap(before),
        is_gap(after),
        is_sign_operator(operator) || is_word_operator(operator),
        stands(s, i, operand_text(left) + before + operator + after + operand_text(right)),
        forall|k: int|
            i - 1 <= k < i + (operand_text(left) + before + operator + after + operand_text(
                right,
            )).len() ==> #[trigger] s[k] != '\\',
    ensures
        in_quotes(
            s,
            i + (operand_text(left) + before + operator + after + operand_text(right)).len(),
        ) == in_quotes(s, i),
{
    let l = operand_text(left);
    let r = operand_text(right);
    let a = i + l.len();
    let b = a + before.len();
    let c = b + operator.len();
    let d = c + after.len();
    lemma_stands_parts(s, i, l + before + operator + after, r);
    lemma_stands_parts(s, i, l + before + operator, after);
    lemma_stands_parts(s, i, l + before, operator);
    lemma_stands_parts(s, i, l, before);
    lemma_clean_operator(operator);
    lemma_closed_operand(s, i, left);
    lemma_unmarked(s, a, before);
    lemma_unmarked(s, b, operator);
    lemma_unmarked(s, c, after);
    lemma_closed_operand(s, d, right);
}

/// The word that joins two markers holds no quotation marks.
proof fn lemma_unmarked_word(s: Seq<char>, p: int, word: Seq<char>)
    requires
        word == "and"@ || word == "or"@,
        stands(s, p, seq![' '] + word + seq![' ']),
    ensures
        in_quotes(s, p + word.len() + 2) == in_quotes(s, p),
{
    reveal_strlit("and");
    reveal_strlit("or");
    let w = seq![' '] + word + seq![' '];
    assert forall|k: int| 0 <= k < w.len() implies #[trigger] w[k] != '"' && w[k] != '\'' by {
        if 0 < k < w.len() - 1 {
            assert(w[k] == word[k - 1]);
        }
    }
    lemma_unmarked(s, p, w);
}

/// A marker holds no backslashes.
proof fn lemma_no_backslash(s: Seq<char>, i: int, m: Marker)
    requires
        is_marker(m),
        stands(s, i, marker_text(m)),
    ensures
        forall|k: int| i <= k < i + marker_text(m).len() ==> #[trigger] s[k] != '\\',
{
    let t = marker_text(m);
    lemma_stands(s, i, t);
    lemma_clean_marker(m);
    assert forall|k: int| i <= k < i + t.len() implies #[trigger] s[k] != '\\' by {
        assert(s[k] == t[k - i]);
        assert(is_clean_char(t[k - i]));
    }
}

/// A marker closes the quotation marks that it opens.
proof fn lemma_closed_marker(s: Seq<char>, i: int, m: Marker)
    requires
        is_marker(m),
        stands(s, i, marker_text(m)),
        i > 0,
        s[i - 1] != '\\',
    ensures
        in_quotes(s, i + marker_text(m).len()) == in_quotes(s, i),
    decreases m,
{
    lemma_no_backslash(s, i, m);
    match m {
        Marker::Compare { left, before, operator, after, right } => {
            lemma_closed_comparison(s, i, left, before, operator, after, right);
        },
        Marker::Joined { first, word, second } => {
            let a = marker_text(*first);
            let w = seq![' '] + word + seq![' '];
            let b = marker_text(*second);
            lemma_stands_parts(s, i, a + w, b);
            lemma_stands_parts(s, i, a, w);
            let p = i + a.len();
            lemma_closed_marker(s, i, *first);
            lemma_unmarked_word(s, p, word);
            lemma_closed_marker(s, p + w.len(), *second);
        },
        Marker::Group(inner) => {
            let a = marker_text(*inner);
            lemma_stands_parts(s, i, seq!['('] + a, seq![')']);
            lemma_stands_parts(s, i, seq!['('], a);
            lemma_unmarked(s, i, seq!['(']);
            lemma_closed_marker(s, i + 1, *inner);
            lemma_unmarked(s, i + 1 + a.len(), seq![')']);
        },
    }
}

/// A requirement closes the quotation marks that it opens.
#[verifier::rlimit(40)]
pub proof fn lemma_closed(s: Seq<char>, i: int, w: Written)
    requires
        is_written(w),
        stands(s, i, requirement_text(w)),
    ensures
        in_quotes(s, i + requirement_text(w).len()) == in_quotes(s, i),
{
    let head = head_text(w);
    let tail = tail_text(w);
    lemma_stands_parts(s, i, head + w.specifiers, tail);
    lemma_stands_parts(s, i, head, w.specifiers);
    lemma_parts(w);
    assert(is_unmarked(head)) by {
        assert forall|k: int| 0 <= k < head.len() implies #[trigger] head[k] != '"' && head[k]
            != '\'' by {
            assert(requirement_text(w)[k] == head[k]);
            lemma_head_char(w, k);
        }
    }
    lemma_unmarked(s, i, head);
    lemma_unmarked(s, i + head.len(), w.specifiers);
    let f = i + head.len() + w.specifiers.len();
    match w.marker {
        Some(m) => {
            let g = f + w.closing.len();
            let t = marker_text(m.marker);
            let rest = m.before + seq![';'] + m.after + t;
            lemma_stands_parts(s, f, w.closing, rest);
            lemma_stands_parts(s, g, m.before + seq![';'] + m.after, t);
            lemma_stands_parts(s, g, m.before + seq![';'], m.after);
            lemma_stands_parts(s, g, m.before, seq![';']);
            lemma_unmarked(s, f, w.closing);
            lemma_unmarked(s, g, m.before);
            let h = g + m.before.len();
            lemma_unmarked(s, h, seq![';']);
            lemma_unmarked(s, h + 1, m.after);
            let j = h + 1 + m.after.len();
            lemma_stands(s, h, seq![';']);
            lemma_stands(s, h + 1, m.after);
            assert(s[h] == seq![';'][0]);
            assert(m.after.len() > 0 ==> s[j - 1] == m.after[m.after.len() - 1]);
            lemma_closed_marker(s, j, m.marker);
        },
        None => {
            assert(tail =~= w.closing);
            lemma_unmarked(s, f, w.closing);
        },
    }
}

/// A clean text holds no colon.
proof fn lemma_no_colon(s: Seq<char>)
    requires
        is_clean(s),
    ensures
        !contains_text(s, "://"@),
        !"file:"@.is_prefix_of(s),
{
    reveal_strlit("://");
    reveal_strlit("file:");
    if contains_text(s, "://"@) {
        let i = choose|i: int| 0 <= i <= s.len() && "://"@.is_prefix_of(#[trigger] s.skip(i));
        assert("://"@[0] == s.skip(i)[0]);
        assert(is_clean_char(s[i]));
    }
    if "file:"@.is_prefix_of(s) {
        assert("file:"@[4] == s[4]);
        assert(is_clean_char(s[4]));
    }
}

/// A requirement names neither a file nor an address.
pub proof fn lemma_no_path(w: Written)
    requires
        is_written(w),
    ensures
        !is_path_like(requirement_text(w)),
        requirement_text(w)[0] != '-',
{
    let s = requirement_text(w);
    lemma_ends(w);
    lemma_clean(w);
    lemma_no_colon(s);
    if "git+"@.is_prefix_of(s) {
        reveal_strlit("git+");
        let e = head_text(w).len() as int;
        assert("git+"@[3] == s[3]);
        assert("git+"@[2] == s[2]);
        assert("git+"@[1] == s[1]);
        assert("git+"@[0] == s[0]);
        if 3 < e {
            lemma_head_char(w, 3);
        } else {
            lemma_specifier_chars(w);
        }
    }
}

} // verus!
