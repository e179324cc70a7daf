//! What becomes of a Cargo manifest when a version in it is replaced by another.

use crate::edits::{
    bare_text, byte_shift, in_quotation_marks, is_atom_char, is_edit, is_quoted_text, is_swap,
    is_version_char, is_version_like, lemma_byte_offset_injective, lemma_bytes_moved,
    lemma_escaped_same, lemma_first_moved, lemma_first_same, lemma_first_skipped, lemma_index_moved,
    lemma_line_break_moved, lemma_margin, lemma_replaced, lemma_replaced_skip,
    lemma_replaced_subrange, lemma_swap, lemma_token_at, lemma_token_before, lemma_token_skipped,
    lemma_trimmed_end_moved, lemma_trimmed_start_moved, lemma_unquoted_moved, lemma_updated_before,
    lemma_updated_concat, lemma_without_comment_moved, margin, reads_back, replaced, shift,
    stands_alone, stands_at, updated_entries,
};
use crate::entries::{
    cargo_entries, cargo_line, cargo_section, cargo_value, line_entries, EntryView, LineEntryView,
};
use crate::lines::{lemma_line_end, line_at, line_end, without_line_break};
use crate::scan::{
    closes_string, escaped_at, is_unquoted, json_token, lemma_json_token, unquoted_index,
    without_comment, TokenView,
};
use crate::text::{
    byte_offset, contains_text, first_index, is_char, is_whitespace, lemma_byte_offset_monotonic,
    lemma_first_index, lemma_index_of, lemma_trimmed_end, lemma_trimmed_start, trimmed, trimmed_end,
    trimmed_start,
};
use crate::toml::{
    bare_key_end, bare_value, ends_bare_value, ends_key, inline_value, is_key_char, key_token,
    lemma_key_token, normalized_key, quoted_value, starts_key, table_value, ValueView,
};
use vstd::prelude::*;

verus! {

// ---------------------------------------------------------------------------
// Keys
// ---------------------------------------------------------------------------

/// A key that ends before the replaced stretch is found as before.
proof fn lemma_key_before(s: Seq<char>, i: int, j: int, new: Seq<char>, from: int)
    requires
        is_edit(s, i, j, new),
        0 <= from,
        key_token(s, from) matches Some(token) && token.outer_end < i,
    ensures
        key_token(replaced(s, i, j, new), from) == key_token(s, from),
{
    lemma_replaced(s, i, j, new);
    let t = replaced(s, i, j, new);
    let n = s.len() as int;
    let token = key_token(s, from)->0;
    lemma_key_token(s, from);
    lemma_first_index(starts_key(s), from, n);
    let start = first_index(starts_key(s), from, n)->0;
    if s[start] == '"' {
        lemma_json_token(s, start, n);
        lemma_first_same(starts_key(s), starts_key(t), from, n, t.len() as int, start);
        lemma_token_before(s, i, j, new, start, n, t.len() as int);
    } else {
        lemma_first_index(ends_key(s), start, n);
        lemma_first_same(starts_key(s), starts_key(t), from, n, t.len() as int, start);
        lemma_first_same(ends_key(s), ends_key(t), start, n, t.len() as int, token.outer_end);
        assert(t.subrange(start, token.outer_end) =~= s.subrange(start, token.outer_end));
    }
}

/// A token that stands `m` characters further to the right.
spec fn token_behind(token: Option<TokenView>, m: int) -> Option<TokenView> {
    match token {
        Some(token) => Some(
            TokenView {
                value: token.value,
                inner_start: token.inner_start + m,
                inner_end: token.inner_end + m,
                outer_end: token.outer_end + m,
            },
        ),
        None => None,
    }
}

/// A key is found in what follows the first `m` characters as in the whole.
proof fn lemma_key_skipped(s: Seq<char>, m: int, from: int)
    requires
        0 <= m <= from,
        m <= s.len(),
    ensures
        key_token(s, from) == token_behind(key_token(s.skip(m), from - m), m),
{
    let u = s.skip(m);
    let n = s.len() as int;
    let p = starts_key(s);
    let q = starts_key(u);
    assert forall|k: int| from <= k < n implies #[trigger] p(k) == q(k - m) by {
        assert(u[k - m] == s[k]);
    }
    lemma_first_skipped(p, q, m, from, n);
    lemma_first_index(p, from, n);
    if let Some(start) = first_index(p, from, n) {
        assert(u[start - m] == s[start]);
        if s[start] == '"' {
            lemma_token_skipped(s, m, start, n);
        } else {
            let p2 = ends_key(s);
            let q2 = ends_key(u);
            assert forall|k: int| start <= k < n implies #[trigger] p2(k) == q2(k - m) by {
                assert(u[k - m] == s[k]);
            }
            lemma_first_skipped(p2, q2, m, start, n);
            lemma_first_index(p2, start, n);
            let end = bare_key_end(s, start);
            assert(u.subrange(start - m, end - m) =~= s.subrange(start, end));
        }
    }
}

// ---------------------------------------------------------------------------
// Values
// ---------------------------------------------------------------------------

/// A quoted value begins with a quotation mark.
proof fn lemma_quoted_value(s: Seq<char>)
    ensures
        quoted_value(s) is Some ==> s.len() > 0 && s[0] == '"',
{
    lemma_json_token(s, 0, s.len() as int);
}

/// Two answers that are both there or both missing, and say `true` alike.
spec fn alike(a: Option<ValueView>, b: Option<ValueView>) -> bool {
    match (a, b) {
        (Some(v), Some(w)) => (v.value == "true"@) == (w.value == "true"@),
        (None, None) => true,
        _ => false,
    }
}

/// A text with a version or a quotation mark in it does not say `true`.
proof fn lemma_not_true(s: Seq<char>, i: int)
    requires
        0 <= i < s.len(),
        is_atom_char(s[i]),
    ensures
        s != "true"@,
{
    reveal_strlit("true");
    if s == "true"@ {
        assert(s.len() == 4);
        assert(s[0] == 't' && s[1] == 'r' && s[2] == 'u' && s[3] == 'e');
    }
}

/// What is no white space is not trimmed from the end.
proof fn lemma_not_trimmed(s: Seq<char>, i: int)
    requires
        0 <= i < s.len(),
        !is_whitespace(s[i]),
    ensures
        i < trimmed_end(s).len() <= s.len(),
        trimmed_end(s)[i] == s[i],
    decreases s.len(),
{
    if is_whitespace(s.last()) {
        lemma_not_trimmed(s.drop_last(), i);
    }
}

/// An unquoted value that reaches into a version or a string is not `true`.
proof fn lemma_bare_not_true(s: Seq<char>, i: int)
    requires
        0 <= i < s.len(),
        !is_whitespace(s[0]),
        is_atom_char(s[i]),
        forall|k: int| 0 <= k < i ==> !#[trigger] ends_bare_value(s)(k),
    ensures
        bare_value(s) matches Some(v) && v.value != "true"@,
{
    let p = ends_bare_value(s);
    let n = s.len() as int;
    lemma_first_index(p, 0, n);
    assert(!p(i));
    let end = match first_index(p, 0, n) {
        Some(k) => k,
        None => n,
    };
    assert(end > i) by {
        if first_index(p, 0, n) is Some {
            assert(p(end));
        }
    }
    let x = s.subrange(0, end);
    lemma_not_trimmed(x, i);
    lemma_not_true(trimmed_end(x), i);
}

/// The value before the replaced stretch, or around it, is there as before.
proof fn lemma_value_alike(s: Seq<char>, i: int, j: int, new: Seq<char>, bare: bool)
    requires
        is_swap(s, i, j, new),
        !is_whitespace(s[0]),
        s[0] == '"' ==> (json_token(s, 0, s.len() as int) matches Some(token) && token.outer_end
            <= i),
    ensures
        alike(table_value(s, bare), table_value(replaced(s, i, j, new), bare)),
{
    lemma_swap(s, i, j, new);
    lemma_replaced(s, i, j, new);
    let t = replaced(s, i, j, new);
    let n = s.len() as int;
    lemma_quoted_value(s);
    lemma_quoted_value(t);
    if s[0] == '"' {
        lemma_token_before(s, i, j, new, 0, n, t.len() as int);
        lemma_json_token(s, 0, n);
        lemma_index_of(s, '"', 0, n);
    } else if bare {
        assert(!is_whitespace(t[0]) && t[0] != '"') by {
            if i == 0 {
                lemma_margin(s, i, j, new);
                assert(is_version_char(new[0]));
                assert(t[0] == new[0]);
            }
        }
        let p = ends_bare_value(s);
        let q = ends_bare_value(t);
        lemma_first_index(p, 0, n);
        if first_index(p, 0, n) is Some && first_index(p, 0, n)->0 < i {
            let end = first_index(p, 0, n)->0;
            lemma_first_same(p, q, 0, n, t.len() as int, end);
            assert(t.subrange(0, end) =~= s.subrange(0, end));
        } else {
            assert(is_atom_char(t[i]));
            assert forall|k: int| 0 <= k < i implies !#[trigger] q(k) by {
                assert(!p(k));
                assert(t[k] == s[k]);
            }
            lemma_bare_not_true(s, i);
            lemma_bare_not_true(t, i);
        }
    }
}

/// The value that is the replaced stretch becomes the new one.
proof fn lemma_value_replaced(s: Seq<char>, i: int, j: int, new: Seq<char>, bare: bool)
    requires
        is_swap(s, i, j, new),
        !is_whitespace(s[0]),
        reads_back(bare_text(new)),
        table_value(s, bare) matches Some(v) && v.start == i + margin(new) && v.end == j - margin(
            new,
        ),
    ensures
        table_value(replaced(s, i, j, new), bare) == Some(
            ValueView {
                value: bare_text(new),
                start: i + margin(new),
                end: j - margin(new) + shift(i, j, new),
            },
        ),
        quoted_value(s) is Some ==> i + margin(new) == 1 && s[0] == '"' && j - margin(new) < s.len()
            && s[j - margin(new)] == '"',
        quoted_value(s) is None ==> i == 0 && margin(new) == 0 && (j < s.len() ==> !is_key_char(
            s[j],
        ) && s[j] != '"'),
{
    lemma_swap(s, i, j, new);
    lemma_margin(s, i, j, new);
    lemma_replaced(s, i, j, new);
    let t = replaced(s, i, j, new);
    let d = shift(i, j, new);
    let o = margin(new);
    let n = s.len() as int;
    lemma_quoted_value(s);
    lemma_quoted_value(t);
    if quoted_value(s) is Some {
        lemma_json_token(s, 0, n);
        lemma_token_at(s, i + o, j - o, bare_text(new), 0, t.len() as int);
    } else {
        assert(i == 0);
        let old = s.subrange(i, j);
        assert(is_version_char(new[0]));
        assert(t[0] == new[0]);
        let p = ends_bare_value(s);
        let q = ends_bare_value(t);
        assert forall|k: int| i <= k < j implies !#[trigger] p(k) by {
            assert(is_version_char(old[k - i]));
        }
        assert forall|k: int| i <= k < j + d implies !#[trigger] q(k) by {
            assert(is_atom_char(t[k]));
        }
        assert forall|k: int| j <= k < n implies #[trigger] p(k) == q(k + d) by {
            assert(s[k] == t[k + d]);
        }
        lemma_first_moved(p, q, i, j, d, 0, n);
        lemma_first_index(p, 0, n);
        let end = match first_index(p, 0, n) {
            Some(k) => k,
            None => n,
        };
        let x = s.subrange(0, end);
        lemma_trimmed_end(x);
        assert(trimmed_end(x).len() == j);
        lemma_replaced_subrange(s, i, j, new, 0, end);
        lemma_trimmed_end_moved(x, i, j, new);
        assert(replaced(trimmed_end(x), i, j, new) =~= new);
        if j < n {
            if j == end {
                assert(p(end));
            } else {
                lemma_behind_trimmed(x);
                assert(is_whitespace(x[j]));
            }
        }
    }
}

/// What is trimmed from the end is white space.
proof fn lemma_behind_trimmed(s: Seq<char>)
    ensures
        trimmed_end(s).len() <= s.len(),
        trimmed_end(s).len() < s.len() ==> is_whitespace(s[trimmed_end(s).len() as int]),
    decreases s.len(),
{
    if s.len() > 0 && is_whitespace(s.last()) {
        lemma_behind_trimmed(s.drop_last());
    }
}

// ---------------------------------------------------------------------------
// Inline tables
// ---------------------------------------------------------------------------

/// A value that stands `m` characters further to the right.
spec fn value_behind(value: Option<ValueView>, m: int) -> Option<ValueView> {
    match value {
        Some(v) => Some(ValueView { value: v.value, start: v.start + m, end: v.end + m }),
        None => None,
    }
}

/// A value is found in what follows the first `m` characters as in the whole.
proof fn lemma_inline_skipped(s: Seq<char>, m: int, key: Seq<char>, bare: bool, cursor: int)
    requires
        0 <= m <= cursor,
        m <= s.len(),
    ensures
        inline_value(s, key, bare, cursor) == value_behind(
            inline_value(s.skip(m), key, bare, cursor - m),
            m,
        ),
    decreases s.len() - cursor,
{
    let u = s.skip(m);
    if cursor < s.len() {
        lemma_key_skipped(s, m, cursor);
        lemma_key_token(s, cursor);
        if let Some(token) = key_token(s, cursor) {
            assert(u.skip(token.outer_end - m) =~= s.skip(token.outer_end));
            let after_key = trimmed_start(s.skip(token.outer_end));
            if !(after_key.len() > 0 && after_key[0] == '=' && token.value == key) {
                lemma_inline_skipped(s, m, key, bare, token.outer_end);
            }
        }
    }
}

/// The same answer is found behind the replaced stretch.
proof fn lemma_inline_behind(
    s: Seq<char>,
    i: int,
    j: int,
    new: Seq<char>,
    key: Seq<char>,
    bare: bool,
    cursor: int,
)
    requires
        is_edit(s, i, j, new),
        j <= cursor,
    ensures
        alike(
            inline_value(s, key, bare, cursor),
            inline_value(replaced(s, i, j, new), key, bare, cursor + shift(i, j, new)),
        ),
{
    lemma_replaced(s, i, j, new);
    let t = replaced(s, i, j, new);
    let d = shift(i, j, new);
    lemma_inline_skipped(s, j, key, bare, cursor);
    lemma_inline_skipped(t, j + d, key, bare, cursor + d);
}

/// A value stands behind its key and an equals sign.
proof fn lemma_inline_ahead(s: Seq<char>, key: Seq<char>, bare: bool, cursor: int)
    requires
        0 <= cursor,
    ensures
        inline_value(s, key, bare, cursor) matches Some(v) ==> cursor + 2 <= v.start,
    decreases s.len() - cursor,
{
    if cursor < s.len() {
        lemma_key_token(s, cursor);
        if let Some(token) = key_token(s, cursor) {
            let rest = s.skip(token.outer_end);
            let after_key = trimmed_start(rest);
            lemma_trimmed_start(rest);
            if after_key.len() > 0 && after_key[0] == '=' && token.value == key {
                let after_equals = trimmed_start(after_key.skip(1));
                lemma_trimmed_start(after_key.skip(1));
                lemma_table_value(after_equals, bare);
            } else {
                lemma_inline_ahead(s, key, bare, token.outer_end);
            }
        }
    }
}

/// A value does not begin before its text.
proof fn lemma_table_value(s: Seq<char>, bare: bool)
    ensures
        table_value(s, bare) matches Some(v) ==> 0 <= v.start,
{
    lemma_json_token(s, 0, s.len() as int);
    lemma_trimmed_start(s);
}

/// Keys that no version can be taken for.
pub open spec fn is_word_key(key: Seq<char>) -> bool {
    key.len() > 0 && !is_version_char(key[0])
}

/// A search for a key passes over an unquoted version.
proof fn lemma_inline_over(
    s: Seq<char>,
    key: Seq<char>,
    bare: bool,
    cursor: int,
    j: int,
)
    requires
        is_word_key(key),
        0 <= cursor <= j <= s.len(),
        forall|k: int|
            cursor <= k < j ==> is_version_char(#[trigger] s[k]) || !(s[k] == '"' || is_key_char(
                s[k],
            )),
        j < s.len() ==> !is_key_char(s[j]),
    ensures
        inline_value(s, key, bare, cursor) == inline_value(s, key, bare, j),
    decreases j - cursor,
{
    if cursor < j {
        let n = s.len() as int;
        let p = starts_key(s);
        lemma_first_index(p, cursor, n);
        lemma_key_token(s, cursor);
        match first_index(p, cursor, n) {
            Some(start) => {
                assert(p(start));
                if start < j {
                    assert(is_version_char(s[start]));
                    lemma_first_index(ends_key(s), start, n);
                    let end = bare_key_end(s, start);
                    if end > j {
                        assert(!ends_key(s)(j));
                    }
                    let token = key_token(s, cursor)->0;
                    assert(token.value[0] == s[start]);
                    assert(token.value != key);
                    lemma_inline_over(s, key, bare, end, j);
                } else {
                    lemma_first_index(p, j, n);
                    assert(first_index(p, j, n) == Some(start)) by {
                        if let Some(other) = first_index(p, j, n) {
                            assert(p(other));
                        }
                    }
                }
            },
            None => {
                lemma_first_index(p, j, n);
                if let Some(other) = first_index(p, j, n) {
                    assert(p(other));
                }
            },
        }
    }
}

/// The key of versions is a word.
proof fn lemma_words()
    ensures
        is_word_key("version"@),
        is_word_key("workspace"@),
        is_word_key("path"@),
        is_word_key("git"@),
        is_word_key("registry"@),
        "version"@ != "workspace"@,
        "version"@ != "path"@,
        "version"@ != "git"@,
        "version"@ != "registry"@,
{
    reveal_strlit("version");
    reveal_strlit("workspace");
    reveal_strlit("path");
    reveal_strlit("git");
    reveal_strlit("registry");
    assert("version"@[0] == 'v');
    assert("workspace"@[0] == 'w');
    assert("path"@[0] == 'p');
    assert("git"@[0] == 'g');
    assert("registry"@[0] == 'r');
}

/// What follows a key, past an equals sign, in a text with a stretch replaced.
#[verifier::rlimit(40)]
proof fn lemma_after_equals(s: Seq<char>, i: int, j: int, new: Seq<char>, end: int)
    requires
        is_swap(s, i, j, new),
        0 <= end < i,
    ensures
        ({
            let t = replaced(s, i, j, new);
            let after_key = trimmed_start(s.skip(end));
            let after_equals = trimmed_start(after_key.skip(1));
            let after_key2 = trimmed_start(t.skip(end));
            let after_equals2 = trimmed_start(after_key2.skip(1));
            let at = s.len() - after_equals.len();
            &&& after_key.len() > 0
            &&& after_key2.len() > 0
            &&& (after_key[0] == '=') == (after_key2[0] == '=')
            &&& after_key[0] == '=' ==> {
                &&& end < at <= i
                &&& after_equals == s.skip(at)
                &&& is_swap(after_equals, i - at, j - at, new)
                &&& after_equals2 == replaced(after_equals, i - at, j - at, new)
                &&& t.len() - after_equals2.len() == at
                &&& !is_whitespace(after_equals[0])
                &&& forall|k: int|
                    end <= k < at ==> is_whitespace(#[trigger] s[k]) || s[k] == '='
            }
        }),
{
    lemma_swap(s, i, j, new);
    lemma_replaced(s, i, j, new);
    let t = replaced(s, i, j, new);
    let rest = s.skip(end);
    lemma_replaced_skip(s, i, j, new, end);
    lemma_trimmed_start_moved(rest, i - end, j - end, new);
    lemma_trimmed_start(rest);
    let after_key = trimmed_start(rest);
    let k1 = rest.len() - after_key.len();
    let e = end + k1;
    assert(after_key =~= s.skip(e));
    lemma_swap(after_key, i - e, j - e, new);
    lemma_replaced(after_key, i - e, j - e, new);
    if after_key[0] == '=' {
        assert(i > e) by {
            if i == e {
                assert(is_atom_char(after_key[0]));
            }
        }
        lemma_replaced_skip(after_key, i - e, j - e, new, 1);
        let rest2 = after_key.skip(1);
        lemma_trimmed_start_moved(rest2, i - e - 1, j - e - 1, new);
        lemma_trimmed_start(rest2);
        let after_equals = trimmed_start(rest2);
        let at = s.len() - after_equals.len();
        assert(after_equals =~= s.skip(at));
        lemma_before_trimmed(rest);
        lemma_before_trimmed(rest2);
        assert forall|k: int| end <= k < at implies is_whitespace(#[trigger] s[k]) || s[k]
            == '=' by {
            if k < e {
                assert(rest[k - end] == s[k]);
            } else if k > e {
                assert(rest2[k - e - 1] == s[k]);
            } else {
                assert(after_key[0] == s[e]);
            }
        }
    } else {
        if i == e {
            assert(is_atom_char(replaced(after_key, i - e, j - e, new)[0]));
        } else {
            assert(replaced(after_key, i - e, j - e, new)[0] == after_key[0]);
        }
    }
}

/// What is trimmed from the start is white space.
proof fn lemma_before_trimmed(s: Seq<char>)
    ensures
        trimmed_start(s).len() <= s.len(),
        forall|k: int|
            0 <= k < s.len() - trimmed_start(s).len() ==> is_whitespace(#[trigger] s[k]),
    decreases s.len(),
{
    if s.len() > 0 && is_whitespace(s[0]) {
        let u = s.skip(1);
        lemma_before_trimmed(u);
        assert forall|k: int| 0 <= k < s.len() - trimmed_start(s).len() implies is_whitespace(
            #[trigger] s[k],
        ) by {
            if k > 0 {
                assert(u[k - 1] == s[k]);
            }
        }
    }
}

/// Between a key and its value stand white space and an equals sign.
proof fn lemma_assignment(s: Seq<char>, end: int)
    requires
        0 <= end <= s.len(),
        trimmed_start(s.skip(end)).len() > 0,
        trimmed_start(s.skip(end))[0] == '=',
    ensures
        ({
            let after_equals = trimmed_start(trimmed_start(s.skip(end)).skip(1));
            let at = s.len() - after_equals.len();
            &&& end < at <= s.len()
            &&& after_equals == s.skip(at)
            &&& forall|k: int| end <= k < at ==> is_whitespace(#[trigger] s[k]) || s[k] == '='
        }),
{
    let rest = s.skip(end);
    let after_key = trimmed_start(rest);
    lemma_trimmed_start(rest);
    lemma_before_trimmed(rest);
    let e = s.len() - after_key.len();
    assert(after_key =~= s.skip(e));
    let rest2 = after_key.skip(1);
    lemma_trimmed_start(rest2);
    lemma_before_trimmed(rest2);
    let after_equals = trimmed_start(rest2);
    let at = s.len() - after_equals.len();
    assert(after_equals =~= s.skip(at));
    assert forall|k: int| end <= k < at implies is_whitespace(#[trigger] s[k]) || s[k] == '=' by {
        if k < e {
            assert(rest[k - end] == s[k]);
        } else if k > e {
            assert(rest2[k - e - 1] == s[k]);
        } else {
            assert(after_key[0] == s[e]);
        }
    }
}

/// Other keys are found as before where the version stands behind its key.
#[verifier::rlimit(40)]
proof fn lemma_others_replaced(
    s: Seq<char>,
    i: int,
    j: int,
    new: Seq<char>,
    key: Seq<char>,
    bare: bool,
    end: int,
    at: int,
)
    requires
        is_swap(s, i, j, new),
        is_word_key(key),
        reads_back(bare_text(new)),
        0 <= end < at <= i,
        forall|k: int| end <= k < at ==> is_whitespace(#[trigger] s[k]) || s[k] == '=',
        !is_whitespace(s[at]),
        table_value(s.skip(at), bare) matches Some(v) && at + v.start == i + margin(new) && at
            + v.end == j - margin(new) && is_version_like(v.value),
    ensures
        alike(
            inline_value(s, key, bare, end),
            inline_value(replaced(s, i, j, new), key, bare, end),
        ),
{
    lemma_margin(s, i, j, new);
    let o = margin(new);
    let value = s.skip(at);
    lemma_replaced_skip(s, i, j, new, at);
    assert(value[0] == s[at]);
    lemma_value_replaced(value, i - at, j - at, new, bare);
    if quoted_value(value) is Some {
        assert(value[j - o - at] == s[j - o]);
        lemma_token_skipped(s, at, at, s.len() as int);
        lemma_over_quoted(s, i + o, j - o, bare_text(new), key, bare, end);
    } else {
        assert(j < s.len() ==> value[j - at] == s[j]);
        lemma_over_bare(s, i, j, new, key, bare, end);
    }
}

/// A search for a key passes over an unquoted version that is replaced.
proof fn lemma_over_bare(
    s: Seq<char>,
    i: int,
    j: int,
    new: Seq<char>,
    key: Seq<char>,
    bare: bool,
    end: int,
)
    requires
        is_edit(s, i, j, new),
        is_version_like(s.subrange(i, j)),
        is_version_like(new),
        is_word_key(key),
        0 <= end <= i,
        forall|k: int| end <= k < i ==> is_whitespace(#[trigger] s[k]) || s[k] == '=',
        j < s.len() ==> !is_key_char(s[j]),
    ensures
        alike(
            inline_value(s, key, bare, end),
            inline_value(replaced(s, i, j, new), key, bare, end),
        ),
{
    lemma_replaced(s, i, j, new);
    let t = replaced(s, i, j, new);
    let d = shift(i, j, new);
    let old = s.subrange(i, j);
    assert forall|k: int| end <= k < j implies is_version_char(#[trigger] s[k]) || !(s[k] == '"'
        || is_key_char(s[k])) by {
        if k < i {
            assert(is_whitespace(s[k]) || s[k] == '=');
        } else {
            assert(is_version_char(old[k - i]));
        }
    }
    assert forall|k: int| end <= k < j + d implies is_version_char(#[trigger] t[k]) || !(t[k] == '"'
        || is_key_char(t[k])) by {
        if k < i {
            assert(t[k] == s[k]);
            assert(is_whitespace(s[k]) || s[k] == '=');
        } else {
            assert(is_version_char(new[k - i]));
        }
    }
    if j < s.len() {
        assert(t[j + d] == s[j]);
    }
    lemma_inline_over(s, key, bare, end, j);
    lemma_inline_over(t, key, bare, end, j + d);
    lemma_inline_behind(s, i, j, new, key, bare, j);
}

/// The version is found under its key when it is replaced, and other keys are
/// found as before.
#[verifier::rlimit(40)]
proof fn lemma_inline_replaced(
    s: Seq<char>,
    i: int,
    j: int,
    new: Seq<char>,
    key: Seq<char>,
    bare: bool,
    cursor: int,
)
    requires
        is_swap(s, i, j, new),
        is_word_key(key),
        reads_back(bare_text(new)),
        0 <= cursor,
        inline_value(s, "version"@, bare, cursor) matches Some(v) && v.start == i + margin(new)
            && v.end == j - margin(new) && is_version_like(v.value),
    ensures
        key == "version"@ ==> inline_value(replaced(s, i, j, new), key, bare, cursor) == Some(
            ValueView {
                value: bare_text(new),
                start: i + margin(new),
                end: j - margin(new) + shift(i, j, new),
            },
        ),
        key != "version"@ ==> alike(
            inline_value(s, key, bare, cursor),
            inline_value(replaced(s, i, j, new), key, bare, cursor),
        ),
    decreases s.len() - cursor,
{
    lemma_words();
    lemma_margin(s, i, j, new);
    let t = replaced(s, i, j, new);
    let o = margin(new);
    let n = s.len() as int;
    let token = key_token(s, cursor)->0;
    lemma_key_token(s, cursor);
    let end = token.outer_end;
    let after_key = trimmed_start(s.skip(end));
    let after_equals = trimmed_start(after_key.skip(1));
    let at = n - after_equals.len();
    let is_assignment = after_key.len() > 0 && after_key[0] == '=';
    if is_assignment && token.value == "version"@ {
        lemma_assignment(s, end);
        lemma_table_value(after_equals, bare);
        lemma_quoted_value(after_equals);
        assert(at <= i) by {
            if at > i {
                assert(s[i] == '"');
                assert(is_whitespace(s[at - 1]) || s[at - 1] == '=');
            }
        }
        lemma_after_equals(s, i, j, new, end);
        lemma_key_before(s, i, j, new, cursor);
        lemma_value_replaced(after_equals, i - at, j - at, new, bare);
        if key != "version"@ {
            // The search goes on behind the key, and over the version.
            assert(after_equals[0] == s[at]);
            lemma_others_replaced(s, i, j, new, key, bare, end, at);
        }
    } else {
        lemma_inline_ahead(s, "version"@, bare, end);
        lemma_after_equals(s, i, j, new, end);
        lemma_key_before(s, i, j, new, cursor);
        if is_assignment && token.value == key {
            // The value of this key stands before the version.
            lemma_assignment(s, end);
            if after_equals[0] == '"' {
                lemma_next_key(s, end, at);
                let next = key_token(s, end)->0;
                lemma_key_token(s, end);
                lemma_next_ahead(s, end, bare);
                lemma_token_skipped(s, at, at, n);
            }
            lemma_value_alike(after_equals, i - at, j - at, new, bare);
        } else {
            lemma_inline_replaced(s, i, j, new, key, bare, end);
        }
    }
}

/// A version stands behind the next key, and behind an equals sign.
proof fn lemma_next_ahead(s: Seq<char>, end: int, bare: bool)
    requires
        0 <= end,
        inline_value(s, "version"@, bare, end) is Some,
    ensures
        key_token(s, end) is Some,
        key_token(s, end)->0.outer_end + 1 <= inline_value(s, "version"@, bare, end)->0.start,
{
    let next = key_token(s, end)->0;
    lemma_key_token(s, end);
    let after = trimmed_start(s.skip(next.outer_end));
    lemma_trimmed_start(s.skip(next.outer_end));
    if after.len() > 0 && after[0] == '=' && next.value == "version"@ {
        let value = trimmed_start(after.skip(1));
        lemma_trimmed_start(after.skip(1));
        lemma_table_value(value, bare);
    } else {
        lemma_inline_ahead(s, "version"@, bare, next.outer_end);
    }
}

/// The next key begins at the quotation mark behind an equals sign.
proof fn lemma_next_key(s: Seq<char>, end: int, at: int)
    requires
        0 <= end <= at < s.len(),
        s[at] == '"',
        forall|k: int| end <= k < at ==> is_whitespace(#[trigger] s[k]) || s[k] == '=',
    ensures
        key_token(s, end) == json_token(s, at, s.len() as int),
{
    let n = s.len() as int;
    let p = starts_key(s);
    lemma_first_index(p, end, n);
    assert(p(at));
    assert forall|k: int| end <= k < at implies !#[trigger] p(k) by {
        assert(is_whitespace(s[k]) || s[k] == '=');
    }
    if let Some(k) = first_index(p, end, n) {
        assert(p(k));
        if k > at {
            assert(!p(at));
        }
    } else {
        assert(!p(at));
    }
}

/// A search for a key passes over a quoted version.
proof fn lemma_over_quoted(
    s: Seq<char>,
    i: int,
    j: int,
    new: Seq<char>,
    key: Seq<char>,
    bare: bool,
    end: int,
)
    requires
        is_edit(s, i, j, new),
        is_version_like(new),
        is_word_key(key),
        reads_back(new),
        0 <= end <= i - 1,
        j < s.len(),
        s[i - 1] == '"',
        s[j] == '"',
        forall|k: int| end <= k < i - 1 ==> is_whitespace(#[trigger] s[k]) || s[k] == '=',
        json_token(s, i - 1, s.len() as int) matches Some(token) && token.inner_end == j
            && is_version_like(token.value),
    ensures
        alike(
            inline_value(s, key, bare, end),
            inline_value(replaced(s, i, j, new), key, bare, end),
        ),
{
    lemma_replaced(s, i, j, new);
    let t = replaced(s, i, j, new);
    let d = shift(i, j, new);
    lemma_next_key(s, end, i - 1);
    assert forall|k: int| end <= k < i - 1 implies is_whitespace(#[trigger] t[k]) || t[k]
        == '=' by {
        assert(t[k] == s[k]);
    }
    assert(t[i - 1] == s[i - 1]);
    lemma_next_key(t, end, i - 1);
    lemma_token_at(s, i, j, new, i - 1, t.len() as int);
    lemma_json_token(s, i - 1, s.len() as int);
    let token = json_token(s, i - 1, s.len() as int)->0;
    assert(is_version_char(token.value[0]));
    assert(is_version_char(new[0]));
    lemma_inline_behind(s, i, j, new, key, bare, j + 1);
}

// ---------------------------------------------------------------------------
// Lines
// ---------------------------------------------------------------------------

/// A text without versions is not brought in by a version.
proof fn lemma_contains_replaced(s: Seq<char>, i: int, j: int, new: Seq<char>, needle: Seq<char>)
    requires
        is_swap(s, i, j, new),
        needle.len() > 0,
        forall|k: int| 0 <= k < needle.len() ==> !is_atom_char(#[trigger] needle[k]),
        contains_text(replaced(s, i, j, new), needle),
    ensures
        contains_text(s, needle),
{
    lemma_swap(s, i, j, new);
    lemma_replaced(s, i, j, new);
    let t = replaced(s, i, j, new);
    let d = shift(i, j, new);
    let n = needle.len() as int;
    let at = choose|at: int| 0 <= at <= t.len() && needle.is_prefix_of(#[trigger] t.skip(at));
    assert forall|k: int| 0 <= k < n implies #[trigger] needle[k] == t[at + k] by {
        assert(t.skip(at).subrange(0, n)[k] == t[at + k]);
    }
    if at < j + d && i < at + n {
        let k = if at < i {
            i
        } else {
            at
        };
        assert(is_atom_char(t[k]));
        assert(needle[k - at] == t[at + (k - at)]);
    } else {
        let from = if at + n <= i {
            at
        } else {
            at - d
        };
        assert forall|k: int| 0 <= k < n implies #[trigger] needle[k] == s[from + k] by {
            assert(needle[k] == t[at + k]);
            if at + n > i {
                assert(s[from + k] == t[from + k + d]);
            }
        }
        assert(s.skip(from).subrange(0, n) =~= needle);
        assert(needle.is_prefix_of(s.skip(from)));
    }
}

/// The two ways to write a reference to the workspace hold no version.
proof fn lemma_workspace_texts()
    ensures
        "workspace = true"@.len() > 0,
        "workspace=true"@.len() > 0,
        forall|k: int|
            0 <= k < "workspace = true"@.len() ==> !is_atom_char(
                #[trigger] "workspace = true"@[k],
            ),
        forall|k: int|
            0 <= k < "workspace=true"@.len() ==> !is_atom_char(#[trigger] "workspace=true"@[k]),
{
    reveal_strlit("workspace = true");
    reveal_strlit("workspace=true");
}

/// The version that `name = value` declares is replaced.
proof fn lemma_cargo_value_replaced(
    name: Seq<char>,
    value: Seq<char>,
    i: int,
    j: int,
    new: Seq<char>,
    at: int,
    workspace: bool,
)
    requires
        is_swap(value, i, j, new),
        !is_whitespace(value[0]),
        reads_back(bare_text(new)),
        cargo_value(name, value, at, workspace) matches Some(e) && e.start == at + i + margin(new)
            && e.end == at + j - margin(new) && (e.version matches Some(v) && is_version_like(v)),
    ensures
        cargo_value(name, replaced(value, i, j, new), at, workspace) == Some(
            LineEntryView {
                name,
                version: Some(bare_text(new)),
                start: at + i + margin(new),
                end: at + j - margin(new) + shift(i, j, new),
            },
        ),
{
    lemma_swap(value, i, j, new);
    lemma_replaced(value, i, j, new);
    lemma_words();
    lemma_workspace_texts();
    let t = replaced(value, i, j, new);
    lemma_quoted_value(value);
    lemma_quoted_value(t);
    if quoted_value(value) is Some {
        lemma_value_replaced(value, i, j, new, false);
    } else {
        assert(value[0] == '{');
        assert(i > 0) by {
            if i == 0 {
                assert(is_atom_char(value[0]));
            }
        }
        assert(t[0] == '{');
        lemma_inline_replaced(value, i, j, new, "version"@, workspace, 0);
        lemma_inline_replaced(value, i, j, new, "path"@, workspace, 0);
        lemma_inline_replaced(value, i, j, new, "git"@, workspace, 0);
        lemma_inline_replaced(value, i, j, new, "registry"@, workspace, 0);
        if workspace {
            lemma_inline_replaced(value, i, j, new, "workspace"@, true, 0);
        } else {
            if contains_text(t, "workspace = true"@) {
                lemma_contains_replaced(value, i, j, new, "workspace = true"@);
            }
            if contains_text(t, "workspace=true"@) {
                lemma_contains_replaced(value, i, j, new, "workspace=true"@);
            }
        }
    }
}

/// What follows the equals sign of a line, with a version in it replaced.
#[verifier::rlimit(40)]
proof fn lemma_assigned_value(line: Seq<char>, i: int, j: int, new: Seq<char>)
    requires
        is_swap(line, i, j, new),
        unquoted_index(line, '=') matches Some(k) && line.len() - trimmed_start(
            line.skip(k + 1),
        ).len() <= i + margin(new),
    ensures
        ({
            let t = replaced(line, i, j, new);
            let equals = unquoted_index(line, '=')->0;
            let value = trimmed_start(line.skip(equals + 1));
            let at = line.len() - value.len();
            let value2 = trimmed_start(t.skip(equals + 1));
            &&& 0 <= equals < at <= i
            &&& line[equals] == '='
            &&& unquoted_index(t, '=') == Some(equals)
            &&& t.take(equals) == line.take(equals)
            &&& is_swap(value, i - at, j - at, new)
            &&& !is_whitespace(value[0])
            &&& value2 == replaced(value, i - at, j - at, new)
            &&& t.len() - value2.len() == at
            &&& trimmed(value2) != "true"@
        }),
{
    lemma_swap(line, i, j, new);
    lemma_replaced(line, i, j, new);
    let t = replaced(line, i, j, new);
    let equals = unquoted_index(line, '=')->0;
    lemma_first_index(is_unquoted(line, '='), 0, line.len() as int);
    assert(is_unquoted(line, '=')(equals));
    let rest = line.skip(equals + 1);
    let value = trimmed_start(rest);
    let at = line.len() - value.len();
    lemma_trimmed_start(rest);
    lemma_before_trimmed(rest);
    lemma_first_kept(rest);
    assert(at <= i) by {
        if at > i {
            lemma_margin(line, i, j, new);
            assert(line[i] == '"');
            if equals < i {
                assert(rest[i - equals - 1] == line[i]);
            }
        }
    }
    lemma_unquoted_moved(line, i, j, new, '=');
    lemma_replaced_skip(line, i, j, new, equals + 1);
    lemma_trimmed_start_moved(rest, i - equals - 1, j - equals - 1, new);
    assert(t.take(equals) =~= line.take(equals));
    lemma_value_not_true(value, i - at, j - at, new);
}

/// A value with a version in it does not say `true`.
proof fn lemma_value_not_true(value: Seq<char>, i: int, j: int, new: Seq<char>)
    requires
        is_swap(value, i, j, new),
        !is_whitespace(value[0]),
    ensures
        trimmed(replaced(value, i, j, new)) != "true"@,
{
    let t = replaced(value, i, j, new);
    lemma_swap(value, i, j, new);
    lemma_replaced(value, i, j, new);
    lemma_trimmed_start_moved(value, i, j, new);
    assert(trimmed_start(value) == value);
    lemma_trimmed_end_moved(value, i, j, new);
    lemma_swap(trimmed_end(value), i, j, new);
    lemma_replaced(trimmed_end(value), i, j, new);
    lemma_not_true(trimmed(t), i);
}

/// The version that a line declares is replaced.
proof fn lemma_cargo_line_replaced(
    raw: Seq<char>,
    i: int,
    j: int,
    new: Seq<char>,
    workspace: bool,
)
    requires
        is_swap(raw, i, j, new),
        j <= without_comment(raw).len(),
        reads_back(bare_text(new)),
        cargo_line(raw, workspace) matches Some(e) && e.start == i + margin(new) && e.end == j
            - margin(new) && (e.version matches Some(v) && is_version_like(v)),
    ensures
        cargo_line(replaced(raw, i, j, new), workspace) == Some(
            LineEntryView {
                name: cargo_line(raw, workspace)->0.name,
                version: Some(bare_text(new)),
                start: i + margin(new),
                end: j - margin(new) + shift(i, j, new),
            },
        ),
        exists|k: int| 0 <= k < i && #[trigger] raw[k] == '=',
{
    let line = without_comment(raw);
    lemma_without_comment_moved(raw, i, j, new);
    lemma_comment_prefix(raw);
    let equals = unquoted_index(line, '=')->0;
    let value = trimmed_start(line.skip(equals + 1));
    let at = line.len() - value.len();
    let key = trimmed(line.take(equals));
    let name = normalized_key(key)->0;
    lemma_cargo_value_bounds(name, value, at, workspace);
    lemma_assigned_value(line, i, j, new);
    assert(raw[equals] == '=');
    lemma_cargo_value_replaced(name, value, i - at, j - at, new, at, workspace);
}

// ---------------------------------------------------------------------------
// Where versions stand
// ---------------------------------------------------------------------------

/// A string stands at `i..j`, or, where `o` is zero, a version.
spec fn has_shape(s: Seq<char>, i: int, j: int, o: int) -> bool {
    &&& 0 <= i < j <= s.len()
    &&& o == 0 || o == 1
    &&& o == 1 ==> is_quoted_text(s.subrange(i, j))
    &&& o == 0 ==> is_version_like(s.subrange(i, j))
}

/// What stands in a part of a text stands in the text.
proof fn lemma_shape_skipped(s: Seq<char>, k: int, i: int, j: int, o: int)
    requires
        0 <= k <= s.len(),
        has_shape(s.skip(k), i, j, o),
    ensures
        has_shape(s, i + k, j + k, o),
{
    assert(s.skip(k).subrange(i, j) =~= s.subrange(i + k, j + k));
}

/// A string or an unquoted version is the value that a text begins with.
proof fn lemma_value_shape(s: Seq<char>, bare: bool) -> (o: int)
    requires
        s.len() > 0,
        !is_whitespace(s[0]),
        table_value(s, bare) matches Some(v) && is_version_like(v.value),
    ensures
        ({
            let v = table_value(s, bare)->0;
            has_shape(s, v.start - o, v.end + o, o)
        }),
{
    let n = s.len() as int;
    let v = table_value(s, bare)->0;
    if quoted_value(s) is Some {
        lemma_json_token(s, 0, n);
        let p = closes_string(s, 1);
        lemma_first_index(p, 1, n);
        let x = s.subrange(0, v.end + 1);
        assert forall|k: int| 0 < k < x.len() - 1 && #[trigger] x[k] == '"' implies escaped_at(
            x,
            1,
            k,
        ) by {
            assert(!p(k));
            lemma_escaped_same(s, x, 1, k);
        }
        assert(p(v.end));
        lemma_escaped_same(s, x, 1, v.end);
        1
    } else {
        let end = match first_index(ends_bare_value(s), 0, n) {
            Some(k) => k,
            None => n,
        };
        lemma_first_index(ends_bare_value(s), 0, n);
        lemma_trimmed_end(s.subrange(0, end));
        assert(s.subrange(0, v.end) =~= v.value);
        0
    }
}

/// A string or an unquoted version is the value of a key.
proof fn lemma_inline_shape(s: Seq<char>, key: Seq<char>, bare: bool, cursor: int) -> (o: int)
    requires
        0 <= cursor,
        inline_value(s, key, bare, cursor) matches Some(v) && is_version_like(v.value),
    ensures
        ({
            let v = inline_value(s, key, bare, cursor)->0;
            has_shape(s, v.start - o, v.end + o, o)
        }),
    decreases s.len() - cursor,
{
    let token = key_token(s, cursor)->0;
    lemma_key_token(s, cursor);
    let end = token.outer_end;
    let after_key = trimmed_start(s.skip(end));
    if after_key.len() > 0 && after_key[0] == '=' && token.value == key {
        lemma_assignment(s, end);
        let after_equals = trimmed_start(after_key.skip(1));
        let at = s.len() - after_equals.len();
        lemma_first_kept(after_key.skip(1));
        lemma_some_value(after_equals, bare);
        let v = table_value(after_equals, bare)->0;
        let o = lemma_value_shape(after_equals, bare);
        lemma_shape_skipped(s, at, v.start - o, v.end + o, o);
        o
    } else {
        lemma_inline_shape(s, key, bare, end)
    }
}

/// What begins behind white space begins with something else.
proof fn lemma_first_kept(s: Seq<char>)
    ensures
        trimmed_start(s).len() > 0 ==> !is_whitespace(trimmed_start(s)[0]),
    decreases s.len(),
{
    if s.len() > 0 && is_whitespace(s[0]) {
        lemma_first_kept(s.skip(1));
    }
}

/// There is no value in nothing.
proof fn lemma_some_value(s: Seq<char>, bare: bool)
    ensures
        table_value(s, bare) is Some ==> s.len() > 0,
{
    lemma_json_token(s, 0, s.len() as int);
    lemma_trimmed_start(s);
    if s.len() == 0 {
        lemma_first_index(ends_bare_value(s), 0, 0);
        lemma_trimmed_end(s.subrange(0, 0));
    }
}

/// A string or an unquoted version is what a line declares.
proof fn lemma_line_shape(raw: Seq<char>, workspace: bool) -> (o: int)
    requires
        cargo_line(raw, workspace) matches Some(e) && (e.version matches Some(v)
            && is_version_like(v)),
    ensures
        ({
            let e = cargo_line(raw, workspace)->0;
            has_shape(without_comment(raw), e.start - o, e.end + o, o)
        }),
{
    let line = without_comment(raw);
    lemma_first_index(is_unquoted(line, '='), 0, line.len() as int);
    let equals = unquoted_index(line, '=')->0;
    let rest = line.skip(equals + 1);
    let value = trimmed_start(rest);
    let at = line.len() - value.len();
    lemma_trimmed_start(rest);
    lemma_first_kept(rest);
    assert(value =~= line.skip(at));
    let e = cargo_line(raw, workspace)->0;
    lemma_some_value(value, false);
    if quoted_value(value) is Some {
        let o = lemma_value_shape(value, false);
        lemma_shape_skipped(line, at, e.start - at - o, e.end - at + o, o);
        o
    } else {
        let o = lemma_inline_shape(value, "version"@, workspace, 0);
        lemma_shape_skipped(line, at, e.start - at - o, e.end - at + o, o);
        o
    }
}

/// A version, with quotation marks around it if a string is replaced.
spec fn framed(new: Seq<char>, o: int) -> Seq<char> {
    if o == 1 {
        in_quotation_marks(new)
    } else {
        new
    }
}

/// A version in place of what a line declares.
proof fn lemma_framed(s: Seq<char>, i: int, j: int, o: int, new: Seq<char>)
    requires
        has_shape(s, i, j, o),
        is_version_like(new),
    ensures
        is_swap(s, i, j, framed(new, o)),
        margin(framed(new, o)) == o,
        bare_text(framed(new, o)) == new,
        replaced(s, i, j, framed(new, o)) == replaced(s, i + o, j - o, new),
        shift(i, j, framed(new, o)) == shift(i + o, j - o, new),
{
    let x = framed(new, o);
    assert(is_version_char(new[0]));
    if o == 1 {
        assert forall|k: int| 0 < k < x.len() - 1 implies is_version_char(#[trigger] x[k]) by {
            assert(x[k] == new[k - 1]);
        }
    }
    assert(bare_text(x) =~= new);
    lemma_margin(s, i, j, x);
}

/// A line without its comment begins like the line.
proof fn lemma_comment_prefix(raw: Seq<char>)
    ensures
        without_comment(raw).len() <= raw.len(),
        forall|k: int|
            0 <= k < without_comment(raw).len() ==> #[trigger] without_comment(raw)[k] == raw[k],
{
    lemma_first_index(is_unquoted(raw, '#'), 0, raw.len() as int);
}

/// What a value declares stands in it.
proof fn lemma_cargo_value_bounds(name: Seq<char>, value: Seq<char>, at: int, workspace: bool)
    ensures
        cargo_value(name, value, at, workspace) matches Some(e) ==> at <= e.start <= e.end <= at
            + value.len(),
{
    lemma_json_token(value, 0, value.len() as int);
    lemma_inline_bounds(value, "workspace"@, true, 0);
    lemma_inline_bounds(value, "version"@, workspace, 0);
}

/// What an inline table holds stands in it.
proof fn lemma_inline_bounds(s: Seq<char>, key: Seq<char>, bare: bool, cursor: int)
    requires
        0 <= cursor,
    ensures
        inline_value(s, key, bare, cursor) matches Some(v) ==> 0 <= v.start <= v.end <= s.len(),
    decreases s.len() - cursor,
{
    if cursor < s.len() {
        lemma_key_token(s, cursor);
        if let Some(token) = key_token(s, cursor) {
            let after_key = trimmed_start(s.skip(token.outer_end));
            lemma_trimmed_start(s.skip(token.outer_end));
            if after_key.len() > 0 && after_key[0] == '=' && token.value == key {
                let after_equals = trimmed_start(after_key.skip(1));
                lemma_trimmed_start(after_key.skip(1));
                lemma_json_token(after_equals, 0, after_equals.len() as int);
                lemma_trimmed_start(after_equals);
                let start = after_equals.len() - trimmed_start(after_equals).len();
                let n = after_equals.len() as int;
                lemma_first_index(ends_bare_value(after_equals), start, n);
                let end = match first_index(ends_bare_value(after_equals), start, n) {
                    Some(k) => k,
                    None => n,
                };
                lemma_trimmed_end(after_equals.subrange(start, end));
            } else {
                lemma_inline_bounds(s, key, bare, token.outer_end);
            }
        }
    }
}

/// What a line declares stands before its comment.
proof fn lemma_cargo_line_bounds(raw: Seq<char>, workspace: bool)
    ensures
        cargo_line(raw, workspace) matches Some(e) ==> 0 <= e.start <= e.end <= without_comment(
            raw,
        ).len(),
{
    reveal_strlit("true");
    let line = without_comment(raw);
    lemma_first_index(is_unquoted(line, '='), 0, line.len() as int);
    if let Some(equals) = unquoted_index(line, '=') {
        let key = trimmed(line.take(equals));
        let value = trimmed_start(line.skip(equals + 1));
        lemma_trimmed_start(line.skip(equals + 1));
        lemma_trimmed_start(value);
        lemma_trimmed_end(trimmed_start(value));
        if let Some(name) = normalized_key(key) {
            lemma_cargo_value_bounds(name, value, line.len() - value.len(), workspace);
        }
    }
}

// ---------------------------------------------------------------------------
// Manifests
// ---------------------------------------------------------------------------

/// A line without its line break begins like the line.
pub(crate) proof fn lemma_line_prefix(line: Seq<char>)
    ensures
        without_line_break(line).len() <= line.len(),
        without_line_break(line) == line.take(without_line_break(line).len() as int),
    decreases line.len(),
{
    if line.len() > 0 && (line.last() == '\r' || line.last() == '\n') {
        lemma_line_prefix(line.drop_last());
        assert(line.drop_last().take(without_line_break(line).len() as int) =~= line.take(
            without_line_break(line).len() as int,
        ));
    } else {
        assert(line.take(line.len() as int) =~= line);
    }
}

/// What a line declares stands in it.
pub(crate) proof fn lemma_line_entry_bounds(s: Seq<char>, from: int, workspace: bool)
    requires
        0 <= from < s.len(),
    ensures
        cargo_line(line_at(s, from), workspace) matches Some(e) ==> 0 <= e.start <= e.end
            <= line_at(s, from).len(),
        from + line_at(s, from).len() <= line_end(s, from) <= s.len(),
{
    lemma_line_end(s, from);
    lemma_line_prefix(s.subrange(from, line_end(s, from)));
    lemma_cargo_line_bounds(line_at(s, from), workspace);
    lemma_comment_prefix(line_at(s, from));
}

/// Entries stand where their lines do.
proof fn lemma_entry_bounds(
    s: Seq<char>,
    from: int,
    section: Option<Seq<char>>,
    workspace: bool,
)
    requires
        0 <= from <= s.len(),
    ensures
        forall|k: int|
            0 <= k < cargo_entries(s, from, section, workspace).len() ==> byte_offset(s, from) <= (
            #[trigger] cargo_entries(s, from, section, workspace)[k]).start,
    decreases s.len() - from,
{
    if from < s.len() {
        lemma_line_end(s, from);
        let next = line_end(s, from);
        let header = trimmed(line_at(s, from));
        lemma_byte_offset_monotonic(s, from, next);
        if header.len() > 0 && header[0] == '[' {
            lemma_entry_bounds(s, next, cargo_section(header, workspace), workspace);
        } else {
            lemma_entry_bounds(s, next, section, workspace);
            lemma_line_entry_bounds(s, from, workspace);
            let here = line_entries(s, from, section, workspace);
            let rest = cargo_entries(s, next, section, workspace);
            if let Some(e) = cargo_line(line_at(s, from), workspace) {
                lemma_byte_offset_monotonic(s, from, from + e.start);
            }
            assert forall|k: int| 0 <= k < (here + rest).len() implies byte_offset(s, from) <= (
            #[trigger] (here + rest)[k]).start by {
                if k >= here.len() {
                    assert((here + rest)[k] == rest[k - here.len()]);
                }
            }
        }
    }
}

/// Lines behind the replaced stretch are found as before.
pub(crate) proof fn lemma_line_behind(s: Seq<char>, i: int, j: int, new: Seq<char>, from: int)
    requires
        is_edit(s, i, j, new),
        j <= from < s.len(),
    ensures
        line_end(replaced(s, i, j, new), from + shift(i, j, new)) == line_end(s, from) + shift(
            i,
            j,
            new,
        ),
        line_at(replaced(s, i, j, new), from + shift(i, j, new)) == line_at(s, from),
{
    lemma_replaced(s, i, j, new);
    let t = replaced(s, i, j, new);
    let d = shift(i, j, new);
    let p = is_char(t, '\n');
    let q = is_char(s, '\n');
    assert forall|k: int| from + d <= k < t.len() implies #[trigger] p(k) == q(k - d) by {
        assert(s[k - d] == t[k - d + d]);
    }
    lemma_first_skipped(p, q, d, from + d, t.len() as int);
    lemma_line_end(s, from);
    let next = line_end(s, from);
    assert(t.subrange(from + d, next + d) =~= s.subrange(from, next)) by {
        assert forall|k: int| 0 <= k < next - from implies t.subrange(from + d, next + d)[k]
            == s.subrange(from, next)[k] by {
            assert(s[from + k] == t[from + k + d]);
        }
    }
}

/// Entries behind the replaced stretch are moved.
#[verifier::rlimit(40)]
proof fn lemma_cargo_behind(
    s: Seq<char>,
    i: int,
    j: int,
    new: Seq<char>,
    from: int,
    section: Option<Seq<char>>,
    workspace: bool,
)
    requires
        is_edit(s, i, j, new),
        i < j <= from <= s.len(),
    ensures
        cargo_entries(replaced(s, i, j, new), from + shift(i, j, new), section, workspace)
            == updated_entries(
            cargo_entries(s, from, section, workspace),
            byte_offset(s, i) as int,
            byte_shift(s, i, j, new),
            new,
        ),
    decreases s.len() - from,
{
    lemma_replaced(s, i, j, new);
    let t = replaced(s, i, j, new);
    let d = shift(i, j, new);
    let start = byte_offset(s, i) as int;
    let bytes = byte_shift(s, i, j, new);
    if from < s.len() {
        lemma_line_behind(s, i, j, new, from);
        lemma_line_end(s, from);
        let next = line_end(s, from);
        let header = trimmed(line_at(s, from));
        if header.len() > 0 && header[0] == '[' {
            lemma_cargo_behind(s, i, j, new, next, cargo_section(header, workspace), workspace);
        } else {
            lemma_cargo_behind(s, i, j, new, next, section, workspace);
            lemma_line_entry_bounds(s, from, workspace);
            let here = line_entries(s, from, section, workspace);
            let rest = cargo_entries(s, next, section, workspace);
            lemma_updated_concat(here, rest, start, bytes, new);
            if let Some(e) = cargo_line(line_at(s, from), workspace) {
                lemma_bytes_moved(s, i, j, new, from + e.start);
                lemma_bytes_moved(s, i, j, new, from + e.end);
                lemma_byte_offset_monotonic(s, i, from + e.start);
            }
            assert(line_entries(t, from + d, section, workspace) =~= updated_entries(
                here,
                start,
                bytes,
                new,
            ));
        }
    } else {
        assert(updated_entries(Seq::<EntryView>::empty(), start, bytes, new) =~= Seq::<
            EntryView,
        >::empty());
    }
}

/// The line that holds the version is found with the new one.
proof fn lemma_line_replaced(s: Seq<char>, i: int, j: int, new: Seq<char>, from: int)
    requires
        is_swap(s, i, j, new),
        0 <= from <= i,
        j <= from + line_at(s, from).len(),
    ensures
        is_swap(line_at(s, from), i - from, j - from, new),
        line_end(replaced(s, i, j, new), from) == line_end(s, from) + shift(i, j, new),
        line_at(replaced(s, i, j, new), from) == replaced(
            line_at(s, from),
            i - from,
            j - from,
            new,
        ),
{
    lemma_swap(s, i, j, new);
    lemma_replaced(s, i, j, new);
    lemma_line_end(s, from);
    let next = line_end(s, from);
    let line = s.subrange(from, next);
    lemma_line_prefix(line);
    lemma_index_of(s, '\n', from, s.len() as int);
    assert forall|k: int| i <= k < j implies #[trigger] s[k] != '\n' by {
        if s[k] == '\n' {
            assert(line.last() == '\n');
            lemma_line_prefix(line.drop_last());
        }
    }
    assert forall|k: int| 0 <= k < new.len() implies #[trigger] new[k] != '\n' by {
        assert(is_atom_char(new[k]));
    }
    lemma_index_moved(s, i, j, new, '\n', from, s.len() as int);
    lemma_replaced_subrange(s, i, j, new, from, next);
    lemma_line_break_moved(line, i - from, j - from, new);
}

/// Lines that end before the replaced stretch are found as before.
pub(crate) proof fn lemma_line_before(s: Seq<char>, i: int, j: int, new: Seq<char>, from: int)
    requires
        is_edit(s, i, j, new),
        0 <= from,
        line_end(s, from) <= i < s.len(),
        from < s.len(),
    ensures
        line_end(replaced(s, i, j, new), from) == line_end(s, from),
        line_at(replaced(s, i, j, new), from) == line_at(s, from),
{
    lemma_replaced(s, i, j, new);
    let t = replaced(s, i, j, new);
    let next = line_end(s, from);
    lemma_line_end(s, from);
    lemma_index_of(s, '\n', from, s.len() as int);
    lemma_first_same(
        is_char(s, '\n'),
        is_char(t, '\n'),
        from,
        s.len() as int,
        t.len() as int,
        next - 1,
    );
    assert(t.subrange(from, next) =~= s.subrange(from, next));
}

/// What a line before the replaced stretch declares stays.
proof fn lemma_entries_before(
    s: Seq<char>,
    i: int,
    j: int,
    new: Seq<char>,
    from: int,
    section: Option<Seq<char>>,
    workspace: bool,
)
    requires
        is_edit(s, i, j, new),
        0 <= from < s.len(),
        line_end(s, from) <= i < s.len(),
    ensures
        line_entries(replaced(s, i, j, new), from, section, workspace) == line_entries(
            s,
            from,
            section,
            workspace,
        ),
        updated_entries(
            line_entries(s, from, section, workspace),
            byte_offset(s, i) as int,
            byte_shift(s, i, j, new),
            new,
        ) == line_entries(s, from, section, workspace),
        forall|m: int|
            0 <= m < line_entries(s, from, section, workspace).len() ==> (#[trigger] line_entries(
                s,
                from,
                section,
                workspace,
            )[m]).start < byte_offset(s, i),
{
    let line = s.subrange(from, line_end(s, from));
    lemma_line_before(s, i, j, new, from);
    lemma_line_entry_bounds(s, from, workspace);
    lemma_index_of(s, '\n', from, s.len() as int);
    lemma_line_prefix(line.drop_last());
    assert(line.last() == '\n');
    if let Some(e) = cargo_line(line_at(s, from), workspace) {
        lemma_bytes_moved(s, i, j, new, from + e.start);
        lemma_bytes_moved(s, i, j, new, from + e.end);
        lemma_byte_offset_monotonic(s, from + e.start, i);
    }
    lemma_updated_before(
        line_entries(s, from, section, workspace),
        byte_offset(s, i) as int,
        byte_shift(s, i, j, new),
        new,
    );
}

/// The line that declares a version is read with the new one.
#[verifier::rlimit(40)]
proof fn lemma_declaring_line(
    s: Seq<char>,
    from: int,
    new: Seq<char>,
    workspace: bool,
)
    requires
        0 <= from < s.len(),
        is_version_like(new),
        reads_back(new),
        cargo_line(line_at(s, from), workspace) matches Some(e) && (e.version matches Some(v)
            && is_version_like(v)),
        !is_header(trimmed(line_at(s, from))),
    ensures
        ({
            let e = cargo_line(line_at(s, from), workspace)->0;
            let i = from + e.start;
            let j = from + e.end;
            let t = replaced(s, i, j, new);
            &&& 0 <= e.start <= e.end <= line_at(s, from).len()
            &&& j <= line_end(s, from) <= s.len()
            &&& line_end(t, from) == line_end(s, from) + shift(i, j, new)
            &&& cargo_line(line_at(t, from), workspace) == Some(
                LineEntryView {
                    name: e.name,
                    version: Some(new),
                    start: e.start,
                    end: e.end + shift(i, j, new),
                },
            )
            &&& !is_header(trimmed(line_at(t, from)))
        }),
{
    let line = line_at(s, from);
    lemma_line_entry_bounds(s, from, workspace);
    let e = cargo_line(line, workspace)->0;
    let o = lemma_line_shape(line, workspace);
    lemma_comment_prefix(line);
    lemma_line_prefix(s.subrange(from, line_end(s, from)));
    let a = e.start - o;
    let b = e.end + o;
    let x = framed(new, o);
    assert(without_comment(line).subrange(a, b) =~= line.subrange(a, b));
    assert(line.subrange(a, b) =~= s.subrange(from + a, from + b));
    lemma_framed(line, a, b, o, new);
    lemma_framed(s, from + a, from + b, o, new);
    lemma_line_replaced(s, from + a, from + b, x, from);
    lemma_cargo_line_replaced(line, a, b, x, workspace);
    lemma_same_header(line, a, b, x);
}

/// What the line with the replaced stretch declares has the new version.
proof fn lemma_entries_here(
    s: Seq<char>,
    i: int,
    j: int,
    new: Seq<char>,
    from: int,
    section: Option<Seq<char>>,
    workspace: bool,
)
    requires
        is_edit(s, i, j, new),
        is_version_like(new),
        reads_back(new),
        0 <= from <= i,
        from < s.len(),
        line_entries(s, from, section, workspace).len() > 0,
        stands_at(line_entries(s, from, section, workspace)[0], s, i, j),
        !is_header(trimmed(line_at(s, from))),
    ensures
        line_entries(replaced(s, i, j, new), from, section, workspace) == updated_entries(
            line_entries(s, from, section, workspace),
            byte_offset(s, i) as int,
            byte_shift(s, i, j, new),
            new,
        ),
        line_end(replaced(s, i, j, new), from) == line_end(s, from) + shift(i, j, new),
        j <= line_end(s, from),
        !is_header(trimmed(line_at(replaced(s, i, j, new), from))),
{
    let e = cargo_line(line_at(s, from), workspace)->0;
    lemma_declaring_line(s, from, new, workspace);
    lemma_byte_offset_injective(s, from + e.start, i);
    lemma_byte_offset_injective(s, from + e.end, j);
    lemma_bytes_moved(s, i, j, new, j);
}

/// A line that opens or closes a section.
spec fn is_header(line: Seq<char>) -> bool {
    line.len() > 0 && line[0] == '['
}

/// Where one version of a Cargo manifest is replaced, its entry has the new
/// version, and the other entries, which stand elsewhere, are as before.
pub proof fn lemma_cargo_replaced(
    s: Seq<char>,
    i: int,
    j: int,
    new: Seq<char>,
    from: int,
    section: Option<Seq<char>>,
    workspace: bool,
    k: int,
)
    requires
        is_edit(s, i, j, new),
        i < j,
        is_version_like(new),
        reads_back(new),
        0 <= from <= i,
        0 <= k < cargo_entries(s, from, section, workspace).len(),
        stands_at(cargo_entries(s, from, section, workspace)[k], s, i, j),
    ensures
        cargo_entries(replaced(s, i, j, new), from, section, workspace) == updated_entries(
            cargo_entries(s, from, section, workspace),
            byte_offset(s, i) as int,
            byte_shift(s, i, j, new),
            new,
        ),
        stands_alone(cargo_entries(s, from, section, workspace), k, byte_offset(s, i) as int),
    decreases s.len() - from,
{
    lemma_replaced(s, i, j, new);
    let d = byte_shift(s, i, j, new);
    let start = byte_offset(s, i) as int;
    lemma_line_end(s, from);
    let next = line_end(s, from);
    let header = trimmed(line_at(s, from));
    let opened = if is_header(header) {
        cargo_section(header, workspace)
    } else {
        section
    };
    let here = if is_header(header) {
        Seq::empty()
    } else {
        line_entries(s, from, section, workspace)
    };
    let rest = cargo_entries(s, next, opened, workspace);
    assert(cargo_entries(s, from, section, workspace) =~= here + rest);
    if k < here.len() {
        assert((here + rest)[k] == here[k]);
        lemma_entries_here(s, i, j, new, from, section, workspace);
        lemma_updated_concat(here, rest, start, d, new);
        lemma_cargo_behind(s, i, j, new, next, section, workspace);
        lemma_entry_bounds(s, next, opened, workspace);
        lemma_byte_offset_monotonic(s, i, next);
        assert forall|m: int| 0 <= m < (here + rest).len() && m != k implies (#[trigger] (here
            + rest)[m]).start != start by {
            assert((here + rest)[m] == rest[m - here.len()]);
        }
    } else {
        assert((here + rest)[k] == rest[k - here.len()]);
        lemma_entry_bounds(s, next, opened, workspace);
        assert(next <= i) by {
            if next > i {
                lemma_byte_offset_monotonic(s, i, next);
            }
        }
        lemma_line_before(s, i, j, new, from);
        lemma_cargo_replaced(s, i, j, new, next, opened, workspace, k - here.len());
        if !is_header(header) {
            lemma_entries_before(s, i, j, new, from, section, workspace);
            lemma_updated_concat(here, rest, start, d, new);
        }
        assert forall|m: int| 0 <= m < (here + rest).len() && m != k implies (#[trigger] (here
            + rest)[m]).start != start by {
            if m >= here.len() {
                assert((here + rest)[m] == rest[m - here.len()]);
            } else {
                assert((here + rest)[m] == here[m]);
            }
        }
    }
}

/// A line that declares a version and opens no section still opens none.
proof fn lemma_same_header(line: Seq<char>, i: int, j: int, new: Seq<char>)
    requires
        is_swap(line, i, j, new),
        exists|k: int| 0 <= k < i && #[trigger] line[k] == '=',
        !(trimmed(line).len() > 0 && trimmed(line)[0] == '['),
    ensures
        !(trimmed(replaced(line, i, j, new)).len() > 0 && trimmed(replaced(line, i, j, new))[0]
            == '['),
{
    lemma_trimmed_start_moved(line, i, j, new);
    let x = trimmed_start(line);
    let m = line.len() - x.len();
    lemma_trimmed_end_moved(x, i - m, j - m, new);
    lemma_swap(trimmed_end(x), i - m, j - m, new);
    lemma_replaced(trimmed_end(x), i - m, j - m, new);
    lemma_trimmed_end(x);
}

} // verus!
