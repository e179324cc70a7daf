//! What comments hide, and what they do not.

use crate::python::{
    in_quotes, is_mark_at, starts_comment, string_tokens, without_requirement_comment,
};
use crate::requirement::is_quotation_mark;
use crate::scan::{
    array_end, closing_bracket, comment_end, escaped_at, is_unquoted, quoted_at, unquoted_index,
    without_comment,
};
use crate::text::{first_index, is_whitespace, lemma_first_index, lemma_index_of};
use vstd::prelude::*;

verus! {

// ---------------------------------------------------------------------------
// Lines
// ---------------------------------------------------------------------------

/// Neither a quotation mark, nor a backslash, nor a number sign.
pub open spec fn is_quiet_text(text: Seq<char>) -> bool {
    forall|i: int|
        0 <= i < text.len() ==> #[trigger] text[i] != '"' && text[i] != '\'' && text[i] != '\\'
            && text[i] != '#'
}

/// What can stand between two quotation marks of the kind `"`.
pub open spec fn is_inner_text(text: Seq<char>) -> bool {
    forall|i: int|
        0 <= i < text.len() ==> #[trigger] text[i] != '"' && text[i] != '\'' && text[i] != '\\'
}

/// A text between quotation marks, behind `head` and before `tail`.
pub open spec fn quoting_line(head: Seq<char>, inner: Seq<char>, tail: Seq<char>) -> Seq<char> {
    head + seq!['"'] + inner + seq!['"'] + tail
}

/// What is quoted in such a line.
proof fn lemma_quoting(head: Seq<char>, inner: Seq<char>, tail: Seq<char>, i: int)
    requires
        is_quiet_text(head),
        is_inner_text(inner),
        0 <= i <= head.len() + inner.len() + 2,
    ensures
        ({
            let s = quoting_line(head, inner, tail);
            let inside = head.len() < i <= head.len() + 1 + inner.len();
            &&& quoted_at(s, i) == inside
            &&& in_quotes(s, i) == inside
            &&& !escaped_at(s, 0, i)
            &&& i > 0 ==> s[i - 1] != '\\'
        }),
    decreases i,
{
    let s = quoting_line(head, inner, tail);
    let h = head.len() as int;
    let q = h + 1 + inner.len();
    if i > 0 {
        lemma_quoting(head, inner, tail, i - 1);
        if i - 1 < h {
            assert(s[i - 1] == head[i - 1]);
        } else if i - 1 == h {
            assert(s[i - 1] == '"');
        } else if i - 1 < q {
            assert(s[i - 1] == inner[i - 1 - h - 1]);
        } else {
            assert(s[i - 1] == '"');
        }
    }
}

/// A number sign between quotation marks begins no comment; the first one behind them
/// does. Nor is an equals sign between them that of an assignment.
pub proof fn quoted_signs_do_not_count(
    head: Seq<char>,
    inner: Seq<char>,
    blank: Seq<char>,
    comment: Seq<char>,
)
    requires
        is_quiet_text(head),
        is_inner_text(inner),
        is_quiet_text(blank),
    ensures
        without_comment(quoting_line(head, inner, blank + seq!['#'] + comment)) == quoting_line(
            head,
            inner,
            blank,
        ),
        without_comment(quoting_line(head, inner, blank)) == quoting_line(head, inner, blank),
        !head.contains('=') && !blank.contains('=') ==> unquoted_index(
            quoting_line(head, inner, blank),
            '=',
        ) is None,
{
    let short = quoting_line(head, inner, blank);
    let long = quoting_line(head, inner, blank + seq!['#'] + comment);
    let n = short.len() as int;
    assert forall|k: int| 0 <= k < n implies !(#[trigger] is_unquoted(short, '#')(k)) by {
        lemma_no_sign(head, inner, blank, Seq::empty(), k);
        assert(blank + Seq::<char>::empty() =~= blank);
    }
    lemma_first_index(is_unquoted(short, '#'), 0, n);
    let tail = seq!['#'] + comment;
    assert(blank + seq!['#'] + comment =~= blank + tail);
    assert forall|k: int| 0 <= k < n implies !(#[trigger] is_unquoted(long, '#')(k)) by {
        lemma_no_sign(head, inner, blank, tail, k);
    }
    lemma_open_behind(head, inner, blank, tail, n);
    assert(long[n] == '#');
    assert(is_unquoted(long, '#')(n));
    lemma_first_index(is_unquoted(long, '#'), 0, long.len() as int);
    assert(unquoted_index(long, '#') == Some(n));
    assert(long.take(n) =~= short);
    if !head.contains('=') && !blank.contains('=') {
        assert forall|k: int| 0 <= k < n implies !(#[trigger] is_unquoted(short, '=')(k)) by {
            lemma_no_equals(head, inner, blank, k);
        }
        lemma_first_index(is_unquoted(short, '='), 0, n);
    }
}

/// Behind the quotation marks nothing is quoted.
proof fn lemma_open_behind(
    head: Seq<char>,
    inner: Seq<char>,
    blank: Seq<char>,
    tail: Seq<char>,
    i: int,
)
    requires
        is_quiet_text(head),
        is_inner_text(inner),
        is_quiet_text(blank),
        head.len() + inner.len() + 2 <= i <= head.len() + inner.len() + 2 + blank.len(),
    ensures
        ({
            let s = quoting_line(head, inner, blank + tail);
            !quoted_at(s, i) && !in_quotes(s, i) && !escaped_at(s, 0, i)
        }),
    decreases i,
{
    let s = quoting_line(head, inner, blank + tail);
    let b = (head.len() + inner.len() + 2) as int;
    if i > b {
        lemma_open_behind(head, inner, blank, tail, i - 1);
        assert(s[i - 1] == blank[i - 1 - b]);
    } else {
        lemma_quoting(head, inner, blank + tail, i);
    }
}

/// No comment begins before the end of the blanks.
proof fn lemma_no_sign(
    head: Seq<char>,
    inner: Seq<char>,
    blank: Seq<char>,
    tail: Seq<char>,
    k: int,
)
    requires
        is_quiet_text(head),
        is_inner_text(inner),
        is_quiet_text(blank),
        0 <= k < head.len() + inner.len() + 2 + blank.len(),
    ensures
        ({
            let s = quoting_line(head, inner, blank + tail);
            s[k] == '#' ==> quoted_at(s, k) && in_quotes(s, k)
        }),
{
    let s = quoting_line(head, inner, blank + tail);
    let h = head.len() as int;
    let b = h + inner.len() + 2;
    if k < h {
        assert(s[k] == head[k]);
    } else if k < b {
        lemma_quoting(head, inner, blank + tail, k);
    } else {
        assert(s[k] == blank[k - b]);
    }
}

/// No equals sign stands outside the quotation marks.
proof fn lemma_no_equals(head: Seq<char>, inner: Seq<char>, blank: Seq<char>, k: int)
    requires
        is_quiet_text(head),
        is_inner_text(inner),
        !head.contains('='),
        !blank.contains('='),
        0 <= k < head.len() + inner.len() + 2 + blank.len(),
    ensures
        ({
            let s = quoting_line(head, inner, blank);
            s[k] == '=' ==> quoted_at(s, k)
        }),
{
    let s = quoting_line(head, inner, blank);
    let h = head.len() as int;
    let b = h + inner.len() + 2;
    if k < h {
        assert(s[k] == head[k]);
    } else if k < b {
        lemma_quoting(head, inner, blank, k);
    } else {
        assert(s[k] == blank[k - b]);
    }
}

/// In a requirements file, a number sign behind a character that is no white space
/// begins no comment, and neither does one between quotation marks.
pub proof fn joined_signs_do_not_count(
    line: Seq<char>,
    head: Seq<char>,
    inner: Seq<char>,
    blank: Seq<char>,
)
    requires
        forall|i: int|
            0 <= i < line.len() && #[trigger] line[i] == '#' ==> i > 0 && !is_whitespace(
                line[i - 1],
            ),
        is_quiet_text(head),
        is_inner_text(inner),
        is_quiet_text(blank),
    ensures
        without_requirement_comment(line) == line,
        without_requirement_comment(quoting_line(head, inner, blank)) == quoting_line(
            head,
            inner,
            blank,
        ),
{
    lemma_first_index(starts_comment(line), 0, line.len() as int);
    assert forall|k: int| 0 <= k < line.len() implies !(#[trigger] starts_comment(line)(k)) by {
        assert(line[k] == '#' ==> k > 0);
    }
    let s = quoting_line(head, inner, blank);
    assert forall|k: int| 0 <= k < s.len() implies !(#[trigger] starts_comment(s)(k)) by {
        lemma_no_sign(head, inner, blank, Seq::empty(), k);
        assert(blank + Seq::<char>::empty() =~= blank);
    }
    lemma_first_index(starts_comment(s), 0, s.len() as int);
}

// ---------------------------------------------------------------------------
// Lists
// ---------------------------------------------------------------------------

/// In a list, what stands between a number sign and the end of its line counts neither
/// as a bracket nor as a string: the list goes on behind the line.
pub proof fn comments_in_lists_do_not_count(
    s: Seq<char>,
    i: int,
    j: int,
    depth: nat,
    to: int,
)
    requires
        0 <= i < j < to <= s.len(),
        s[i] == '#',
        s[j] == '\n',
        forall|k: int| i <= k < j ==> #[trigger] s[k] != '\n',
    ensures
        closing_bracket(s, '[', ']', true, i, depth) == closing_bracket(
            s,
            '[',
            ']',
            true,
            j + 1,
            depth,
        ),
        string_tokens(s, i, to) == string_tokens(s, j + 1, to),
{
    lemma_index_of(s, '\n', i, s.len() as int);
    lemma_index_of(s, '\n', i, to);
    assert(comment_end(s, i, s.len() as int) == j + 1);
    assert(comment_end(s, i, to) == j + 1);
    let p = is_mark_at(s);
    assert(p(i));
    lemma_first_index(p, i, to);
    assert(first_index(p, i, to) == Some(i));
}

/// A list that holds nothing but a comment is closed behind it.
pub proof fn comment_alone_leaves_a_list_empty(head: Seq<char>, comment: Seq<char>)
    requires
        forall|i: int| 0 <= i < comment.len() ==> #[trigger] comment[i] != '\n',
    ensures
        ({
            let s = head + seq!['[', '#'] + comment + seq!['\n', ']'];
            &&& array_end(s, head.len() as int) == Some(s.len() - 1)
            &&& string_tokens(s, head.len() as int + 1, s.len() - 1).len() == 0
        }),
{
    let s = head + seq!['[', '#'] + comment + seq!['\n', ']'];
    let h = head.len() as int;
    let i = h + 1;
    let j = i + 1 + comment.len();
    assert(s[h] == '[');
    assert(s[i] == '#');
    assert(s[j] == '\n');
    assert(s[j + 1] == ']');
    assert(s.len() == j + 2);
    assert forall|k: int| i <= k < j implies #[trigger] s[k] != '\n' by {
        if k > i {
            assert(s[k] == comment[k - i - 1]);
        }
    }
    comments_in_lists_do_not_count(s, i, j, 1, j + 1);
    assert(closing_bracket(s, '[', ']', true, h, 0) == closing_bracket(s, '[', ']', true, i, 1));
    assert(closing_bracket(s, '[', ']', true, j + 1, 1) == Some(j + 1));
}

} // verus!
