//! What becomes of a text when a version in it is replaced by another.

use crate::entries::EntryView;
use crate::lines::without_line_break;
use crate::outside::json_string_value;
use crate::scan::{
    closes_string, escaped_at, is_unquoted, json_token, quoted_at, unquoted_index, without_comment,
    TokenView,
};
use crate::text::{
    byte_len, byte_offset, first_index, index_of, is_ascii_digit, is_char, is_whitespace,
    lemma_byte_offset_monotonic, lemma_byte_offset_step, lemma_encode_concat, lemma_first_index,
    trimmed_end, trimmed_start,
};
use vstd::prelude::*;

verus! {

// ---------------------------------------------------------------------------
// Texts with one stretch replaced
// ---------------------------------------------------------------------------

/// What versions that can be rewritten are made of.
#[verifier::allow_in_spec]
pub fn is_version_char(c: char) -> (b: bool)
    returns
        is_ascii_digit(c) || c == '.' || c == '^' || c == '~',
{
    is_ascii_digit(c) || c == '.' || c == '^' || c == '~'
}

/// Text that is made of what versions are made of.
pub open spec fn is_version_like(s: Seq<char>) -> bool {
    s.len() > 0 && forall|i: int| 0 <= i < s.len() ==> is_version_char(#[trigger] s[i])
}

/// `s` with `new` in place of the characters `i..j`.
pub open spec fn replaced(s: Seq<char>, i: int, j: int, new: Seq<char>) -> Seq<char> {
    s.take(i) + new + s.skip(j)
}

/// A string with its quotation marks: none in it is unescaped but the last.
pub open spec fn is_quoted_text(s: Seq<char>) -> bool {
    &&& s.len() >= 2
    &&& s[0] == '"'
    &&& s.last() == '"'
    &&& forall|k: int| 0 < k < s.len() - 1 && #[trigger] s[k] == '"' ==> escaped_at(s, 1, k)
    &&& !escaped_at(s, 1, s.len() - 1)
}

/// A version with quotation marks around it.
pub open spec fn is_quoted_version(s: Seq<char>) -> bool {
    &&& s.len() > 2
    &&& s[0] == '"'
    &&& s.last() == '"'
    &&& forall|k: int| 0 < k < s.len() - 1 ==> is_version_char(#[trigger] s[k])
}

/// There is a stretch `i..j`, and something to put in its place.
pub open spec fn is_edit(s: Seq<char>, i: int, j: int, new: Seq<char>) -> bool {
    0 <= i <= j <= s.len() && new.len() > 0
}

/// A version stands at `i..j` and `new` is one; or both stand between quotation
/// marks, and what is replaced may be written with escapes.
pub open spec fn is_swap(s: Seq<char>, i: int, j: int, new: Seq<char>) -> bool {
    &&& 0 <= i < j <= s.len()
    &&& {
        ||| is_version_like(s.subrange(i, j)) && is_version_like(new)
        ||| is_quoted_text(s.subrange(i, j)) && is_quoted_version(new)
    }
}

/// What versions, and the quotation marks around them, are made of.
pub open spec fn is_atom_char(c: char) -> bool {
    is_version_char(c) || c == '"'
}

/// How much further to the right the text behind `i..j` stands.
pub open spec fn shift(i: int, j: int, new: Seq<char>) -> int {
    new.len() - (j - i)
}

/// Where a position outside `i..j` is found again.
pub open spec fn moved(p: int, i: int, d: int) -> int {
    if p <= i {
        p
    } else {
        p + d
    }
}

/// Where an optional position is found again.
pub open spec fn moved_option(p: Option<int>, i: int, d: int) -> Option<int> {
    match p {
        Some(p) => Some(moved(p, i, d)),
        None => None,
    }
}

/// The characters of a text with one stretch replaced.
pub proof fn lemma_replaced(s: Seq<char>, i: int, j: int, new: Seq<char>)
    requires
        is_edit(s, i, j, new),
    ensures
        replaced(s, i, j, new).len() == s.len() + shift(i, j, new),
        forall|p: int| 0 <= p < i ==> #[trigger] replaced(s, i, j, new)[p] == s[p],
        forall|p: int|
            i <= p < j + shift(i, j, new) ==> #[trigger] replaced(s, i, j, new)[p] == new[p - i],
        forall|p: int|
            j <= p < s.len() ==> #[trigger] s[p] == replaced(s, i, j, new)[p + shift(i, j, new)],
        replaced(s, i, j, new).take(i) == s.take(i),
        replaced(s, i, j, new).subrange(i, j + shift(i, j, new)) == new,
        replaced(s, i, j, new).skip(j + shift(i, j, new)) == s.skip(j),
{
    let t = replaced(s, i, j, new);
    assert(t.take(i) =~= s.take(i));
    assert(t.subrange(i, j + shift(i, j, new)) =~= new);
    assert(t.skip(j + shift(i, j, new)) =~= s.skip(j));
}

/// What the replaced stretch begins and ends with, and what the new one is made
/// of.
pub proof fn lemma_swap(s: Seq<char>, i: int, j: int, new: Seq<char>)
    requires
        is_swap(s, i, j, new),
    ensures
        is_edit(s, i, j, new),
        is_atom_char(s[i]),
        is_atom_char(s[j - 1]),
        forall|k: int| 0 <= k < new.len() ==> is_atom_char(#[trigger] new[k]),
        forall|p: int|
            i <= p < j + shift(i, j, new) ==> is_atom_char(#[trigger] replaced(s, i, j, new)[p]),
{
    let old = s.subrange(i, j);
    assert(old[0] == s[i]);
    assert(old[j - i - 1] == s[j - 1]);
    if is_version_like(old) {
        assert(is_version_char(old[0]));
        assert(is_version_char(old[j - i - 1]));
    }
    assert forall|k: int| 0 <= k < new.len() implies is_atom_char(#[trigger] new[k]) by {
        if is_version_like(new) {
            assert(is_version_char(new[k]));
        } else if 0 < k < new.len() - 1 {
            assert(is_version_char(new[k]));
        }
    }
    lemma_replaced(s, i, j, new);
    assert forall|p: int| i <= p < j + shift(i, j, new) implies is_atom_char(
        #[trigger] replaced(s, i, j, new)[p],
    ) by {
        assert(is_atom_char(new[p - i]));
    }
}

/// How many quotation marks stand before a version.
pub open spec fn margin(new: Seq<char>) -> int {
    if new[0] == '"' {
        1
    } else {
        0
    }
}

/// A version without the quotation marks around it.
pub open spec fn bare_text(new: Seq<char>) -> Seq<char> {
    new.subrange(margin(new), new.len() - margin(new))
}

/// Replacing a string is replacing what stands between its quotation marks.
pub proof fn lemma_margin(s: Seq<char>, i: int, j: int, new: Seq<char>)
    requires
        is_swap(s, i, j, new),
    ensures
        ({
            let o = margin(new);
            &&& is_edit(s, i + o, j - o, bare_text(new))
            &&& is_version_like(bare_text(new))
            &&& replaced(s, i, j, new) == replaced(s, i + o, j - o, bare_text(new))
            &&& shift(i, j, new) == shift(i + o, j - o, bare_text(new))
            &&& o == 1 ==> s[i] == '"' && s[j - 1] == '"'
            &&& o == 0 ==> is_version_like(s.subrange(i, j)) && bare_text(new) == new
        }),
{
    let old = s.subrange(i, j);
    assert(old[0] == s[i]);
    assert(old[j - i - 1] == s[j - 1]);
    let inner = bare_text(new);
    if is_quoted_version(new) {
        assert forall|k: int| 0 <= k < inner.len() implies is_version_char(#[trigger] inner[k]) by {
            assert(inner[k] == new[k + 1]);
        }
        assert(replaced(s, i, j, new) =~= replaced(s, i + 1, j - 1, inner));
    } else {
        assert(is_version_char(new[0]));
        assert(inner =~= new);
    }
}

/// Replacing in what follows the first `k` characters.
pub proof fn lemma_replaced_skip(s: Seq<char>, i: int, j: int, new: Seq<char>, k: int)
    requires
        is_swap(s, i, j, new),
        0 <= k <= i,
    ensures
        is_swap(s.skip(k), i - k, j - k, new),
        replaced(s, i, j, new).skip(k) == replaced(s.skip(k), i - k, j - k, new),
        shift(i - k, j - k, new) == shift(i, j, new),
{
    assert(s.skip(k).subrange(i - k, j - k) =~= s.subrange(i, j));
    assert(replaced(s, i, j, new).skip(k) =~= replaced(s.skip(k), i - k, j - k, new));
}

/// Replacing in the first `k` characters.
pub proof fn lemma_replaced_take(s: Seq<char>, i: int, j: int, new: Seq<char>, k: int)
    requires
        is_swap(s, i, j, new),
        j <= k <= s.len(),
    ensures
        is_swap(s.take(k), i, j, new),
        replaced(s, i, j, new).take(k + shift(i, j, new)) == replaced(s.take(k), i, j, new),
{
    assert(s.take(k).subrange(i, j) =~= s.subrange(i, j));
    assert(replaced(s, i, j, new).take(k + shift(i, j, new)) =~= replaced(s.take(k), i, j, new));
}

/// Replacing in the stretch `k..m`.
pub proof fn lemma_replaced_subrange(s: Seq<char>, i: int, j: int, new: Seq<char>, k: int, m: int)
    requires
        is_swap(s, i, j, new),
        0 <= k <= i,
        j <= m <= s.len(),
    ensures
        is_swap(s.subrange(k, m), i - k, j - k, new),
        replaced(s, i, j, new).subrange(k, m + shift(i, j, new)) == replaced(
            s.subrange(k, m),
            i - k,
            j - k,
            new,
        ),
{
    assert(s.subrange(k, m).subrange(i - k, j - k) =~= s.subrange(i, j));
    assert(replaced(s, i, j, new).subrange(k, m + shift(i, j, new)) =~= replaced(
        s.subrange(k, m),
        i - k,
        j - k,
        new,
    ));
}

// ---------------------------------------------------------------------------
// Searches
// ---------------------------------------------------------------------------

/// A search that stops at nothing in the replaced stretch finds what it found.
pub proof fn lemma_first_moved(
    p: spec_fn(int) -> bool,
    q: spec_fn(int) -> bool,
    i: int,
    j: int,
    d: int,
    from: int,
    to: int,
)
    requires
        0 <= from,
        i < j,
        i < j + d,
        from <= i || j <= from,
        to <= i || j <= to,
        forall|k: int| 0 <= k < i ==> #[trigger] p(k) == q(k),
        forall|k: int| i <= k < j ==> !#[trigger] p(k),
        forall|k: int| i <= k < j + d ==> !#[trigger] q(k),
        forall|k: int| j <= k < to ==> #[trigger] p(k) == q(k + d),
    ensures
        first_index(q, moved(from, i, d), moved(to, i, d)) == moved_option(
            first_index(p, from, to),
            i,
            d,
        ),
        first_index(p, from, to) matches Some(k) ==> k < i || j <= k,
{
    let from2 = moved(from, i, d);
    let to2 = moved(to, i, d);
    lemma_first_index(p, from, to);
    lemma_first_index(q, from2, to2);
    match first_index(p, from, to) {
        Some(k) => {
            assert(p(k));
            let k2 = moved(k, i, d);
            assert(q(k2));
            assert forall|m: int| from2 <= m < k2 implies !#[trigger] q(m) by {
                if m < i {
                    assert(!p(m));
                } else if m >= j + d {
                    assert(!p(m - d));
                    assert(p(m - d) == q(m - d + d));
                }
            }
        },
        None => {
            assert forall|m: int| from2 <= m < to2 implies !#[trigger] q(m) by {
                if m < i {
                    assert(!p(m));
                } else if m >= j + d {
                    assert(!p(m - d));
                    assert(p(m - d) == q(m - d + d));
                }
            }
        },
    }
}

/// A search in what follows the first `m` characters finds the same, that much
/// earlier.
pub proof fn lemma_first_skipped(
    p: spec_fn(int) -> bool,
    q: spec_fn(int) -> bool,
    m: int,
    from: int,
    to: int,
)
    requires
        forall|k: int| from <= k < to ==> #[trigger] p(k) == q(k - m),
    ensures
        first_index(p, from, to) == (match first_index(q, from - m, to - m) {
            Some(k) => Some(k + m),
            None => None,
        }),
{
    lemma_first_index(p, from, to);
    lemma_first_index(q, from - m, to - m);
    match first_index(p, from, to) {
        Some(k) => {
            assert(p(k));
            assert(q(k - m));
            if let Some(k2) = first_index(q, from - m, to - m) {
                if k2 < k - m {
                    assert(q(k2));
                    assert(!p(k2 + m));
                }
                if k - m < k2 {
                    assert(!q(k - m));
                }
            } else {
                assert(!q(k - m));
            }
        },
        None => {
            if let Some(k2) = first_index(q, from - m, to - m) {
                assert(q(k2));
                assert(!p(k2 + m));
                assert(p(k2 + m) == q(k2 + m - m));
            }
        },
    }
}

/// The first occurrence of a character that neither the replaced stretch nor the
/// new one holds.
pub proof fn lemma_index_moved(
    s: Seq<char>,
    i: int,
    j: int,
    new: Seq<char>,
    c: char,
    from: int,
    to: int,
)
    requires
        is_edit(s, i, j, new),
        i < j,
        forall|k: int| i <= k < j ==> #[trigger] s[k] != c,
        forall|k: int| 0 <= k < new.len() ==> #[trigger] new[k] != c,
        0 <= from,
        from <= i || j <= from,
        to <= i || j <= to <= s.len(),
    ensures
        index_of(
            replaced(s, i, j, new),
            c,
            moved(from, i, shift(i, j, new)),
            moved(to, i, shift(i, j, new)),
        ) == moved_option(index_of(s, c, from, to), i, shift(i, j, new)),
        index_of(s, c, from, to) matches Some(k) ==> k < i || j <= k,
{
    lemma_replaced(s, i, j, new);
    let t = replaced(s, i, j, new);
    let d = shift(i, j, new);
    let p = is_char(s, c);
    let q = is_char(t, c);
    assert forall|k: int| j <= k < to implies #[trigger] p(k) == q(k + d) by {
        assert(s[k] == t[k + d]);
    }
    lemma_first_moved(p, q, i, j, d, from, to);
}

// ---------------------------------------------------------------------------
// Quoting
// ---------------------------------------------------------------------------

/// What is escaped before and behind the replaced stretch stays so.
pub proof fn lemma_escaped_moved(
    s: Seq<char>,
    i: int,
    j: int,
    new: Seq<char>,
    start: int,
    p: int,
)
    requires
        is_swap(s, i, j, new),
        0 <= start <= i,
        start <= p <= s.len(),
        p <= i || j <= p,
    ensures
        escaped_at(replaced(s, i, j, new), start, moved(p, i, shift(i, j, new))) == escaped_at(
            s,
            start,
            p,
        ),
    decreases p,
{
    lemma_swap(s, i, j, new);
    lemma_replaced(s, i, j, new);
    let t = replaced(s, i, j, new);
    let d = shift(i, j, new);
    if p > start {
        if p <= i {
            lemma_escaped_moved(s, i, j, new, start, p - 1);
        } else if p == j {
            assert(is_atom_char(s[j - 1]));
            assert(is_atom_char(t[j + d - 1]));
        } else {
            lemma_escaped_moved(s, i, j, new, start, p - 1);
            assert(s[p - 1] == t[p - 1 + d]);
        }
    }
}

/// What is quoted before and behind the replaced stretch stays so.
pub proof fn lemma_quoted_moved(s: Seq<char>, i: int, j: int, new: Seq<char>, p: int)
    requires
        is_swap(s, i, j, new),
        0 <= p <= s.len(),
        p <= i || j <= p,
    ensures
        quoted_at(replaced(s, i, j, new), moved(p, i, shift(i, j, new))) == quoted_at(s, p),
    decreases p,
{
    lemma_swap(s, i, j, new);
    lemma_replaced(s, i, j, new);
    let t = replaced(s, i, j, new);
    let d = shift(i, j, new);
    if p > 0 {
        if p <= i {
            lemma_quoted_moved(s, i, j, new, p - 1);
            lemma_escaped_moved(s, i, j, new, 0, p - 1);
        } else if p == j {
            lemma_quoted_moved(s, i, j, new, i);
            lemma_escaped_moved(s, i, j, new, 0, i);
            if is_version_like(new) {
                lemma_quoted_flat(s, i, j);
                lemma_quoted_flat(t, i, j + d);
            } else {
                lemma_quoted_version(new);
                lemma_quoted_through(s, i, j);
                lemma_quoted_through(t, i, j + d);
            }
        } else {
            lemma_quoted_moved(s, i, j, new, p - 1);
            lemma_escaped_moved(s, i, j, new, 0, p - 1);
            assert(s[p - 1] == t[p - 1 + d]);
        }
    }
}

/// No version opens or closes a quotation.
proof fn lemma_quoted_flat(s: Seq<char>, i: int, p: int)
    requires
        0 <= i <= p <= s.len(),
        is_version_like(s.subrange(i, p)) || i == p,
    ensures
        quoted_at(s, p) == quoted_at(s, i),
    decreases p - i,
{
    if i < p {
        let old = s.subrange(i, p);
        assert(is_version_char(old[p - 1 - i]));
        assert(s[p - 1] == old[p - 1 - i]);
        if i < p - 1 {
            let less = s.subrange(i, p - 1);
            assert forall|k: int| 0 <= k < less.len() implies is_version_char(
                #[trigger] less[k],
            ) by {
                assert(less[k] == old[k]);
            }
        }
        lemma_quoted_flat(s, i, p - 1);
    }
}

/// A version between quotation marks is a string.
pub proof fn lemma_quoted_version(s: Seq<char>)
    requires
        is_quoted_version(s),
    ensures
        is_quoted_text(s),
        !is_version_like(s),
{
    assert(is_version_char(s[s.len() - 2]));
    assert forall|k: int| 0 < k < s.len() - 1 && #[trigger] s[k] == '"' implies escaped_at(
        s,
        1,
        k,
    ) by {
        assert(is_version_char(s[k]));
    }
    if is_version_like(s) {
        assert(is_version_char(s[0]));
    }
}

/// What is escaped in a string is so in the text.
proof fn lemma_escaped_inside(s: Seq<char>, i: int, j: int, p: int)
    requires
        0 <= i < p <= j <= s.len(),
        s[i] == '"',
    ensures
        escaped_at(s, 0, p) == escaped_at(s.subrange(i, j), 1, p - i),
    decreases p,
{
    if p > i + 1 {
        lemma_escaped_inside(s, i, j, p - 1);
        assert(s.subrange(i, j)[p - 1 - i] == s[p - 1]);
    }
}

/// The inside of a string is quoted as its first character is.
proof fn lemma_quoted_inside(s: Seq<char>, i: int, j: int, p: int)
    requires
        0 <= i < p < j <= s.len(),
        is_quoted_text(s.subrange(i, j)),
    ensures
        quoted_at(s, p) == quoted_at(s, i + 1),
    decreases p,
{
    if p > i + 1 {
        let old = s.subrange(i, j);
        lemma_quoted_inside(s, i, j, p - 1);
        assert(old[0] == s[i]);
        assert(old[p - 1 - i] == s[p - 1]);
        lemma_escaped_inside(s, i, j, p - 1);
    }
}

/// A string closes what it opens.
proof fn lemma_quoted_through(s: Seq<char>, i: int, j: int)
    requires
        0 <= i < j <= s.len(),
        is_quoted_text(s.subrange(i, j)),
    ensures
        quoted_at(s, j) == ((!escaped_at(s, 0, i)) == quoted_at(s, i)),
{
    let old = s.subrange(i, j);
    assert(old[0] == s[i]);
    assert(old[j - 1 - i] == s[j - 1]);
    lemma_quoted_inside(s, i, j, j - 1);
    lemma_escaped_inside(s, i, j, j - 1);
}

/// The first unquoted occurrence of a character, where it is none of the replaced
/// stretch.
pub proof fn lemma_unquoted_moved(s: Seq<char>, i: int, j: int, new: Seq<char>, target: char)
    requires
        is_swap(s, i, j, new),
        !is_atom_char(target),
        unquoted_index(s, target) matches Some(k) ==> k < i || j <= k,
    ensures
        unquoted_index(replaced(s, i, j, new), target) == moved_option(
            unquoted_index(s, target),
            i,
            shift(i, j, new),
        ),
        unquoted_index(s, target) matches Some(k) ==> 0 <= k < s.len(),
{
    lemma_swap(s, i, j, new);
    lemma_replaced(s, i, j, new);
    let t = replaced(s, i, j, new);
    let d = shift(i, j, new);
    let n = s.len() as int;
    let p = is_unquoted(s, target);
    let q = is_unquoted(t, target);
    assert forall|k: int| 0 <= k < i implies #[trigger] p(k) == q(k) by {
        lemma_escaped_moved(s, i, j, new, 0, k);
        lemma_quoted_moved(s, i, j, new, k);
    }
    assert forall|k: int| j <= k < n implies #[trigger] p(k) == q(k + d) by {
        lemma_escaped_moved(s, i, j, new, 0, k);
        lemma_quoted_moved(s, i, j, new, k);
        assert(s[k] == t[k + d]);
    }
    lemma_first_index(p, 0, n);
    let found = first_index(p, 0, n);
    if found is Some && found->0 < i {
        lemma_first_same(p, q, 0, n, t.len() as int, found->0);
    } else {
        assert forall|k: int| i <= k < j + d implies !#[trigger] q(k) by {
            assert(is_atom_char(t[k]));
        }
        lemma_first_moved(p, q, i, j, d, 0, n);
    }
}

/// A line loses the same comment, where its version stands before it.
pub proof fn lemma_without_comment_moved(s: Seq<char>, i: int, j: int, new: Seq<char>)
    requires
        is_swap(s, i, j, new),
        j <= without_comment(s).len(),
    ensures
        is_swap(without_comment(s), i, j, new),
        without_comment(replaced(s, i, j, new)) == replaced(without_comment(s), i, j, new),
{
    lemma_swap(s, i, j, new);
    lemma_first_index(is_unquoted(s, '#'), 0, s.len() as int);
    lemma_unquoted_moved(s, i, j, new, '#');
    lemma_replaced(s, i, j, new);
    match unquoted_index(s, '#') {
        Some(k) => {
            lemma_replaced_take(s, i, j, new, k);
        },
        None => {},
    }
}

// ---------------------------------------------------------------------------
// Trimming
// ---------------------------------------------------------------------------

/// White space before the replaced stretch is trimmed as before.
pub proof fn lemma_trimmed_start_moved(s: Seq<char>, i: int, j: int, new: Seq<char>)
    requires
        is_swap(s, i, j, new),
    ensures
        ({
            let k = s.len() - trimmed_start(s).len();
            &&& 0 <= k <= i
            &&& trimmed_start(s) == s.skip(k)
            &&& is_swap(trimmed_start(s), i - k, j - k, new)
            &&& trimmed_start(replaced(s, i, j, new)) == replaced(
                trimmed_start(s),
                i - k,
                j - k,
                new,
            )
        }),
    decreases s.len(),
{
    lemma_swap(s, i, j, new);
    lemma_replaced(s, i, j, new);
    let t = replaced(s, i, j, new);
    if is_whitespace(s[0]) {
        if i == 0 {
            assert(is_atom_char(s[0]));
        }
        assert(t[0] == s[0]);
        lemma_replaced_skip(s, i, j, new, 1);
        lemma_trimmed_start_moved(s.skip(1), i - 1, j - 1, new);
        let k = s.len() - trimmed_start(s).len();
        assert(s.skip(1).skip(k - 1) =~= s.skip(k));
    } else {
        assert(s.skip(0) =~= s);
        if i == 0 {
            assert(is_atom_char(t[0]));
        }
        assert(!is_whitespace(t[0]));
    }
}

/// White space behind the replaced stretch is trimmed as before.
pub proof fn lemma_trimmed_end_moved(s: Seq<char>, i: int, j: int, new: Seq<char>)
    requires
        is_swap(s, i, j, new),
    ensures
        j <= trimmed_end(s).len(),
        is_swap(trimmed_end(s), i, j, new),
        trimmed_end(replaced(s, i, j, new)) == replaced(trimmed_end(s), i, j, new),
    decreases s.len(),
{
    lemma_swap(s, i, j, new);
    lemma_replaced(s, i, j, new);
    let t = replaced(s, i, j, new);
    let d = shift(i, j, new);
    if j == s.len() {
        assert(is_atom_char(s[j - 1]));
        assert(is_atom_char(t[j + d - 1]));
    } else {
        assert(s[s.len() - 1] == t[s.len() - 1 + d]);
        if is_whitespace(s.last()) {
            lemma_replaced_take(s, i, j, new, s.len() - 1);
            assert(s.drop_last() =~= s.take(s.len() - 1));
            assert(t.drop_last() =~= t.take(s.len() - 1 + d));
            lemma_trimmed_end_moved(s.drop_last(), i, j, new);
        }
    }
}

/// A line break behind the replaced stretch is dropped as before.
pub proof fn lemma_line_break_moved(s: Seq<char>, i: int, j: int, new: Seq<char>)
    requires
        is_swap(s, i, j, new),
    ensures
        j <= without_line_break(s).len(),
        is_swap(without_line_break(s), i, j, new),
        without_line_break(replaced(s, i, j, new)) == replaced(without_line_break(s), i, j, new),
    decreases s.len(),
{
    lemma_swap(s, i, j, new);
    lemma_replaced(s, i, j, new);
    let t = replaced(s, i, j, new);
    let d = shift(i, j, new);
    if j == s.len() {
        assert(is_atom_char(s[j - 1]));
        assert(is_atom_char(t[j + d - 1]));
    } else {
        assert(s[s.len() - 1] == t[s.len() - 1 + d]);
        if s.last() == '\r' || s.last() == '\n' {
            lemma_replaced_take(s, i, j, new, s.len() - 1);
            assert(s.drop_last() =~= s.take(s.len() - 1));
            assert(t.drop_last() =~= t.take(s.len() - 1 + d));
            lemma_line_break_moved(s.drop_last(), i, j, new);
        }
    }
}

// ---------------------------------------------------------------------------
// Strings
// ---------------------------------------------------------------------------

/// `value` between quotation marks.
pub open spec fn in_quotation_marks(value: Seq<char>) -> Seq<char> {
    seq!['"'] + value + seq!['"']
}

/// `value` is read back from between quotation marks.
pub open spec fn reads_back(value: Seq<char>) -> bool {
    json_string_value(in_quotation_marks(value)) == Some(value)
}

/// A string that ends before the replaced stretch is found as before.
pub proof fn lemma_token_before(
    s: Seq<char>,
    i: int,
    j: int,
    new: Seq<char>,
    from: int,
    to: int,
    to2: int,
)
    requires
        is_edit(s, i, j, new),
        0 <= from,
        to <= s.len(),
        json_token(s, from, to) matches Some(token) && token.outer_end <= i && token.outer_end
            <= to2,
    ensures
        json_token(replaced(s, i, j, new), from, to2) == json_token(s, from, to),
{
    lemma_replaced(s, i, j, new);
    let t = replaced(s, i, j, new);
    let token = json_token(s, from, to)->0;
    crate::scan::lemma_json_token(s, from, to);
    let quote = token.inner_start - 1;
    lemma_first_same(is_char(s, '"'), is_char(t, '"'), from, to, to2, quote);
    let p = closes_string(s, quote + 1);
    let q = closes_string(t, quote + 1);
    lemma_first_index(p, quote + 1, to);
    assert forall|k: int| quote + 1 <= k <= token.inner_end implies #[trigger] p(k) == q(k) by {
        lemma_escaped_same(s, t, quote + 1, k);
    }
    lemma_first_same(p, q, quote + 1, to, to2, token.inner_end);
    assert(t.subrange(quote, token.outer_end) =~= s.subrange(quote, token.outer_end));
}

/// Two searches that agree up to where the first one stops.
pub proof fn lemma_first_same(
    p: spec_fn(int) -> bool,
    q: spec_fn(int) -> bool,
    from: int,
    to: int,
    to2: int,
    k: int,
)
    requires
        first_index(p, from, to) == Some(k),
        k < to2,
        forall|m: int| from <= m <= k ==> #[trigger] p(m) == q(m),
    ensures
        first_index(q, from, to2) == Some(k),
{
    lemma_first_index(p, from, to);
    lemma_first_index(q, from, to2);
    assert(p(k));
    assert(q(k));
    assert forall|m: int| from <= m < k implies !#[trigger] q(m) by {
        assert(!p(m));
    }
}

/// What is escaped depends on what stands before it.
pub proof fn lemma_escaped_same(s: Seq<char>, t: Seq<char>, start: int, p: int)
    requires
        forall|k: int| start <= k < p ==> #[trigger] s[k] == t[k],
    ensures
        escaped_at(s, start, p) == escaped_at(t, start, p),
    decreases p - start,
{
    if p > start {
        assert(s[p - 1] == t[p - 1]);
        lemma_escaped_same(s, t, start, p - 1);
    }
}

/// The string that holds the replaced stretch is found with its new value.
pub proof fn lemma_token_at(
    s: Seq<char>,
    i: int,
    j: int,
    new: Seq<char>,
    from: int,
    to2: int,
)
    requires
        is_edit(s, i, j, new),
        is_version_like(new),
        0 <= from <= i - 1,
        j < s.len(),
        s[i - 1] == '"',
        s[j] == '"',
        forall|k: int| from <= k < i - 1 ==> #[trigger] s[k] != '"',
        j + shift(i, j, new) < to2,
        reads_back(new),
    ensures
        json_token(replaced(s, i, j, new), from, to2) == Some(
            TokenView {
                value: new,
                inner_start: i,
                inner_end: j + shift(i, j, new),
                outer_end: j + shift(i, j, new) + 1,
            },
        ),
{
    lemma_replaced(s, i, j, new);
    let t = replaced(s, i, j, new);
    let end = j + shift(i, j, new);
    let p = is_char(t, '"');
    lemma_first_index(p, from, to2);
    assert(t[i - 1] == s[i - 1]);
    assert(p(i - 1));
    assert forall|k: int| from <= k < i - 1 implies !#[trigger] p(k) by {
        assert(t[k] == s[k]);
    }
    assert(index_of(t, '"', from, to2) == Some(i - 1));
    let q = closes_string(t, i);
    lemma_first_index(q, i, to2);
    assert(t[end] == s[j]);
    assert(is_version_char(new[end - 1 - i]));
    assert(q(end));
    assert forall|k: int| i <= k < end implies !#[trigger] q(k) by {
        assert(is_version_char(new[k - i]));
    }
    assert(first_index(q, i, to2) == Some(end));
    assert(t.subrange(i - 1, end + 1) =~= in_quotation_marks(new));
}

/// A string is found in what follows the first `m` characters as in the whole.
pub proof fn lemma_token_skipped(s: Seq<char>, m: int, from: int, to: int)
    requires
        0 <= m <= from,
        to <= s.len(),
    ensures
        json_token(s, from, to) == (match json_token(s.skip(m), from - m, to - m) {
            Some(token) => Some(
                TokenView {
                    value: token.value,
                    inner_start: token.inner_start + m,
                    inner_end: token.inner_end + m,
                    outer_end: token.outer_end + m,
                },
            ),
            None => None,
        }),
{
    let u = s.skip(m);
    let p = is_char(s, '"');
    let q = is_char(u, '"');
    assert forall|k: int| from <= k < to implies #[trigger] p(k) == q(k - m) by {
        assert(u[k - m] == s[k]);
    }
    lemma_first_skipped(p, q, m, from, to);
    lemma_first_index(p, from, to);
    if let Some(quote) = index_of(s, '"', from, to) {
        let p2 = closes_string(s, quote + 1);
        let q2 = closes_string(u, quote + 1 - m);
        assert forall|k: int| quote + 1 <= k < to implies #[trigger] p2(k) == q2(k - m) by {
            lemma_escaped_skipped(s, m, quote + 1, k);
            assert(u[k - m] == s[k]);
        }
        lemma_first_skipped(p2, q2, m, quote + 1, to);
        lemma_first_index(p2, quote + 1, to);
        if let Some(end) = first_index(p2, quote + 1, to) {
            assert(u.subrange(quote - m, end - m + 1) =~= s.subrange(quote, end + 1));
        }
    }
}

/// What is escaped in what follows the first `m` characters is so in the whole.
pub proof fn lemma_escaped_skipped(s: Seq<char>, m: int, start: int, p: int)
    requires
        0 <= m <= start,
        p <= s.len(),
    ensures
        escaped_at(s, start, p) == escaped_at(s.skip(m), start - m, p - m),
    decreases p - start,
{
    if p > start {
        assert(s.skip(m)[p - 1 - m] == s[p - 1]);
        lemma_escaped_skipped(s, m, start, p - 1);
    }
}

// ---------------------------------------------------------------------------
// Bytes
// ---------------------------------------------------------------------------

/// Every character of a version takes one byte.
pub proof fn lemma_version_bytes(s: Seq<char>)
    requires
        forall|k: int| 0 <= k < s.len() ==> is_version_char(#[trigger] s[k]),
    ensures
        byte_len(s) == s.len(),
    decreases s.len(),
{
    if s.len() > 0 {
        let head = s.drop_last();
        assert forall|k: int| 0 <= k < head.len() implies is_version_char(#[trigger] head[k]) by {
            assert(head[k] == s[k]);
        }
        lemma_version_bytes(head);
        lemma_byte_offset_step(s, s.len() - 1);
        assert(s.take(s.len() - 1) =~= head);
        assert(s.take(s.len() as int) =~= s);
        assert(is_version_char(s[s.len() - 1]));
    }
}

/// How many more bytes the new stretch takes than the replaced one.
pub open spec fn byte_shift(s: Seq<char>, i: int, j: int, new: Seq<char>) -> int {
    byte_len(new) - (byte_offset(s, j) - byte_offset(s, i))
}

/// Bytes before the replaced stretch stand where they stood, and those behind it
/// are moved.
pub proof fn lemma_bytes_moved(s: Seq<char>, i: int, j: int, new: Seq<char>, p: int)
    requires
        is_edit(s, i, j, new),
        0 <= p <= s.len(),
        p < i || j <= p,
    ensures
        p < i ==> byte_offset(replaced(s, i, j, new), p) == byte_offset(s, p),
        j <= p ==> byte_offset(replaced(s, i, j, new), p + shift(i, j, new)) == byte_offset(s, p)
            + byte_shift(s, i, j, new),
        byte_offset(replaced(s, i, j, new), i) == byte_offset(s, i),
{
    lemma_replaced(s, i, j, new);
    let t = replaced(s, i, j, new);
    let d = shift(i, j, new);
    if p < i {
        assert(t.take(p) =~= s.take(p));
    } else {
        let old = s.subrange(i, j);
        let rest = s.subrange(j, p);
        assert(s.take(p) =~= s.take(i) + old + rest);
        assert(s.take(j) =~= s.take(i) + old);
        assert(t.take(p + d) =~= s.take(i) + new + rest);
        lemma_encode_concat(s.take(i) + old, rest);
        lemma_encode_concat(s.take(i), old);
        lemma_encode_concat(s.take(i) + new, rest);
        lemma_encode_concat(s.take(i), new);
    }
}

/// Different characters begin at different bytes.
pub proof fn lemma_byte_offset_injective(s: Seq<char>, p: int, q: int)
    requires
        0 <= p <= s.len(),
        0 <= q <= s.len(),
        byte_offset(s, p) == byte_offset(s, q),
    ensures
        p == q,
{
    if p < q {
        lemma_byte_offset_monotonic(s, p, q);
    } else if q < p {
        lemma_byte_offset_monotonic(s, q, p);
    }
}

// ---------------------------------------------------------------------------
// Entries
// ---------------------------------------------------------------------------

/// An entry whose version stands at the characters `i..j` of a text.
pub open spec fn stands_at(e: EntryView, s: Seq<char>, i: int, j: int) -> bool {
    &&& e.start == byte_offset(s, i)
    &&& e.end == byte_offset(s, j)
    &&& e.version matches Some(v) && is_version_like(v)
}

/// No entry but the one at `k` begins at the byte `start`.
pub open spec fn stands_alone(entries: Seq<EntryView>, k: int, start: int) -> bool {
    forall|m: int| 0 <= m < entries.len() && m != k ==> (#[trigger] entries[m]).start != start
}

/// An entry after the version at the byte `start` is replaced: that entry has the
/// new version, entries behind it are moved, and others stay.
pub open spec fn updated_entry(e: EntryView, start: int, d: int, new: Seq<char>) -> EntryView {
    if e.start == start {
        EntryView { version: Some(new), end: e.end + d, ..e }
    } else if e.start > start {
        EntryView { start: e.start + d, end: e.end + d, ..e }
    } else {
        e
    }
}

/// Entries after the version at the byte `start` is replaced.
pub open spec fn updated_entries(
    entries: Seq<EntryView>,
    start: int,
    d: int,
    new: Seq<char>,
) -> Seq<
    EntryView,
> {
    Seq::new(entries.len(), |k: int| updated_entry(entries[k], start, d, new))
}

/// The updates of two lists, one behind the other.
pub proof fn lemma_updated_concat(
    a: Seq<EntryView>,
    b: Seq<EntryView>,
    start: int,
    d: int,
    new: Seq<char>,
)
    ensures
        updated_entries(a + b, start, d, new) == updated_entries(a, start, d, new)
            + updated_entries(b, start, d, new),
{
    assert(updated_entries(a + b, start, d, new) =~= updated_entries(a, start, d, new)
        + updated_entries(b, start, d, new));
}

/// Entries that stand before the byte `start` stay.
pub proof fn lemma_updated_before(entries: Seq<EntryView>, start: int, d: int, new: Seq<char>)
    requires
        forall|k: int| 0 <= k < entries.len() ==> (#[trigger] entries[k]).start < start,
    ensures
        updated_entries(entries, start, d, new) == entries,
{
    assert(updated_entries(entries, start, d, new) =~= entries);
}

} // verus!
