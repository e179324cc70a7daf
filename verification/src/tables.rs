//! Inline tables as they are written: keys with texts, words and lists.

use crate::edits::{in_quotation_marks, reads_back};
use crate::markers::{is_gap, lemma_stands, lemma_stands_parts, stands};
use crate::python_laws::lemma_trimmed_lead;
use crate::scan::{closes_string, escaped_at, json_token, lemma_json_token, TokenView};
use crate::text::{
    first_index, index_of, is_whitespace, lemma_first_index, lemma_index_of, trimmed_start,
};
use crate::toml::{
    bare_key_end, bare_value, ends_bare_value, ends_key, inline_value, is_key_char, key_token,
    quoted_value, starts_key, table_value, ValueView,
};
use crate::written::lemma_trimmed_gap;
use vstd::prelude::*;

verus! {

/// A value: a text between quotation marks, a word such as `true`, or a list of texts.
pub enum Value {
    Text(Seq<char>),
    Word(Seq<char>),
    List(Seq<Seq<char>>),
}

/// A key with its value, and the blanks around them.
pub struct Member {
    pub lead: Seq<char>,
    pub key: Seq<char>,
    pub before: Seq<char>,
    pub after: Seq<char>,
    pub value: Value,
    pub behind: Seq<char>,
}

/// Texts in writing, separated by commas.
pub open spec fn items_text(items: Seq<Seq<char>>) -> Seq<char>
    decreases items.len(),
{
    if items.len() == 0 {
        Seq::empty()
    } else if items.len() == 1 {
        in_quotation_marks(items[0])
    } else {
        in_quotation_marks(items[0]) + seq![',', ' '] + items_text(items.drop_first())
    }
}

/// A value in writing.
pub open spec fn value_text(value: Value) -> Seq<char> {
    match value {
        Value::Text(text) => in_quotation_marks(text),
        Value::Word(word) => word,
        Value::List(items) => seq!['['] + items_text(items) + seq![']'],
    }
}

/// What stands before the value of a member.
pub open spec fn member_head(m: Member) -> Seq<char> {
    m.lead + m.key + m.before + seq!['='] + m.after
}

/// A member in writing.
pub open spec fn member_text(m: Member) -> Seq<char> {
    member_head(m) + value_text(m.value) + m.behind
}

/// Members in writing, each with a comma behind it.
pub open spec fn listed_text(members: Seq<Member>) -> Seq<char>
    decreases members.len(),
{
    if members.len() == 0 {
        Seq::empty()
    } else {
        member_text(members[0]) + seq![','] + listed_text(members.drop_first())
    }
}

/// Members in writing, each with a comma before it.
pub open spec fn trailing_text(members: Seq<Member>) -> Seq<char>
    decreases members.len(),
{
    if members.len() == 0 {
        Seq::empty()
    } else {
        seq![','] + member_text(members[0]) + trailing_text(members.drop_first())
    }
}

/// A table in writing: members, one among them, and members behind it.
pub open spec fn table_text(before: Seq<Member>, m: Member, behind: Seq<Member>) -> Seq<char> {
    seq!['{'] + listed_text(before) + member_text(m) + trailing_text(behind) + seq!['}']
}

/// A text that stands between quotation marks as it is, and is read so.
pub open spec fn is_text(text: Seq<char>) -> bool {
    &&& reads_back(text)
    &&& forall|i: int|
        0 <= i < text.len() ==> #[trigger] text[i] != '"' && text[i] != '\\' && text[i] != '#'
            && text[i] != '\n' && text[i] != '\r'
}

/// A bare key, or a word: letters, digits, underscores and hyphens.
pub open spec fn is_bare(key: Seq<char>) -> bool {
    key.len() > 0 && forall|i: int| 0 <= i < key.len() ==> is_key_char(#[trigger] key[i])
}

/// A value that is written as it should be.
pub open spec fn is_value(value: Value) -> bool {
    match value {
        Value::Text(text) => is_text(text),
        Value::Word(word) => is_bare(word),
        Value::List(items) => forall|i: int| 0 <= i < items.len() ==> is_text(#[trigger] items[i]),
    }
}

/// A member that is written as it should be.
pub open spec fn is_member(m: Member) -> bool {
    &&& is_gap(m.lead) && is_gap(m.before) && is_gap(m.after) && is_gap(m.behind)
    &&& is_bare(m.key)
    &&& is_value(m.value)
}

/// Members that are written as they should be.
pub open spec fn are_members(members: Seq<Member>) -> bool {
    forall|i: int| 0 <= i < members.len() ==> is_member(#[trigger] members[i])
}

/// None of the members has a key.
pub open spec fn lacks_key(members: Seq<Member>, key: Seq<char>) -> bool {
    forall|i: int| 0 <= i < members.len() ==> (#[trigger] members[i]).key != key
}

// ---------------------------------------------------------------------------
// Looking for keys
// ---------------------------------------------------------------------------

/// Where no key begins, a search goes on.
proof fn lemma_skip(s: Seq<char>, key: Seq<char>, bare: bool, a: int, b: int)
    requires
        0 <= a <= b <= s.len(),
        forall|k: int| a <= k < b ==> #[trigger] s[k] != '"' && !is_key_char(s[k]),
    ensures
        inline_value(s, key, bare, a) == inline_value(s, key, bare, b),
{
    let p = starts_key(s);
    lemma_first_from(p, a, b, s.len() as int);
    if b == s.len() {
        lemma_first_index(p, a, s.len() as int);
        if let Some(i) = first_index(p, a, s.len() as int) {
            assert(p(i));
        }
    }
}

/// A search goes on where nothing is found.
proof fn lemma_first_from(p: spec_fn(int) -> bool, a: int, b: int, n: int)
    requires
        a <= b <= n,
        forall|k: int| a <= k < b ==> !(#[trigger] p(k)),
    ensures
        first_index(p, a, n) == first_index(p, b, n),
    decreases b - a,
{
    if a < b {
        assert(!p(a));
        lemma_first_from(p, a + 1, b, n);
    }
}

/// Blanks are passed over.
proof fn lemma_skip_gap(s: Seq<char>, key: Seq<char>, bare: bool, a: int, gap: Seq<char>)
    requires
        is_gap(gap),
        stands(s, a, gap),
    ensures
        inline_value(s, key, bare, a) == inline_value(s, key, bare, a + gap.len()),
{
    lemma_stands(s, a, gap);
    assert forall|k: int| a <= k < a + gap.len() implies #[trigger] s[k] != '"' && !is_key_char(
        s[k],
    ) by {
        assert(s[k] == gap[k - a]);
    }
    lemma_skip(s, key, bare, a, a + gap.len());
}

/// What follows blanks.
pub proof fn lemma_behind_gap(s: Seq<char>, a: int, gap: Seq<char>)
    requires
        is_gap(gap),
        stands(s, a, gap),
        a + gap.len() < s.len(),
        !is_whitespace(s[a + gap.len()]),
    ensures
        trimmed_start(s.skip(a)) == s.skip(a + gap.len()),
{
    let rest = s.skip(a + gap.len());
    assert(rest[0] == s[a + gap.len()]);
    assert(s.skip(a) =~= gap + rest) by {
        lemma_stands(s, a, gap);
        assert forall|k: int| 0 <= k < gap.len() implies s.skip(a)[k] == #[trigger] gap[k] by {
            assert(s[a + k] == gap[k]);
        }
    }
    lemma_trimmed_lead(gap, rest);
}

/// A text between quotation marks is found as it stands.
pub proof fn lemma_text_token(s: Seq<char>, v: int, text: Seq<char>, to: int)
    requires
        is_text(text),
        stands(s, v, in_quotation_marks(text)),
        v + text.len() + 2 <= to,
    ensures
        json_token(s, v, to) == Some(
            TokenView {
                value: text,
                inner_start: v + 1,
                inner_end: v + 1 + text.len(),
                outer_end: v + 2 + text.len(),
            },
        ),
{
    let t = in_quotation_marks(text);
    let end = v + 1 + text.len();
    lemma_stands(s, v, t);
    assert(s[v] == t[0]);
    assert(s[end] == t[t.len() - 1]);
    lemma_index_of(s, '"', v, to);
    assert(index_of(s, '"', v, to) == Some(v));
    let p = closes_string(s, v + 1);
    lemma_first_index(p, v + 1, to);
    assert forall|k: int| v + 1 <= k < end implies !(#[trigger] p(k)) && s[k] != '\\' by {
        assert(s[k] == t[k - v]);
        assert(t[k - v] == text[k - v - 1]);
    }
    assert(end > v + 1 ==> s[end - 1] != '\\') by {
        if end > v + 1 {
            assert(!p(end - 1));
        }
    }
    assert(!escaped_at(s, v + 1, end));
    assert(p(end));
    assert(first_index(p, v + 1, to) == Some(end));
    assert(s.subrange(v, end + 1) == t);
}

/// A text that is no key is passed over.
proof fn lemma_skip_text(s: Seq<char>, key: Seq<char>, bare: bool, v: int, text: Seq<char>)
    requires
        is_text(text),
        stands(s, v, in_quotation_marks(text)),
        ({
            let rest = trimmed_start(s.skip(v + text.len() + 2));
            rest.len() == 0 || rest[0] != '='
        }),
    ensures
        inline_value(s, key, bare, v) == inline_value(s, key, bare, v + text.len() + 2),
{
    lemma_text_token(s, v, text, s.len() as int);
    lemma_stands(s, v, in_quotation_marks(text));
    assert(s[v] == in_quotation_marks(text)[0]);
    let p = starts_key(s);
    assert(p(v));
    assert(first_index(p, v, s.len() as int) == Some(v));
}

/// A bare key or a word is found as it stands.
proof fn lemma_word_token(s: Seq<char>, v: int, word: Seq<char>)
    requires
        is_bare(word),
        stands(s, v, word),
        v + word.len() < s.len() ==> !is_key_char(s[v + word.len()]),
    ensures
        key_token(s, v) == Some(
            TokenView {
                value: word,
                inner_start: v,
                inner_end: v + word.len(),
                outer_end: v + word.len(),
            },
        ),
{
    let end = v + word.len();
    lemma_stands(s, v, word);
    assert(s[v] == word[0]);
    let p = starts_key(s);
    assert(p(v));
    assert(first_index(p, v, s.len() as int) == Some(v));
    let q = ends_key(s);
    assert forall|k: int| v <= k < end implies !(#[trigger] q(k)) by {
        assert(s[k] == word[k - v]);
    }
    lemma_first_from(q, v, end, s.len() as int);
    lemma_first_index(q, end, s.len() as int);
    if end < s.len() {
        assert(q(end));
    }
    assert(bare_key_end(s, v) == end);
}

/// A word that is no key is passed over.
proof fn lemma_skip_word(s: Seq<char>, key: Seq<char>, bare: bool, v: int, word: Seq<char>)
    requires
        is_bare(word),
        stands(s, v, word),
        v + word.len() < s.len() ==> !is_key_char(s[v + word.len()]),
        ({
            let rest = trimmed_start(s.skip(v + word.len()));
            rest.len() == 0 || rest[0] != '='
        }),
    ensures
        inline_value(s, key, bare, v) == inline_value(s, key, bare, v + word.len()),
{
    lemma_word_token(s, v, word);
}

/// Texts in a list are passed over.
proof fn lemma_skip_items(s: Seq<char>, key: Seq<char>, bare: bool, v: int, items: Seq<Seq<char>>)
    requires
        forall|i: int| 0 <= i < items.len() ==> is_text(#[trigger] items[i]),
        stands(s, v, items_text(items)),
        v + items_text(items).len() < s.len(),
        s[v + items_text(items).len()] == ']',
    ensures
        inline_value(s, key, bare, v) == inline_value(s, key, bare, v + items_text(items).len()),
    decreases items.len(),
{
    if items.len() > 0 {
        let t = in_quotation_marks(items[0]);
        let p = v + t.len();
        if items.len() == 1 {
            assert(s.skip(p)[0] == s[p]);
            lemma_skip_text(s, key, bare, v, items[0]);
        } else {
            let rest = items.drop_first();
            assert forall|i: int| 0 <= i < rest.len() implies is_text(#[trigger] rest[i]) by {
                assert(rest[i] == items[i + 1]);
            }
            lemma_stands_parts(s, v, t + seq![',', ' '], items_text(rest));
            lemma_stands_parts(s, v, t, seq![',', ' ']);
            lemma_stands(s, p, seq![',', ' ']);
            assert(s[p] == seq![',', ' '][0]);
            assert(s[p + 1] == seq![',', ' '][1]);
            assert(s.skip(p)[0] == s[p]);
            lemma_skip_text(s, key, bare, v, items[0]);
            lemma_skip(s, key, bare, p, p + 2);
            lemma_skip_items(s, key, bare, p + 2, rest);
        }
    }
}

/// What can follow a member: a comma or the end of the table.
pub open spec fn ends_member(s: Seq<char>, end: int) -> bool {
    0 <= end < s.len() && (s[end] == ',' || s[end] == '}')
}

/// A value is passed over, with the blanks behind it.
proof fn lemma_skip_value(
    s: Seq<char>,
    key: Seq<char>,
    bare: bool,
    v: int,
    value: Value,
    behind: Seq<char>,
)
    requires
        is_value(value),
        is_gap(behind),
        stands(s, v, value_text(value) + behind),
        ends_member(s, v + (value_text(value) + behind).len()),
    ensures
        inline_value(s, key, bare, v) == inline_value(
            s,
            key,
            bare,
            v + (value_text(value) + behind).len(),
        ),
{
    let t = value_text(value);
    let e = v + t.len();
    lemma_stands_parts(s, v, t, behind);
    lemma_skip_gap(s, key, bare, e, behind);
    lemma_behind_gap(s, e, behind);
    lemma_stands(s, e, behind);
    assert(behind.len() > 0 ==> s[e] == behind[0]);
    match value {
        Value::Text(text) => {
            lemma_skip_text(s, key, bare, v, text);
        },
        Value::Word(word) => {
            lemma_skip_word(s, key, bare, v, word);
        },
        Value::List(items) => {
            lemma_stands_parts(s, v, seq!['['] + items_text(items), seq![']']);
            lemma_stands_parts(s, v, seq!['['], items_text(items));
            lemma_stands(s, v, seq!['[']);
            lemma_stands(s, e - 1, seq![']']);
            assert(s[v] == seq!['['][0]);
            assert(s[e - 1] == seq![']'][0]);
            lemma_skip(s, key, bare, v, v + 1);
            lemma_skip_items(s, key, bare, v + 1, items);
            lemma_skip(s, key, bare, e - 1, e);
        },
    }
}

/// The key of a member is found, and an equals sign behind it.
proof fn lemma_member_key(s: Seq<char>, p: int, m: Member)
    requires
        is_member(m),
        stands(s, p, member_text(m)),
    ensures
        ({
            let a = p + m.lead.len();
            let b = a + m.key.len();
            let c = b + m.before.len();
            let v = c + 1 + m.after.len();
            &&& stands(s, p, m.lead)
            &&& stands(s, a, m.key)
            &&& stands(s, b, m.before)
            &&& stands(s, c + 1, m.after)
            &&& v == p + member_head(m).len()
            &&& stands(s, v, value_text(m.value) + m.behind)
            &&& c < s.len()
            &&& s[c] == '='
            &&& !is_key_char(s[b])
            &&& trimmed_start(s.skip(b)) == s.skip(c)
        }),
{
    let a = p + m.lead.len();
    let b = a + m.key.len();
    let c = b + m.before.len();
    assert(member_text(m) =~= member_head(m) + (value_text(m.value) + m.behind));
    lemma_stands_parts(s, p, member_head(m), value_text(m.value) + m.behind);
    lemma_stands_parts(s, p, m.lead + m.key + m.before + seq!['='], m.after);
    lemma_stands_parts(s, p, m.lead + m.key + m.before, seq!['=']);
    lemma_stands_parts(s, p, m.lead + m.key, m.before);
    lemma_stands_parts(s, p, m.lead, m.key);
    lemma_stands(s, c, seq!['=']);
    assert(s[c] == seq!['='][0]);
    lemma_stands(s, b, m.before);
    assert(m.before.len() > 0 ==> s[b] == m.before[0]);
    lemma_behind_gap(s, b, m.before);
}

/// A member with another key is passed over.
proof fn lemma_skip_member(s: Seq<char>, key: Seq<char>, bare: bool, p: int, m: Member)
    requires
        is_member(m),
        m.key != key,
        stands(s, p, member_text(m)),
        ends_member(s, p + member_text(m).len()),
    ensures
        inline_value(s, key, bare, p) == inline_value(s, key, bare, p + member_text(m).len()),
{
    let a = p + m.lead.len();
    let b = a + m.key.len();
    let c = b + m.before.len();
    let v = c + 1 + m.after.len();
    lemma_member_key(s, p, m);
    lemma_skip_gap(s, key, bare, p, m.lead);
    lemma_word_token(s, a, m.key);
    assert(inline_value(s, key, bare, a) == inline_value(s, key, bare, b));
    lemma_skip_gap(s, key, bare, b, m.before);
    lemma_skip(s, key, bare, c, c + 1);
    lemma_skip_gap(s, key, bare, c + 1, m.after);
    lemma_skip_value(s, key, bare, v, m.value, m.behind);
}

/// A member with the key is where the search ends.
proof fn lemma_hit_member(s: Seq<char>, bare: bool, p: int, m: Member)
    requires
        is_member(m),
        stands(s, p, member_text(m)),
        ends_member(s, p + member_text(m).len()),
    ensures
        ({
            let v = p + member_head(m).len();
            inline_value(s, m.key, bare, p) == (match table_value(s.skip(v), bare) {
                Some(value) => Some(
                    ValueView {
                        value: value.value,
                        start: v + value.start,
                        end: v + value.end,
                    },
                ),
                None => None,
            })
        }),
{
    let a = p + m.lead.len();
    let b = a + m.key.len();
    let c = b + m.before.len();
    let v = c + 1 + m.after.len();
    lemma_member_key(s, p, m);
    lemma_skip_gap(s, m.key, bare, p, m.lead);
    lemma_word_token(s, a, m.key);
    let after_key = s.skip(c);
    assert(after_key[0] == '=');
    assert(after_key.skip(1) =~= s.skip(c + 1));
    lemma_value_start(s, v, m.value, m.behind);
    lemma_behind_gap(s, c + 1, m.after);
    assert(s.skip(v).len() == s.len() - v);
}

/// A value begins with no white space.
proof fn lemma_value_start(s: Seq<char>, v: int, value: Value, behind: Seq<char>)
    requires
        is_value(value),
        stands(s, v, value_text(value) + behind),
    ensures
        v < s.len(),
        !is_whitespace(s[v]),
        value_text(value).len() > 0,
{
    let t = value_text(value);
    lemma_stands_parts(s, v, t, behind);
    lemma_stands(s, v, t);
    match value {
        Value::Text(text) => {
            assert(t[0] == '"');
        },
        Value::Word(word) => {
            assert(is_key_char(word[0]));
        },
        Value::List(items) => {
            assert(t[0] == '[');
        },
    }
    assert(s[v] == t[0]);
}

/// A text is read as it stands.
proof fn lemma_text_value(s: Seq<char>, bare: bool, v: int, text: Seq<char>)
    requires
        is_text(text),
        stands(s, v, in_quotation_marks(text)),
    ensures
        table_value(s.skip(v), bare) == Some(
            ValueView { value: text, start: 1, end: 1 + text.len() as int },
        ),
{
    let u = s.skip(v);
    let t = in_quotation_marks(text);
    assert(u.subrange(0, t.len() as int) =~= s.subrange(v, v + t.len()));
    lemma_text_token(u, 0, text, u.len() as int);
}

/// A word is read as it stands, where words count.
proof fn lemma_word_value(s: Seq<char>, v: int, word: Seq<char>, behind: Seq<char>)
    requires
        is_bare(word),
        is_gap(behind),
        stands(s, v, word + behind),
        ends_member(s, v + (word + behind).len()),
    ensures
        table_value(s.skip(v), true) == Some(
            ValueView { value: word, start: 0, end: word.len() as int },
        ),
{
    let u = s.skip(v);
    let n = (word + behind).len() as int;
    lemma_stands(s, v, word + behind);
    assert forall|k: int| 0 <= k < n implies u[k] == (word + behind)[k] by {
        assert(s[v + k] == (word + behind)[k]);
    }
    assert(u[0] == word[0]);
    assert(is_key_char(word[0]));
    lemma_json_token(u, 0, u.len() as int);
    assert(quoted_value(u) is None);
    assert(trimmed_start(u) == u);
    let p = ends_bare_value(u);
    lemma_first_index(p, 0, u.len() as int);
    assert forall|k: int| 0 <= k < n implies !(#[trigger] p(k)) by {
        assert(u[k] == (word + behind)[k]);
        if k < word.len() {
            assert((word + behind)[k] == word[k]);
        } else {
            assert((word + behind)[k] == behind[k - word.len()]);
        }
    }
    assert(u[n] == s[v + n]);
    assert(p(n));
    assert(first_index(p, 0, u.len() as int) == Some(n));
    let inside = u.subrange(0, n);
    assert(inside =~= word + behind);
    let w = word.len() as int;
    assert(inside[w - 1] == word[w - 1]);
    assert forall|k: int| w <= k < inside.len() implies is_whitespace(#[trigger] inside[k]) by {
        assert(inside[k] == behind[k - w]);
    }
    lemma_trimmed_gap(inside, w);
    assert(inside.take(w) =~= word);
    assert(bare_value(u) == Some(ValueView { value: word, start: 0, end: w }));
}

/// Members before the key are passed over.
proof fn lemma_skip_listed(s: Seq<char>, key: Seq<char>, bare: bool, p: int, members: Seq<Member>)
    requires
        are_members(members),
        lacks_key(members, key),
        stands(s, p, listed_text(members)),
    ensures
        inline_value(s, key, bare, p) == inline_value(s, key, bare, p + listed_text(members).len()),
    decreases members.len(),
{
    if members.len() > 0 {
        let m = members[0];
        let rest = members.drop_first();
        let t = member_text(m);
        assert forall|i: int| 0 <= i < rest.len() implies is_member(#[trigger] rest[i])
            && rest[i].key != key by {
            assert(rest[i] == members[i + 1]);
        }
        lemma_stands_parts(s, p, t + seq![','], listed_text(rest));
        lemma_stands_parts(s, p, t, seq![',']);
        lemma_stands(s, p + t.len(), seq![',']);
        assert(s[p + t.len()] == seq![','][0]);
        lemma_skip_member(s, key, bare, p, m);
        lemma_skip(s, key, bare, p + t.len(), p + t.len() + 1);
        lemma_skip_listed(s, key, bare, p + t.len() + 1, rest);
    }
}

/// Members behind the key are passed over.
proof fn lemma_skip_trailing(s: Seq<char>, key: Seq<char>, bare: bool, p: int, members: Seq<Member>)
    requires
        are_members(members),
        lacks_key(members, key),
        stands(s, p, trailing_text(members)),
        p + trailing_text(members).len() < s.len(),
        s[p + trailing_text(members).len()] == '}',
    ensures
        inline_value(s, key, bare, p) == inline_value(
            s,
            key,
            bare,
            p + trailing_text(members).len(),
        ),
    decreases members.len(),
{
    if members.len() > 0 {
        let m = members[0];
        let rest = members.drop_first();
        let t = member_text(m);
        assert forall|i: int| 0 <= i < rest.len() implies is_member(#[trigger] rest[i])
            && rest[i].key != key by {
            assert(rest[i] == members[i + 1]);
        }
        lemma_stands_parts(s, p, seq![','] + t, trailing_text(rest));
        lemma_stands_parts(s, p, seq![','], t);
        lemma_stands(s, p, seq![',']);
        assert(s[p] == seq![','][0]);
        lemma_skip(s, key, bare, p, p + 1);
        lemma_trailing_start(s, p + 1 + t.len(), rest);
        lemma_skip_member(s, key, bare, p + 1, m);
        lemma_skip_trailing(s, key, bare, p + 1 + t.len(), rest);
    }
}

/// Behind a member stands a comma, or the end of the table.
proof fn lemma_trailing_start(s: Seq<char>, p: int, members: Seq<Member>)
    requires
        stands(s, p, trailing_text(members)),
        p + trailing_text(members).len() < s.len(),
        s[p + trailing_text(members).len()] == '}',
    ensures
        ends_member(s, p),
{
    if members.len() > 0 {
        let t = member_text(members[0]);
        lemma_stands_parts(s, p, seq![','] + t, trailing_text(members.drop_first()));
        lemma_stands_parts(s, p, seq![','], t);
        lemma_stands(s, p, seq![',']);
        assert(s[p] == seq![','][0]);
    }
}

/// Where the parts of a table stand, with blanks behind it.
proof fn lemma_table_parts(before: Seq<Member>, m: Member, behind: Seq<Member>, gap: Seq<char>)
    ensures
        ({
            let s = table_text(before, m, behind) + gap;
            let p = 1 + listed_text(before).len() as int;
            let q = p + member_text(m).len();
            let e = q + trailing_text(behind).len();
            &&& s[0] == '{'
            &&& stands(s, 1, listed_text(before))
            &&& stands(s, p, member_text(m))
            &&& stands(s, q, trailing_text(behind))
            &&& e < s.len()
            &&& s[e] == '}'
            &&& stands(s, e + 1, gap)
            &&& e + 1 + gap.len() == s.len()
        }),
{
    let table = table_text(before, m, behind);
    let s = table + gap;
    let l = listed_text(before);
    let t = member_text(m);
    let r = trailing_text(behind);
    assert(s.subrange(0, s.len() as int) =~= s);
    lemma_stands_parts(s, 0, table, gap);
    lemma_stands_parts(s, 0, seq!['{'] + l + t + r, seq!['}']);
    lemma_stands_parts(s, 0, seq!['{'] + l + t, r);
    lemma_stands_parts(s, 0, seq!['{'] + l, t);
    lemma_stands_parts(s, 0, seq!['{'], l);
    lemma_stands(s, 0, seq!['{']);
    assert(s[0] == seq!['{'][0]);
    let e = (seq!['{'] + l + t + r).len() as int;
    lemma_stands(s, e, seq!['}']);
    assert(s[e] == seq!['}'][0]);
}

/// A key that a table lacks has no value there.
pub proof fn lemma_table_lacks(
    before: Seq<Member>,
    m: Member,
    behind: Seq<Member>,
    gap: Seq<char>,
    key: Seq<char>,
    bare: bool,
)
    requires
        are_members(before),
        is_member(m),
        are_members(behind),
        is_gap(gap),
        lacks_key(before, key),
        m.key != key,
        lacks_key(behind, key),
    ensures
        inline_value(table_text(before, m, behind) + gap, key, bare, 0) is None,
{
    let s = table_text(before, m, behind) + gap;
    let p = 1 + listed_text(before).len() as int;
    let q = p + member_text(m).len();
    let e = q + trailing_text(behind).len();
    lemma_table_parts(before, m, behind, gap);
    lemma_skip(s, key, bare, 0, 1);
    lemma_skip_listed(s, key, bare, 1, before);
    lemma_trailing_start(s, q, behind);
    lemma_skip_member(s, key, bare, p, m);
    lemma_skip_trailing(s, key, bare, q, behind);
    lemma_skip(s, key, bare, e, e + 1);
    lemma_skip_gap(s, key, bare, e + 1, gap);
}

/// The first member of a table with a key has its value: a text, or a word where
/// words count.
pub proof fn lemma_table_value(
    before: Seq<Member>,
    m: Member,
    behind: Seq<Member>,
    gap: Seq<char>,
    bare: bool,
)
    requires
        are_members(before),
        is_member(m),
        are_members(behind),
        is_gap(gap),
        lacks_key(before, m.key),
    ensures
        ({
            let s = table_text(before, m, behind) + gap;
            let v = 1 + listed_text(before).len() + member_head(m).len() as int;
            &&& m.value matches Value::Text(text) ==> inline_value(s, m.key, bare, 0) == Some(
                (ValueView { value: text, start: v + 1, end: v + 1 + text.len() }),
            )
            &&& m.value matches Value::Word(word) ==> bare ==> inline_value(s, m.key, bare, 0)
                == Some((ValueView { value: word, start: v, end: v + word.len() }))
        }),
{
    let s = table_text(before, m, behind) + gap;
    let p = 1 + listed_text(before).len() as int;
    let q = p + member_text(m).len();
    let v = p + member_head(m).len();
    lemma_table_parts(before, m, behind, gap);
    lemma_skip(s, m.key, bare, 0, 1);
    lemma_skip_listed(s, m.key, bare, 1, before);
    lemma_trailing_start(s, q, behind);
    lemma_hit_member(s, bare, p, m);
    lemma_member_key(s, p, m);
    match m.value {
        Value::Text(text) => {
            lemma_stands_parts(s, v, in_quotation_marks(text), m.behind);
            lemma_text_value(s, bare, v, text);
        },
        Value::Word(word) => {
            if bare {
                lemma_word_value(s, v, word, m.behind);
            }
        },
        _ => {},
    }
}

} // verus!
