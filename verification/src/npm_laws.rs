//! What is read of npm manifests as they are written.

use crate::edits::{in_quotation_marks, reads_back};
use crate::entries::{is_unsupported_npm_spec, npm_section_entries, object_entries, object_member};
use crate::manifest::{
    entry_dependencies, manifest_dependencies, plain_dependency, DependencyView, ManifestKind,
    Registry,
};
use crate::markers::{lemma_stands, lemma_stands_parts, stands};
use crate::scan::{
    closes_string, closing_bracket, escaped_at, is_not_space, json_colon, json_token, object_end,
    past_space, top_level_object, TokenView,
};
use crate::text::{
    byte_len, byte_offset, first_index, index_of, is_ascii_whitespace, lemma_encode_concat,
    lemma_first_index, lemma_index_of, lowered,
};
use vstd::prelude::*;

verus! {

// ---------------------------------------------------------------------------
// JSON as it is written
// ---------------------------------------------------------------------------

/// A piece of JSON: a string, or a character outside strings.
pub enum Piece {
    Text(Seq<char>),
    Mark(char),
}

/// A piece in writing.
pub open spec fn piece_text(piece: Piece) -> Seq<char> {
    match piece {
        Piece::Text(text) => in_quotation_marks(text),
        Piece::Mark(c) => seq![c],
    }
}

/// Pieces in writing.
pub open spec fn pieces_text(pieces: Seq<Piece>) -> Seq<char>
    decreases pieces.len(),
{
    if pieces.len() == 0 {
        Seq::empty()
    } else {
        piece_text(pieces[0]) + pieces_text(pieces.drop_first())
    }
}

/// A text that stands between quotation marks as it is, and is read so.
pub open spec fn is_plain(text: Seq<char>) -> bool {
    &&& reads_back(text)
    &&& forall|i: int| 0 <= i < text.len() ==> #[trigger] text[i] != '"' && text[i] != '\\'
}

/// A piece that is written as it should be.
pub open spec fn is_piece(piece: Piece) -> bool {
    match piece {
        Piece::Text(text) => is_plain(text),
        Piece::Mark(c) => c != '"',
    }
}

/// Pieces that are written as they should be.
pub open spec fn are_pieces(pieces: Seq<Piece>) -> bool {
    forall|i: int| 0 <= i < pieces.len() ==> is_piece(#[trigger] pieces[i])
}

/// How many objects are open behind a piece, where `depth` are before it.
pub open spec fn depth_behind(piece: Piece, depth: nat) -> nat {
    if piece == Piece::Mark('{') {
        depth + 1
    } else if piece == Piece::Mark('}') && depth > 0 {
        (depth - 1) as nat
    } else {
        depth
    }
}

/// How many objects are open behind pieces.
pub open spec fn depth_after(pieces: Seq<Piece>, depth: nat) -> nat
    decreases pieces.len(),
{
    if pieces.len() == 0 {
        depth
    } else {
        depth_after(pieces.drop_first(), depth_behind(pieces[0], depth))
    }
}

/// No string directly in the outermost object is `name`.
pub open spec fn lacks_name(pieces: Seq<Piece>, name: Seq<char>, depth: nat) -> bool
    decreases pieces.len(),
{
    pieces.len() > 0 ==> {
        &&& depth == 1 ==> pieces[0] != Piece::Text(name)
        &&& lacks_name(pieces.drop_first(), name, depth_behind(pieces[0], depth))
    }
}

/// Spaces, tabs and line breaks.
pub open spec fn is_space(space: Seq<char>) -> bool {
    forall|i: int| 0 <= i < space.len() ==> is_ascii_whitespace(#[trigger] space[i])
}

/// A package and its version, with the space around them.
pub struct Pair {
    pub lead: Seq<char>,
    pub name: Seq<char>,
    pub before: Seq<char>,
    pub after: Seq<char>,
    pub version: Seq<char>,
    pub behind: Seq<char>,
}

/// What stands before the version of a pair.
pub open spec fn pair_head(pair: Pair) -> Seq<char> {
    pair.lead + in_quotation_marks(pair.name) + pair.before + seq![':'] + pair.after
}

/// A pair in writing.
pub open spec fn pair_text(pair: Pair) -> Seq<char> {
    pair_head(pair) + in_quotation_marks(pair.version) + pair.behind
}

/// Pairs in writing, separated by commas.
pub open spec fn pairs_text(pairs: Seq<Pair>) -> Seq<char>
    decreases pairs.len(),
{
    if pairs.len() == 0 {
        Seq::empty()
    } else if pairs.len() == 1 {
        pair_text(pairs[0])
    } else {
        pair_text(pairs[0]) + seq![','] + pairs_text(pairs.drop_first())
    }
}

/// A pair that is written as it should be.
pub open spec fn is_pair(pair: Pair) -> bool {
    &&& is_space(pair.lead) && is_space(pair.before) && is_space(pair.after) && is_space(
        pair.behind,
    )
    &&& is_plain(pair.name) && is_plain(pair.version)
}

/// Pairs that are written as they should be.
pub open spec fn are_pairs(pairs: Seq<Pair>) -> bool {
    forall|i: int| 0 <= i < pairs.len() ==> is_pair(#[trigger] pairs[i])
}

/// A version that the registry can have: it names no address, no file and no
/// repository.
pub open spec fn is_registry_version(version: Seq<char>) -> bool {
    &&& forall|i: int| 0 <= i < version.len() ==> #[trigger] version[i] != ':' && version[i] != '/'
    &&& version.len() > 0 ==> version[0] != 'g' && version[0] != 'G'
}

/// The dependencies of pairs, of which the first begins at the byte `at`.
pub open spec fn pair_dependencies(pairs: Seq<Pair>, section: Seq<char>, at: int) -> Seq<
    DependencyView,
>
    decreases pairs.len(),
{
    if pairs.len() == 0 {
        Seq::empty()
    } else {
        let pair = pairs[0];
        let start = at + byte_len(pair_head(pair)) + 1;
        seq![
            plain_dependency(
                pair.name,
                section,
                Registry::Npm,
                pair.version,
                start,
                start + byte_len(pair.version),
            ),
        ] + pair_dependencies(
            pairs.drop_first(),
            section,
            at + byte_len(pair_text(pair)) + 1,
        )
    }
}

/// An object in a manifest: the pieces before its name, the space around the colon,
/// its pairs, and the pieces behind it.
pub struct Section {
    pub pre: Seq<Piece>,
    pub before: Seq<char>,
    pub after: Seq<char>,
    pub pairs: Seq<Pair>,
    pub space: Seq<char>,
    pub post: Seq<Piece>,
}

/// What stands before the pairs of a section.
pub open spec fn section_head(section: Section, name: Seq<char>) -> Seq<char> {
    pieces_text(section.pre) + in_quotation_marks(name) + section.before + seq![':'] + section.after
        + seq!['{']
}

/// A manifest with a section.
pub open spec fn section_text(section: Section, name: Seq<char>) -> Seq<char> {
    section_head(section, name) + pairs_text(section.pairs) + section.space + seq!['}']
        + pieces_text(section.post)
}

/// A section of the outermost object, which is the first with its name.
pub open spec fn is_section(section: Section, name: Seq<char>) -> bool {
    &&& are_pieces(section.pre)
    &&& depth_after(section.pre, 0) == 1
    &&& lacks_name(section.pre, name, 0)
    &&& is_plain(name)
    &&& is_space(section.before) && is_space(section.after) && is_space(section.space)
    &&& are_pairs(section.pairs)
    &&& forall|i: int|
        0 <= i < section.pairs.len() ==> is_registry_version((#[trigger] section.pairs[i]).version)
}

/// A manifest without a section.
pub open spec fn is_without(pieces: Seq<Piece>, name: Seq<char>) -> bool {
    are_pieces(pieces) && lacks_name(pieces, name, 0)
}

// ---------------------------------------------------------------------------
// Finding sections
// ---------------------------------------------------------------------------

/// A text between quotation marks is found as it stands.
pub(crate) proof fn lemma_token(s: Seq<char>, v: int, text: Seq<char>, to: int)
    requires
        is_plain(text),
        stands(s, v, in_quotation_marks(text)),
        v + text.len() + 2 <= to,
    ensures
        json_token(s, v, to) == Some(
            TokenView {
                value: text,
                inner_start: v + 1,
                inner_end: v + 1 + text.len(),
                outer_end: v + 2 + text.len(),
            },
        ),
        s[v] == '"',
{
    let t = in_quotation_marks(text);
    let end = v + 1 + text.len();
    lemma_stands(s, v, t);
    assert(s[v] == t[0]);
    assert(s[end] == t[t.len() - 1]);
    lemma_index_of(s, '"', v, to);
    assert(index_of(s, '"', v, to) == Some(v));
    let p = closes_string(s, v + 1);
    lemma_first_index(p, v + 1, to);
    assert forall|k: int| v + 1 <= k < end implies !(#[trigger] p(k)) && s[k] != '\\' by {
        assert(s[k] == t[k - v]);
        assert(t[k - v] == text[k - v - 1]);
    }
    if end > v + 1 {
        assert(!p(end - 1));
    }
    assert(!escaped_at(s, v + 1, end));
    assert(p(end));
    assert(first_index(p, v + 1, to) == Some(end));
    assert(s.subrange(v, end + 1) == t);
}

/// A text between quotation marks is the next string behind space and marks.
proof fn lemma_next_token(s: Seq<char>, from: int, v: int, text: Seq<char>, to: int)
    requires
        0 <= from <= v,
        is_plain(text),
        stands(s, v, in_quotation_marks(text)),
        v + text.len() + 2 <= to,
        forall|k: int| from <= k < v ==> #[trigger] s[k] != '"',
    ensures
        json_token(s, from, to) == json_token(s, v, to),
{
    lemma_token(s, v, text, to);
    lemma_index_of(s, '"', from, to);
    lemma_index_of(s, '"', v, to);
}

/// Pieces without the name are passed over.
proof fn lemma_pieces(s: Seq<char>, name: Seq<char>, p: int, depth: nat, pieces: Seq<Piece>)
    requires
        are_pieces(pieces),
        lacks_name(pieces, name, depth),
        stands(s, p, pieces_text(pieces)),
    ensures
        top_level_object(s, name, p, depth) == top_level_object(
            s,
            name,
            p + pieces_text(pieces).len(),
            depth_after(pieces, depth),
        ),
    decreases pieces.len(),
{
    if pieces.len() > 0 {
        let rest = pieces.drop_first();
        let t = piece_text(pieces[0]);
        assert(is_piece(pieces[0]));
        assert forall|i: int| 0 <= i < rest.len() implies is_piece(#[trigger] rest[i]) by {
            assert(rest[i] == pieces[i + 1]);
        }
        lemma_stands_parts(s, p, t, pieces_text(rest));
        lemma_stands(s, p, t);
        match pieces[0] {
            Piece::Text(text) => {
                lemma_token(s, p, text, s.len() as int);
            },
            Piece::Mark(c) => {
                assert(s[p] == t[0]);
            },
        }
        lemma_pieces(s, name, p + t.len(), depth_behind(pieces[0], depth), rest);
    }
}

/// Space is passed over.
pub(crate) proof fn lemma_past(s: Seq<char>, from: int, space: Seq<char>, to: int)
    requires
        is_space(space),
        stands(s, from, space),
        from + space.len() < to <= s.len(),
        !is_ascii_whitespace(s[from + space.len()]),
    ensures
        past_space(s, from, to) == Some(from + space.len()),
{
    let p = is_not_space(s);
    let end = from + space.len();
    lemma_stands(s, from, space);
    lemma_first_index(p, from, to);
    assert forall|k: int| from <= k < end implies !(#[trigger] p(k)) by {
        assert(s[k] == space[k - from]);
    }
    assert(p(end));
}

/// Where nothing but strings and other marks stand, no brace is closed.
proof fn lemma_flat(s: Seq<char>, p: int, text: Seq<char>, depth: nat)
    requires
        stands(s, p, text),
        forall|i: int|
            0 <= i < text.len() ==> #[trigger] text[i] != '"' && text[i] != '{' && text[i] != '}',
    ensures
        closing_bracket(s, '{', '}', false, p, depth) == closing_bracket(
            s,
            '{',
            '}',
            false,
            p + text.len(),
            depth,
        ),
    decreases text.len(),
{
    if text.len() > 0 {
        let rest = text.drop_first();
        assert(text =~= seq![text[0]] + rest);
        lemma_stands_parts(s, p, seq![text[0]], rest);
        lemma_stands(s, p, text);
        assert(s[p] == text[0]);
        lemma_flat(s, p + 1, rest, depth);
    }
}

/// Where the parts of a pair stand.
proof fn lemma_pair_parts(s: Seq<char>, p: int, pair: Pair)
    requires
        stands(s, p, pair_text(pair)),
    ensures
        ({
            let a = p + pair.lead.len();
            let b = a + pair.name.len() + 2;
            let c = b + pair.before.len();
            let v = c + 1 + pair.after.len();
            let e = v + pair.version.len() + 2;
            &&& stands(s, p, pair.lead)
            &&& stands(s, a, in_quotation_marks(pair.name))
            &&& stands(s, b, pair.before)
            &&& c < s.len()
            &&& s[c] == ':'
            &&& stands(s, c, seq![':'])
            &&& stands(s, c + 1, pair.after)
            &&& v == p + pair_head(pair).len()
            &&& stands(s, v, in_quotation_marks(pair.version))
            &&& stands(s, e, pair.behind)
            &&& e + pair.behind.len() == p + pair_text(pair).len()
        }),
{
    let name = in_quotation_marks(pair.name);
    let version = in_quotation_marks(pair.version);
    let c = p + pair.lead.len() + name.len() + pair.before.len();
    lemma_stands_parts(s, p, pair_head(pair) + version, pair.behind);
    lemma_stands_parts(s, p, pair_head(pair), version);
    lemma_stands_parts(s, p, pair.lead + name + pair.before + seq![':'], pair.after);
    lemma_stands_parts(s, p, pair.lead + name + pair.before, seq![':']);
    lemma_stands_parts(s, p, pair.lead + name, pair.before);
    lemma_stands_parts(s, p, pair.lead, name);
    lemma_stands(s, c, seq![':']);
    assert(s[c] == seq![':'][0]);
}

/// Space holds no quotation marks and no braces.
proof fn lemma_space(s: Seq<char>, p: int, space: Seq<char>)
    requires
        is_space(space),
        stands(s, p, space),
    ensures
        forall|k: int| p <= k < p + space.len() ==> is_ascii_whitespace(#[trigger] s[k]),
        forall|i: int|
            0 <= i < space.len() ==> #[trigger] space[i] != '"' && space[i] != '{' && space[i]
                != '}',
{
    lemma_stands(s, p, space);
    assert forall|k: int| p <= k < p + space.len() implies is_ascii_whitespace(#[trigger] s[k]) by {
        assert(s[k] == space[k - p]);
    }
}

/// A pair closes no brace.
proof fn lemma_pair_bracket(s: Seq<char>, p: int, pair: Pair, depth: nat)
    requires
        is_pair(pair),
        stands(s, p, pair_text(pair)),
    ensures
        closing_bracket(s, '{', '}', false, p, depth) == closing_bracket(
            s,
            '{',
            '}',
            false,
            p + pair_text(pair).len(),
            depth,
        ),
{
    let a = p + pair.lead.len();
    let b = a + pair.name.len() + 2;
    let c = b + pair.before.len();
    let v = c + 1 + pair.after.len();
    let e = v + pair.version.len() + 2;
    lemma_pair_parts(s, p, pair);
    lemma_space(s, p, pair.lead);
    lemma_space(s, b, pair.before);
    lemma_space(s, c + 1, pair.after);
    lemma_space(s, e, pair.behind);
    lemma_flat(s, p, pair.lead, depth);
    lemma_token(s, a, pair.name, s.len() as int);
    lemma_flat(s, b, pair.before, depth);
    lemma_flat(s, c, seq![':'], depth);
    lemma_flat(s, c + 1, pair.after, depth);
    lemma_token(s, v, pair.version, s.len() as int);
    lemma_flat(s, e, pair.behind, depth);
}

/// Pairs close no brace.
proof fn lemma_pairs_bracket(s: Seq<char>, p: int, pairs: Seq<Pair>, depth: nat)
    requires
        are_pairs(pairs),
        stands(s, p, pairs_text(pairs)),
    ensures
        closing_bracket(s, '{', '}', false, p, depth) == closing_bracket(
            s,
            '{',
            '}',
            false,
            p + pairs_text(pairs).len(),
            depth,
        ),
    decreases pairs.len(),
{
    if pairs.len() == 1 {
        lemma_pair_bracket(s, p, pairs[0], depth);
    } else if pairs.len() > 1 {
        let t = pair_text(pairs[0]);
        let rest = pairs.drop_first();
        assert forall|i: int| 0 <= i < rest.len() implies is_pair(#[trigger] rest[i]) by {
            assert(rest[i] == pairs[i + 1]);
        }
        lemma_stands_parts(s, p, t + seq![','], pairs_text(rest));
        lemma_stands_parts(s, p, t, seq![',']);
        lemma_pair_bracket(s, p, pairs[0], depth);
        lemma_flat(s, p + t.len(), seq![','], depth);
        lemma_pairs_bracket(s, p + t.len() + 1, rest, depth);
    }
}

/// Where the parts of a section stand.
proof fn lemma_section_parts(section: Section, name: Seq<char>)
    ensures
        ({
            let s = section_text(section, name);
            let a = pieces_text(section.pre).len() as int;
            let b = a + name.len() + 2;
            let c = b + section.before.len();
            let d = c + 1 + section.after.len();
            let e = d + 1 + pairs_text(section.pairs).len();
            let f = e + section.space.len();
            &&& stands(s, 0, pieces_text(section.pre))
            &&& stands(s, a, in_quotation_marks(name))
            &&& stands(s, b, section.before)
            &&& c < s.len() && s[c] == ':'
            &&& stands(s, c + 1, section.after)
            &&& d < s.len() && s[d] == '{'
            &&& d + 1 == section_head(section, name).len()
            &&& stands(s, 0, section_head(section, name))
            &&& stands(s, d + 1, pairs_text(section.pairs))
            &&& stands(s, e, section.space)
            &&& f < s.len() && s[f] == '}'
        }),
{
    let s = section_text(section, name);
    let pre = pieces_text(section.pre);
    let quoted = in_quotation_marks(name);
    let head = section_head(section, name);
    let pairs = pairs_text(section.pairs);
    let post = pieces_text(section.post);
    assert(s.subrange(0, s.len() as int) =~= s);
    lemma_stands_parts(s, 0, head + pairs + section.space + seq!['}'], post);
    lemma_stands_parts(s, 0, head + pairs + section.space, seq!['}']);
    lemma_stands_parts(s, 0, head + pairs, section.space);
    lemma_stands_parts(s, 0, head, pairs);
    lemma_stands_parts(s, 0, pre + quoted + section.before + seq![':'] + section.after, seq!['{']);
    lemma_stands_parts(s, 0, pre + quoted + section.before + seq![':'], section.after);
    lemma_stands_parts(s, 0, pre + quoted + section.before, seq![':']);
    lemma_stands_parts(s, 0, pre + quoted, section.before);
    lemma_stands_parts(s, 0, pre, quoted);
    let c = (pre + quoted + section.before).len() as int;
    let d = c + 1 + section.after.len();
    let f = (head + pairs + section.space).len() as int;
    lemma_stands(s, c, seq![':']);
    lemma_stands(s, d, seq!['{']);
    lemma_stands(s, f, seq!['}']);
    assert(s[c] == seq![':'][0]);
    assert(s[d] == seq!['{'][0]);
    assert(s[f] == seq!['}'][0]);
}

/// The object of a section is closed behind its pairs.
#[verifier::rlimit(60)]
proof fn lemma_section_closed(section: Section, name: Seq<char>)
    requires
        is_section(section, name),
    ensures
        ({
            let d = section_head(section, name).len() - 1;
            let f = d + 1 + pairs_text(section.pairs).len() + section.space.len();
            object_end(section_text(section, name), d) == Some(f)
        }),
{
    let s = section_text(section, name);
    let a = pieces_text(section.pre).len() as int;
    let d = a + name.len() + 2 + section.before.len() + 1 + section.after.len();
    let e = d + 1 + pairs_text(section.pairs).len();
    let f = e + section.space.len();
    lemma_section_parts(section, name);
    lemma_pairs_bracket(s, d + 1, section.pairs, 1);
    lemma_space(s, e, section.space);
    lemma_flat(s, e, section.space, 1);
    assert(closing_bracket(s, '{', '}', false, d, 0) == closing_bracket(
        s,
        '{',
        '}',
        false,
        d + 1,
        1,
    ));
    assert(closing_bracket(s, '{', '}', false, f, 1) == Some(f));
}

/// A section is found.
#[verifier::rlimit(60)]
proof fn lemma_section_found(section: Section, name: Seq<char>)
    requires
        is_section(section, name),
    ensures
        ({
            let d = section_head(section, name).len() - 1;
            let f = d + 1 + pairs_text(section.pairs).len() + section.space.len();
            top_level_object(section_text(section, name), name, 0, 0) == Some((d, f))
        }),
{
    let s = section_text(section, name);
    let n = s.len() as int;
    let a = pieces_text(section.pre).len() as int;
    let b = a + name.len() + 2;
    let c = b + section.before.len();
    lemma_section_parts(section, name);
    lemma_section_closed(section, name);
    lemma_pieces(s, name, 0, 0, section.pre);
    lemma_token(s, a, name, n);
    lemma_past(s, b, section.before, n);
    assert(json_colon(s, b, n) == Some(c));
    lemma_past(s, c + 1, section.after, n);
}

/// A section that is not there is not found.
proof fn lemma_section_absent(pieces: Seq<Piece>, name: Seq<char>)
    requires
        is_without(pieces, name),
    ensures
        npm_section_entries(pieces_text(pieces), name).len() == 0,
{
    let s = pieces_text(pieces);
    assert(s.subrange(0, s.len() as int) =~= s);
    lemma_pieces(s, name, 0, 0, pieces);
}

// ---------------------------------------------------------------------------
// Reading pairs
// ---------------------------------------------------------------------------

/// Versions of the registry are supported.
proof fn lemma_supported(version: Seq<char>)
    requires
        is_registry_version(version),
    ensures
        !is_unsupported_npm_spec(version),
{
    reveal_strlit("file:");
    reveal_strlit("link:");
    reveal_strlit("workspace:");
    reveal_strlit("git:");
    reveal_strlit("git+");
    reveal_strlit("github:");
    reveal_strlit("http:");
    reveal_strlit("https:");
    reveal_strlit("npm:");
    let l = lowered(version);
    assert forall|i: int| 0 <= i < version.len() implies l[i] != ':' by {
        assert(version[i] != ':');
    }
    if "file:"@.is_prefix_of(l) {
        assert("file:"@[4] == l[4]);
    }
    if "link:"@.is_prefix_of(l) {
        assert("link:"@[4] == l[4]);
    }
    if "workspace:"@.is_prefix_of(l) {
        assert("workspace:"@[9] == l[9]);
    }
    if "http:"@.is_prefix_of(l) {
        assert("http:"@[4] == l[4]);
    }
    if "https:"@.is_prefix_of(l) {
        assert("https:"@[5] == l[5]);
    }
    if "npm:"@.is_prefix_of(l) {
        assert("npm:"@[3] == l[3]);
    }
    if "git:"@.is_prefix_of(l) {
        assert("git:"@[0] == l[0]);
    }
    if "git+"@.is_prefix_of(l) {
        assert("git+"@[0] == l[0]);
    }
    if "github:"@.is_prefix_of(l) {
        assert("github:"@[0] == l[0]);
    }
    if version.contains('/') {
        let i = choose|i: int| 0 <= i < version.len() && version[i] == '/';
        assert(version[i] != '/');
    }
}

/// A pair is read where it stands.
proof fn lemma_pair_read(s: Seq<char>, p: int, pair: Pair, end: int)
    requires
        is_pair(pair),
        stands(s, p, pair_text(pair)),
        p + pair_text(pair).len() <= end <= s.len(),
    ensures
        object_member(s, p, end) matches Some((name, value)) && name.value == pair.name
            && value.value == pair.version && value.inner_start == p + pair_head(pair).len() + 1
            && value.inner_end == p + pair_head(pair).len() + 1 + pair.version.len()
            && value.outer_end == p + pair_head(pair).len() + 2 + pair.version.len(),
{
    let a = p + pair.lead.len();
    let b = a + pair.name.len() + 2;
    let c = b + pair.before.len();
    let v = c + 1 + pair.after.len();
    lemma_pair_parts(s, p, pair);
    lemma_space(s, p, pair.lead);
    lemma_space(s, c + 1, pair.after);
    lemma_next_token(s, p, a, pair.name, end);
    lemma_token(s, a, pair.name, end);
    lemma_past(s, b, pair.before, end);
    assert(json_colon(s, b, end) == Some(c));
    lemma_next_token(s, c + 1, v, pair.version, end);
    lemma_token(s, v, pair.version, end);
}

/// Without quotation marks there are no pairs left.
proof fn lemma_no_pairs(s: Seq<char>, p: int, end: int, section: Seq<char>)
    requires
        forall|k: int| p <= k < end ==> #[trigger] s[k] != '"',
    ensures
        object_entries(s, p, end, section).len() == 0,
{
    lemma_index_of(s, '"', p, end);
}

/// What stands before the first string does not matter.
proof fn lemma_entries_from(s: Seq<char>, p: int, q: int, end: int, section: Seq<char>)
    requires
        0 <= p <= q < end,
        forall|k: int| p <= k < q ==> #[trigger] s[k] != '"',
    ensures
        object_entries(s, p, end, section) == object_entries(s, q, end, section),
{
    lemma_index_of(s, '"', p, end);
    lemma_index_of(s, '"', q, end);
    assert(index_of(s, '"', p, end) == index_of(s, '"', q, end));
    assert(json_token(s, p, end) == json_token(s, q, end));
    assert(object_member(s, p, end) == object_member(s, q, end));
}

/// Where the version of a pair stands, in bytes.
proof fn lemma_pair_bytes(s: Seq<char>, p: int, pair: Pair)
    requires
        0 <= p,
        stands(s, p, pair_text(pair)),
    ensures
        ({
            let v = p + pair_head(pair).len();
            let start = byte_offset(s, p) + byte_len(pair_head(pair)) + 1;
            &&& byte_offset(s, v + 1) == start
            &&& byte_offset(s, v + 1 + pair.version.len()) == start + byte_len(pair.version)
            &&& byte_offset(s, p + pair_text(pair).len()) == byte_offset(s, p) + byte_len(
                pair_text(pair),
            )
        }),
{
    let head = pair_head(pair);
    let v = p + head.len();
    let q = seq!['"'];
    let quoted = in_quotation_marks(pair.version);
    let start = s.take(p);
    lemma_stands_parts(s, p, head + quoted, pair.behind);
    lemma_stands_parts(s, p, head, quoted);
    lemma_stands_parts(s, v, q + pair.version, q);
    lemma_stands_parts(s, v, q, pair.version);
    lemma_bytes_behind(s, p, head);
    lemma_bytes_behind(s, v, q);
    lemma_bytes_behind(s, v + 1, pair.version);
    lemma_bytes_behind(s, p, pair_text(pair));
    lemma_mark_byte('"');
}

/// A part takes its own bytes.
pub(crate) proof fn lemma_bytes_behind(s: Seq<char>, p: int, part: Seq<char>)
    requires
        stands(s, p, part),
    ensures
        byte_offset(s, p + part.len()) == byte_offset(s, p) + byte_len(part),
{
    assert(s.take(p + part.len()) =~= s.take(p) + s.subrange(p, p + part.len()));
    lemma_encode_concat(s.take(p), part);
}

/// An ASCII character takes one byte.
pub(crate) proof fn lemma_mark_byte(c: char)
    requires
        c <= '\u{7f}',
    ensures
        byte_len(seq![c]) == 1,
{
    let q = seq![c];
    crate::text::lemma_byte_offset_step(q, 0);
    assert(q.take(1) =~= q);
    assert(q.take(0) =~= Seq::<char>::empty());
}

/// Pairs are read, one by one.
#[verifier::rlimit(40)]
proof fn lemma_pairs_read(
    s: Seq<char>,
    p: int,
    pairs: Seq<Pair>,
    space: Seq<char>,
    section: Seq<char>,
)
    requires
        are_pairs(pairs),
        forall|i: int|
            0 <= i < pairs.len() ==> is_registry_version((#[trigger] pairs[i]).version),
        is_space(space),
        stands(s, p, pairs_text(pairs) + space),
    ensures
        entry_dependencies(
            object_entries(s, p, p + (pairs_text(pairs) + space).len(), section),
            Registry::Npm,
        ) == pair_dependencies(pairs, section, byte_offset(s, p) as int),
    decreases pairs.len(),
{
    let end = p + (pairs_text(pairs) + space).len();
    lemma_stands_parts(s, p, pairs_text(pairs), space);
    lemma_space(s, p + pairs_text(pairs).len(), space);
    if pairs.len() == 0 {
        lemma_no_pairs(s, p, end, section);
        assert(entry_dependencies(object_entries(s, p, end, section), Registry::Npm)
            =~= pair_dependencies(pairs, section, byte_offset(s, p) as int));
    } else {
        let pair = pairs[0];
        let t = pair_text(pair);
        let rest = pairs.drop_first();
        assert(is_pair(pair));
        assert(is_registry_version(pair.version));
        assert forall|i: int| 0 <= i < rest.len() implies is_pair(#[trigger] rest[i])
            && is_registry_version(rest[i].version) by {
            assert(rest[i] == pairs[i + 1]);
        }
        let after = p + pair_head(pair).len() + 2 + pair.version.len();
        if pairs.len() == 1 {
            lemma_pair_parts(s, p, pair);
            lemma_space(s, after, pair.behind);
            lemma_no_pairs(s, after, end, section);
            assert(rest.len() == 0);
        } else {
            lemma_stands_parts(s, p, t + seq![','], pairs_text(rest));
            lemma_stands_parts(s, p, t, seq![',']);
            lemma_pair_parts(s, p, pair);
            lemma_space(s, after, pair.behind);
            let q = p + t.len() + 1;
            lemma_stands(s, p + t.len(), seq![',']);
            assert(s[p + t.len()] == seq![','][0]);
            lemma_stands_parts(s, q, pairs_text(rest), space);
            lemma_rest_begins(rest);
            lemma_entries_from(s, after, q, end, section);
            lemma_pairs_read(s, q, rest, space, section);
            lemma_bytes_behind(s, p + t.len(), seq![',']);
            lemma_mark_byte(',');
        }
        lemma_pair_read(s, p, pair, end);
        lemma_supported(pair.version);
        lemma_pair_bytes(s, p, pair);
        let tail = object_entries(s, after, end, section);
        let at = byte_offset(s, p) as int;
        let start = at + byte_len(pair_head(pair)) + 1;
        assert(entry_dependencies(tail, Registry::Npm) =~= pair_dependencies(
            rest,
            section,
            at + byte_len(t) + 1,
        ));
        assert(entry_dependencies(object_entries(s, p, end, section), Registry::Npm) =~= seq![
            plain_dependency(
                pair.name,
                section,
                Registry::Npm,
                pair.version,
                start,
                start + byte_len(pair.version),
            ),
        ] + entry_dependencies(tail, Registry::Npm));
    }
}

/// Pairs take some room.
proof fn lemma_rest_begins(pairs: Seq<Pair>)
    requires
        pairs.len() > 0,
    ensures
        pairs_text(pairs).len() > 0,
{
    assert(pair_text(pairs[0]).len() > 0);
}

/// The dependencies of a section.
proof fn lemma_section_read(section: Section, name: Seq<char>)
    requires
        is_section(section, name),
    ensures
        entry_dependencies(
            npm_section_entries(section_text(section, name), name),
            Registry::Npm,
        ) == pair_dependencies(section.pairs, name, byte_len(section_head(section, name)) as int),
{
    let s = section_text(section, name);
    let head = section_head(section, name);
    let p = head.len() as int;
    lemma_section_parts(section, name);
    lemma_section_found(section, name);
    lemma_stands_parts(s, p, pairs_text(section.pairs), section.space);
    lemma_pairs_read(s, p, section.pairs, section.space, name);
    assert(s.take(p) =~= s.subrange(0, p));
}

// ---------------------------------------------------------------------------
// Manifests
// ---------------------------------------------------------------------------

/// A manifest `text` with the section `name`, or without it.
pub enum Part {
    There(Section),
    Absent(Seq<Piece>),
}

/// The text has the section, or lacks it.
pub open spec fn is_part(part: Part, name: Seq<char>, text: Seq<char>) -> bool {
    match part {
        Part::There(section) => is_section(section, name) && section_text(section, name) == text,
        Part::Absent(pieces) => is_without(pieces, name) && pieces_text(pieces) == text,
    }
}

/// The dependencies of a section, if it is there.
pub open spec fn part_dependencies(part: Part, name: Seq<char>) -> Seq<DependencyView> {
    match part {
        Part::There(section) => pair_dependencies(
            section.pairs,
            name,
            byte_len(section_head(section, name)) as int,
        ),
        Part::Absent(pieces) => Seq::empty(),
    }
}

/// What is read of a section.
proof fn lemma_part(part: Part, name: Seq<char>, text: Seq<char>)
    requires
        is_part(part, name, text),
    ensures
        entry_dependencies(npm_section_entries(text, name), Registry::Npm) == part_dependencies(
            part,
            name,
        ),
{
    match part {
        Part::There(section) => {
            lemma_section_read(section, name);
        },
        Part::Absent(pieces) => {
            lemma_section_absent(pieces, name);
            assert(entry_dependencies(npm_section_entries(text, name), Registry::Npm)
                =~= part_dependencies(part, name));
        },
    }
}

/// Every package that a section of an npm manifest lists with a version of the
/// registry is a dependency, with its name, its version and the bytes that the version
/// takes, wherever the section stands and whatever else the manifest holds. The
/// sections for use, for development, of peers and of options come in this order.
#[verifier::rlimit(40)]
pub proof fn listed_packages_are_dependencies(
    text: Seq<char>,
    use_part: Part,
    dev_part: Part,
    peer_part: Part,
    optional_part: Part,
)
    requires
        is_part(use_part, "dependencies"@, text),
        is_part(dev_part, "devDependencies"@, text),
        is_part(peer_part, "peerDependencies"@, text),
        is_part(optional_part, "optionalDependencies"@, text),
    ensures
        manifest_dependencies(text, ManifestKind::PackageJson) == part_dependencies(
            use_part,
            "dependencies"@,
        ) + part_dependencies(dev_part, "devDependencies"@) + part_dependencies(
            peer_part,
            "peerDependencies"@,
        ) + part_dependencies(optional_part, "optionalDependencies"@),
{
    lemma_part(use_part, "dependencies"@, text);
    lemma_part(dev_part, "devDependencies"@, text);
    lemma_part(peer_part, "peerDependencies"@, text);
    lemma_part(optional_part, "optionalDependencies"@, text);
    let a = npm_section_entries(text, "dependencies"@);
    let b = npm_section_entries(text, "devDependencies"@);
    let c = npm_section_entries(text, "peerDependencies"@);
    let d = npm_section_entries(text, "optionalDependencies"@);
    assert(entry_dependencies(a + b + c + d, Registry::Npm) =~= entry_dependencies(
        a,
        Registry::Npm,
    ) + entry_dependencies(b, Registry::Npm) + entry_dependencies(c, Registry::Npm)
        + entry_dependencies(d, Registry::Npm));
}

/// What begins with the name of another source, in whatever case, or is a path, is no
/// version of the registry.
pub proof fn other_sources_are_passed_over(spec: Seq<char>, rest: Seq<char>)
    ensures
        lowered(spec) == "file:"@ + rest ==> is_unsupported_npm_spec(spec),
        lowered(spec) == "link:"@ + rest ==> is_unsupported_npm_spec(spec),
        lowered(spec) == "workspace:"@ + rest ==> is_unsupported_npm_spec(spec),
        lowered(spec) == "git:"@ + rest ==> is_unsupported_npm_spec(spec),
        lowered(spec) == "git+"@ + rest ==> is_unsupported_npm_spec(spec),
        lowered(spec) == "github:"@ + rest ==> is_unsupported_npm_spec(spec),
        lowered(spec) == "http:"@ + rest ==> is_unsupported_npm_spec(spec),
        lowered(spec) == "https:"@ + rest ==> is_unsupported_npm_spec(spec),
        lowered(spec) == "npm:"@ + rest ==> is_unsupported_npm_spec(spec),
        spec.contains('/') && spec[0] != '@' ==> is_unsupported_npm_spec(spec),
        is_registry_version(spec) ==> !is_unsupported_npm_spec(spec),
{
    let l = lowered(spec);
    if is_registry_version(spec) {
        lemma_supported(spec);
    }
    assert forall|source: Seq<char>| l == #[trigger] (source + rest) implies source.is_prefix_of(
        l,
    ) by {
        assert(l.take(source.len() as int) =~= source);
    }
}

} // verus!
