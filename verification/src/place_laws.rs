//! Positions in texts, and the places that references lead to.

use crate::joined::ends_a_line;
use crate::manifest::is_path_separator;
use crate::position::{
    byte_place, lemma_char_at_byte, lemma_char_at_place, place_of, position_offset,
    utf16_width, Position,
};
use crate::references::{
    directory, host_start, is_absolute, is_directory, is_plain_name, lemma_host, lemma_host_joined,
    lemma_place, lemma_unified_plain, names_file, origin, part_end, path_start, place,
    reference_place, stepped, unified, walked,
};
use crate::text::{byte_len, byte_offset, index_of, lemma_index_of};
use vstd::prelude::*;

verus! {

// ---------------------------------------------------------------------------
// Positions
// ---------------------------------------------------------------------------

/// The number of line breaks in a text.
pub open spec fn breaks(s: Seq<char>) -> nat
    decreases s.len(),
{
    if s.len() == 0 {
        0
    } else if s.last() == '\n' {
        breaks(s.drop_last()) + 1
    } else {
        breaks(s.drop_last())
    }
}

/// The number of characters of a text that take two units of UTF-16: those beyond the
/// basic plane.
pub open spec fn wide_chars(s: Seq<char>) -> nat
    decreases s.len(),
{
    if s.len() == 0 {
        0
    } else if s.last() > '\u{ffff}' {
        wide_chars(s.drop_last()) + 1
    } else {
        wide_chars(s.drop_last())
    }
}

/// A place depends on what stands before it.
proof fn lemma_place_first(s: Seq<char>, t: Seq<char>, i: int)
    requires
        0 <= i <= s.len(),
    ensures
        place_of(s + t, i) == place_of(s, i),
    decreases i,
{
    if i > 0 {
        lemma_place_first(s, t, i - 1);
        assert((s + t)[i - 1] == s[i - 1]);
    }
}

/// The line of the end of a text.
proof fn lemma_line_of(s: Seq<char>)
    ensures
        place_of(s, s.len() as int).0 == breaks(s),
    decreases s.len(),
{
    if s.len() > 0 {
        let head = s.drop_last();
        lemma_line_of(head);
        assert(s =~= head + seq![s.last()]);
        lemma_place_first(head, seq![s.last()], head.len() as int);
    }
}

/// The place behind a line of a text.
proof fn lemma_place_behind(a: Seq<char>, b: Seq<char>)
    requires
        ends_a_line(a),
        forall|i: int| 0 <= i < b.len() ==> #[trigger] b[i] != '\n',
    ensures
        place_of(a + b, (a + b).len() as int) == (breaks(a), b.len() + wide_chars(b)),
    decreases b.len(),
{
    if b.len() == 0 {
        assert(a + b =~= a);
        lemma_line_of(a);
        let n = a.len() as int;
        if n > 0 {
            assert(a[n - 1] == '\n');
            assert(place_of(a, n).1 == 0);
        }
        assert(wide_chars(b) == 0);
    } else {
        let head = b.drop_last();
        let last = seq![b.last()];
        assert forall|i: int| 0 <= i < head.len() implies #[trigger] head[i] != '\n' by {
            assert(head[i] == b[i]);
        }
        lemma_place_behind(a, head);
        assert(a + b =~= (a + head) + last);
        lemma_place_first(a + head, last, (a + head).len() as int);
        assert(b[b.len() - 1] != '\n');
        let n = (a + b).len() as int;
        assert((a + b)[n - 1] == b.last());
        assert(n - 1 == (a + head).len());
        assert(place_of(a + b, n - 1) == (breaks(a), head.len() + wide_chars(head)));
        assert(place_of(a + b, n) == (breaks(a), head.len() + wide_chars(head) + utf16_width(
            b.last(),
        ) as nat));
    }
}

/// A place in a text is given by the number of lines before its own, and by the number
/// of units of UTF-16 before it on its line: one for each character, and one more for
/// each beyond the basic plane. The position of that place leads to the number of bytes
/// before it, and back.
pub proof fn positions_count_lines_and_units(
    a: Seq<char>,
    b: Seq<char>,
    c: Seq<char>,
    position: Position,
)
    requires
        ends_a_line(a),
        forall|i: int| 0 <= i < b.len() ==> #[trigger] b[i] != '\n',
    ensures
        byte_place(a + b + c, byte_len(a + b) as int) == (breaks(a), b.len() + wide_chars(b)),
        position.line == breaks(a) && position.character == b.len() + wide_chars(b)
            ==> position_offset(a + b + c, position) == Some(byte_len(a + b) as int),
{
    let s = a + b + c;
    let n = (a + b).len() as int;
    lemma_place_behind(a, b);
    lemma_place_first(a + b, c, n);
    assert(s.take(n) =~= a + b);
    assert(byte_offset(s, n) == byte_len(a + b));
    lemma_char_at_byte(s, n, 0);
    lemma_char_at_place(s, n, 0);
}

// ---------------------------------------------------------------------------
// References
// ---------------------------------------------------------------------------

/// A part ends as far behind as its path has moved.
proof fn lemma_part_behind(x: Seq<char>, path: Seq<char>, from: int)
    requires
        0 <= from <= path.len(),
    ensures
        part_end(x + path, x.len() + from) == x.len() + part_end(path, from),
        from <= part_end(path, from) <= path.len(),
    decreases path.len() - from,
{
    if from < path.len() {
        assert((x + path)[x.len() + from] == path[from]);
        if !is_path_separator(path[from]) {
            lemma_part_behind(x, path, from + 1);
        }
    }
}

/// A path leads on from wherever it begins.
proof fn lemma_walked_behind(
    at: Seq<Seq<char>>,
    x: Seq<char>,
    path: Seq<char>,
    from: int,
    escaped: bool,
)
    requires
        0 <= from <= path.len(),
    ensures
        walked(at, x + path, x.len() + from, escaped) == walked(at, path, from, escaped),
    decreases path.len() - from,
{
    lemma_part_behind(x, path, from);
    let end = part_end(path, from);
    let n = x.len() as int;
    assert((x + path).subrange(n + from, n + end) =~= path.subrange(from, end));
    if end < path.len() {
        lemma_walked_behind(
            stepped(at, path.subrange(from, end), escaped),
            x,
            path,
            end + 1,
            escaped,
        );
    }
}

/// Where a name without separators ends.
proof fn lemma_first_end(name: Seq<char>, rest: Seq<char>, from: int)
    requires
        forall|i: int| 0 <= i < name.len() ==> !is_path_separator(#[trigger] name[i]),
        0 <= from <= name.len(),
        rest.len() > 0,
        is_path_separator(rest[0]),
    ensures
        part_end(name + rest, from) == name.len(),
    decreases name.len() - from,
{
    let path = name + rest;
    if from < name.len() {
        assert(path[from] == name[from]);
        lemma_first_end(name, rest, from + 1);
    } else {
        assert(path[from] == rest[0]);
    }
}

/// The first part of a path, and the rest.
proof fn lemma_walked_first(
    at: Seq<Seq<char>>,
    name: Seq<char>,
    rest: Seq<char>,
    escaped: bool,
)
    requires
        forall|i: int| 0 <= i < name.len() ==> !is_path_separator(#[trigger] name[i]),
    ensures
        walked(at, name + seq!['/'] + rest, 0, escaped) == walked(
            stepped(at, name, escaped),
            rest,
            0,
            escaped,
        ),
{
    let slash = seq!['/'];
    let path = name + slash + rest;
    assert(path =~= name + (slash + rest));
    lemma_first_end(name, slash + rest, 0);
    assert(path.subrange(0, name.len() as int) =~= name);
    lemma_walked_behind(stepped(at, name, escaped), name + slash, rest, 0, escaped);
}

/// The path of an address of a directory in another one.
proof fn lemma_directory_in(dir: Seq<char>, sub: Seq<char>)
    requires
        is_directory(dir),
        is_plain_name(sub),
    ensures
        ({
            let inner = dir + sub + seq!['/'];
            &&& is_directory(inner)
            &&& origin(inner) == origin(dir)
            &&& place(inner) == place(dir).push(unified(sub, 0))
        }),
{
    let slash = seq!['/'];
    let inner = dir + sub + slash;
    let uri = dir + sub;
    assert forall|i: int| 0 <= i < sub.len() implies #[trigger] sub[i] != '/' by {
        assert(!is_path_separator(sub[i]));
    }
    lemma_place(dir, sub);
    lemma_host_joined(dir, sub, 0);
    lemma_host_slash(dir, sub, 0);
    lemma_host(dir, 0);
    let from = match host_start(dir, 0) {
        Some(i) => i,
        None => 0,
    };
    lemma_index_of(dir, '/', from, dir.len() as int);
    lemma_index_of(uri, '/', from, uri.len() as int);
    lemma_index_of(inner, '/', from, inner.len() as int);
    let start = path_start(dir);
    assert(uri[start] == dir[start]);
    assert(inner[start] == dir[start]);
    if let Some(i) = index_of(uri, '/', from, uri.len() as int) {
        if i < start {
            assert(dir[i] == uri[i]);
        }
    }
    if let Some(i) = index_of(inner, '/', from, inner.len() as int) {
        if i < start {
            assert(dir[i] == inner[i]);
        }
    }
    assert(path_start(inner) == start);
    assert(inner.take(start) =~= dir.take(start));
    let path = uri.skip(start);
    assert(inner.skip(start) =~= path + slash);
    lemma_walked_slash(Seq::empty(), path, 0);
}

/// A slash behind an address begins no host.
proof fn lemma_host_slash(dir: Seq<char>, sub: Seq<char>, from: int)
    requires
        is_plain_name(sub),
        0 <= from,
    ensures
        host_start(dir + sub + seq!['/'], from) == host_start(dir + sub, from),
    decreases dir.len() + sub.len() + 1 - from,
{
    let uri = dir + sub;
    let inner = uri + seq!['/'];
    if from + 3 <= inner.len() {
        if from + 3 > uri.len() {
            assert(inner[from + 1] == sub[sub.len() - 1]);
            assert(!is_path_separator(sub[sub.len() - 1]));
        } else {
            assert(inner[from] == uri[from]);
            assert(inner[from + 1] == uri[from + 1]);
            assert(inner[from + 2] == uri[from + 2]);
        }
        lemma_host_slash(dir, sub, from + 1);
    }
}

/// A slash at the end of a path leads nowhere.
proof fn lemma_walked_slash(at: Seq<Seq<char>>, path: Seq<char>, from: int)
    requires
        0 <= from <= path.len(),
    ensures
        walked(at, path + seq!['/'], from, true) == walked(at, path, from, true),
    decreases path.len() - from,
{
    let longer = path + seq!['/'];
    lemma_end_slash(path, from);
    let end = part_end(path, from);
    assert(longer.subrange(from, end) =~= path.subrange(from, end));
    let next = stepped(at, path.subrange(from, end), true);
    if end < path.len() {
        lemma_walked_slash(next, path, end + 1);
    } else {
        let n = longer.len() as int;
        assert(part_end(longer, n) == n);
        assert(longer.subrange(n, n) =~= Seq::<char>::empty());
        assert(walked(next, longer, n, true) == next);
    }
}

/// A part ends before a slash.
proof fn lemma_end_slash(path: Seq<char>, from: int)
    requires
        0 <= from <= path.len(),
    ensures
        part_end(path + seq!['/'], from) == part_end(path, from),
        from <= part_end(path, from) <= path.len(),
    decreases path.len() - from,
{
    let longer = path + seq!['/'];
    if from < path.len() {
        assert(longer[from] == path[from]);
        if !is_path_separator(path[from]) {
            lemma_end_slash(path, from + 1);
        }
    } else {
        assert(longer[from] == '/');
    }
}

/// A step to this directory leads nowhere.
pub proof fn this_directory_leads_nowhere(base: Seq<char>, rest: Seq<char>)
    requires
        !is_absolute(rest),
    ensures
        reference_place(base, seq!['.', '/'] + rest) == reference_place(base, rest),
{
    reveal_strlit(".");
    let dot = seq!['.'];
    assert(dot =~= "."@);
    assert(seq!['.', '/'] + rest =~= dot + seq!['/'] + rest);
    assert((seq!['.', '/'] + rest)[0] == '.');
    lemma_walked_first(directory(place(base)), dot, rest, false);
}

/// A reference to the directory above leads from a file in an inner directory to where
/// the rest of it leads from a file in the outer one.
pub proof fn upper_directory_leads_out(
    dir: Seq<char>,
    sub: Seq<char>,
    file: Seq<char>,
    other: Seq<char>,
    rest: Seq<char>,
)
    requires
        is_directory(dir),
        is_plain_name(sub),
        is_plain_name(file),
        is_plain_name(other),
        !is_absolute(rest),
    ensures
        reference_place(dir + sub + seq!['/'] + file, seq!['.', '.', '/'] + rest)
            == reference_place(dir + other, rest),
{
    reveal_strlit(".");
    reveal_strlit("..");
    let dots = seq!['.', '.'];
    let inner = dir + sub + seq!['/'];
    assert(dots =~= ".."@);
    assert(dots.len() == 2 && "."@.len() == 1);
    assert(seq!['.', '.', '/'] + rest =~= dots + seq!['/'] + rest);
    assert((seq!['.', '.', '/'] + rest)[0] == '.');
    lemma_directory_in(dir, sub);
    lemma_place(inner, file);
    lemma_place(dir, other);
    assert(place(inner).push(unified(file, 0)).drop_last() =~= place(inner));
    assert(place(dir).push(unified(sub, 0)).drop_last() =~= place(dir));
    assert(place(dir).push(unified(other, 0)).drop_last() =~= place(dir));
    lemma_walked_first(place(inner), dots, rest, false);
}

/// A reference through a directory beside leads to where the rest of it leads from a
/// file in that directory.
pub proof fn inner_directory_leads_in(
    dir: Seq<char>,
    sub: Seq<char>,
    file: Seq<char>,
    other: Seq<char>,
    rest: Seq<char>,
)
    requires
        is_directory(dir),
        is_plain_name(sub),
        !sub.contains('%'),
        is_plain_name(file),
        is_plain_name(other),
        !is_absolute(rest),
    ensures
        reference_place(dir + file, sub + seq!['/'] + rest) == reference_place(
            dir + sub + seq!['/'] + other,
            rest,
        ),
        origin(dir + file) == origin(dir + sub + seq!['/'] + other),
{
    let inner = dir + sub + seq!['/'];
    lemma_directory_in(dir, sub);
    lemma_place(dir, file);
    lemma_place(inner, other);
    assert(place(dir).push(unified(file, 0)).drop_last() =~= place(dir));
    assert(place(inner).push(unified(other, 0)).drop_last() =~= place(inner));
    assert((sub + seq!['/'] + rest)[0] == sub[0]);
    assert(!is_path_separator(sub[0]));
    lemma_walked_first(place(dir), sub, rest, false);
    lemma_unified_plain(sub, 0);
    assert(sub.skip(0) =~= sub);
}

/// A reference that begins with a separator leads to the same place from everywhere;
/// and every reference names files of the same origin alone.
pub proof fn absolute_references_do_not_depend(
    base: Seq<char>,
    other: Seq<char>,
    reference: Seq<char>,
    uri: Seq<char>,
)
    requires
        reference.len() > 0,
        reference[0] == '/' || reference[0] == '\\',
    ensures
        reference_place(base, reference) == reference_place(other, reference),
        origin(base) != origin(uri) ==> forall|references: Seq<Seq<char>>, i: int|
            !#[trigger] names_file(base, references, i, uri),
{
}

} // verus!
