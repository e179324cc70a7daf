//! The requirements and constraints files that a requirements file refers to.

use crate::lines::text_lines;
use crate::manifest::is_path_separator;
use crate::outside::{encoded_byte, encoded_bytes, hex_digit, percent_encode, texts_of};
use crate::python::{included_paths, requirements_include_paths};
use crate::text::{
    chars_of, equals, find_char, index_of, is_ascii_alphanumeric,
    lemma_encode_concat, lemma_index_of, same_text, string_of,
};
use vstd::prelude::*;
use vstd::slice::slice_subrange;
use vstd::string::StringExecFns;
use vstd::utf8::encode_utf8;

verus! {

// ---------------------------------------------------------------------------
// Addresses
// ---------------------------------------------------------------------------

/// Where the path of an address begins: at the first slash behind the host, or at
/// the first slash if there is no host.
pub open spec fn path_start(uri: Seq<char>) -> int {
    let n = uri.len() as int;
    let from = match host_start(uri, 0) {
        Some(i) => i,
        None => 0,
    };
    match index_of(uri, '/', from, n) {
        Some(i) => i,
        None => n,
    }
}

/// Where the host of an address begins: behind the first colon and two slashes.
pub open spec fn host_start(uri: Seq<char>, from: int) -> Option<int>
    decreases uri.len() - from,
{
    if from < 0 || uri.len() < from + 3 {
        None
    } else if uri[from] == ':' && uri[from + 1] == '/' && uri[from + 2] == '/' {
        Some(from + 3)
    } else {
        host_start(uri, from + 1)
    }
}

/// What an address says before its path.
pub open spec fn origin(uri: Seq<char>) -> Seq<char> {
    uri.take(path_start(uri))
}

// ---------------------------------------------------------------------------
// Paths
// ---------------------------------------------------------------------------

/// The value of a hexadecimal digit.
pub open spec fn hex_value(c: char) -> Option<u8> {
    if '0' <= c && c <= '9' {
        Some((c as u32 - '0' as u32) as u8)
    } else if 'a' <= c && c <= 'f' {
        Some((c as u32 - 'a' as u32 + 10) as u8)
    } else if 'A' <= c && c <= 'F' {
        Some((c as u32 - 'A' as u32 + 10) as u8)
    } else {
        None
    }
}

/// The byte that is written at `i` as a percent sign and two hexadecimal digits.
pub open spec fn escaped_byte(s: Seq<char>, i: int) -> Option<u8> {
    if 0 <= i && i + 2 < s.len() && s[i] == '%' {
        match (hex_value(s[i + 1]), hex_value(s[i + 2])) {
            (Some(high), Some(low)) => Some((high * 16 + low) as u8),
            _ => None,
        }
    } else {
        None
    }
}

/// A part of an address from `from` on, with every byte written in one way.
pub open spec fn unified(s: Seq<char>, from: int) -> Seq<char>
    decreases s.len() - from,
{
    if from < 0 || from >= s.len() {
        Seq::empty()
    } else {
        match escaped_byte(s, from) {
            Some(b) => encoded_byte(b) + unified(s, from + 3),
            None => encoded_bytes(encode_utf8(seq![s[from]])) + unified(s, from + 1),
        }
    }
}

/// A part of a path, with every byte written in one way. `escaped` says that it is a
/// part of an address, in which bytes can be escaped already.
pub open spec fn part_name(part: Seq<char>, escaped: bool) -> Seq<char> {
    if escaped {
        unified(part, 0)
    } else {
        encoded_bytes(encode_utf8(part))
    }
}

/// Where the part of a path that begins at `from` ends.
pub open spec fn part_end(path: Seq<char>, from: int) -> int
    decreases path.len() - from,
{
    if 0 <= from < path.len() && !is_path_separator(path[from]) {
        part_end(path, from + 1)
    } else {
        from
    }
}

/// A part ends in its path.
pub proof fn lemma_part_end(path: Seq<char>, from: int)
    requires
        0 <= from <= path.len(),
    ensures
        from <= part_end(path, from) <= path.len(),
    decreases path.len() - from,
{
    if from < path.len() && !is_path_separator(path[from]) {
        lemma_part_end(path, from + 1);
    }
}

/// Where one stands after a part of a path: `.` and nothing lead nowhere, `..` leads
/// to the directory above, if there is one, and any other name into what it names.
pub open spec fn stepped(at: Seq<Seq<char>>, part: Seq<char>, escaped: bool) -> Seq<Seq<char>> {
    if part.len() == 0 || part == "."@ {
        at
    } else if part == ".."@ {
        if at.len() > 0 {
            at.drop_last()
        } else {
            at
        }
    } else {
        at.push(part_name(part, escaped))
    }
}

/// Where the parts of a path from `from` on lead.
pub open spec fn walked(at: Seq<Seq<char>>, path: Seq<char>, from: int, escaped: bool) -> Seq<
    Seq<char>,
>
    decreases path.len() - from,
{
    if from < 0 || from > path.len() {
        at
    } else {
        proof {
            lemma_part_end(path, from);
        }
        let end = part_end(path, from);
        let next = stepped(at, path.subrange(from, end), escaped);
        if end < path.len() {
            walked(next, path, end + 1, escaped)
        } else {
            next
        }
    }
}

/// Where the file with the address `uri` stands.
pub open spec fn place(uri: Seq<char>) -> Seq<Seq<char>> {
    walked(Seq::empty(), uri.skip(path_start(uri)), 0, true)
}

/// The directory of a file.
pub open spec fn directory(file: Seq<Seq<char>>) -> Seq<Seq<char>> {
    if file.len() > 0 {
        file.drop_last()
    } else {
        file
    }
}

/// A reference that begins with a separator does not depend on where it stands.
pub open spec fn is_absolute(reference: Seq<char>) -> bool {
    reference.len() > 0 && is_path_separator(reference[0])
}

/// Where a reference leads that stands in the file with the address `base`.
pub open spec fn reference_place(base: Seq<char>, reference: Seq<char>) -> Seq<Seq<char>> {
    if is_absolute(reference) {
        walked(Seq::empty(), reference, 0, false)
    } else {
        walked(directory(place(base)), reference, 0, false)
    }
}

/// The reference at `i`, in the file with the address `base`, names the file with the
/// address `uri`.
pub open spec fn names_file(
    base: Seq<char>,
    references: Seq<Seq<char>>,
    i: int,
    uri: Seq<char>,
) -> bool {
    &&& 0 <= i < references.len()
    &&& origin(base) == origin(uri)
    &&& reference_place(base, references[i]) == place(uri)
}

/// The requirements file `text` with the address `base` refers to the file with the
/// address `uri`.
pub open spec fn refers_to(base: Seq<char>, text: Seq<char>, uri: Seq<char>) -> bool {
    exists|i: int| #[trigger] names_file(base, included_paths(text_lines(text, 0)), i, uri)
}

// ---------------------------------------------------------------------------
// Finding it out
// ---------------------------------------------------------------------------

/// Finds where the host of an address begins.
fn find_host(uri: &[char]) -> (found: Option<usize>)
    ensures
        (match found {
            Some(i) => Some(i as int),
            None => None,
        }) == host_start(uri@, 0),
        found matches Some(i) ==> i <= uri@.len(),
{
    let n: usize = uri.len();
    let mut from: usize = 0;
    while n - from >= 3
        invariant
            from <= n,
            n == uri@.len(),
            host_start(uri@, 0) == host_start(uri@, from as int),
        decreases n - from,
    {
        if uri[from] == ':' && uri[from + 1] == '/' && uri[from + 2] == '/' {
            return Some(from + 3);
        }
        from += 1;
    }
    None
}

/// Finds where the path of an address begins.
fn find_path(uri: &[char]) -> (start: usize)
    ensures
        start == path_start(uri@),
        start <= uri@.len(),
{
    let from: usize = match find_host(uri) {
        Some(i) => i,
        None => 0,
    };
    match find_char(uri, '/', from, uri.len()) {
        Some(i) => i,
        None => uri.len(),
    }
}

/// Reads a hexadecimal digit.
fn read_hex(c: char) -> (value: Option<u8>)
    ensures
        value == hex_value(c),
        value matches Some(v) ==> v < 16,
{
    if '0' <= c && c <= '9' {
        Some((c as u32 - '0' as u32) as u8)
    } else if 'a' <= c && c <= 'f' {
        Some((c as u32 - 'a' as u32 + 10) as u8)
    } else if 'A' <= c && c <= 'F' {
        Some((c as u32 - 'A' as u32 + 10) as u8)
    } else {
        None
    }
}

/// Writes a hexadecimal digit.
fn write_hex(d: u8) -> (c: char)
    requires
        d < 16,
    ensures
        c == hex_digit(d as int),
{
    if d < 10 {
        (48 + d) as char
    } else {
        (55 + d) as char
    }
}

/// Writes a byte of an address.
fn write_byte(b: u8) -> (written: String)
    ensures
        written@ == encoded_byte(b),
{
    let mut written = String::new();
    if b < 128 && is_ascii_alphanumeric(b as char) {
        written.push(b as char);
    } else {
        written.push('%');
        written.push(write_hex(b / 16));
        written.push(write_hex(b % 16));
    }
    assert(written@ =~= encoded_byte(b));
    written
}

/// Reads the byte that is written at `i` as a percent sign and two hexadecimal digits.
fn read_escape(s: &[char], i: usize) -> (byte: Option<u8>)
    requires
        i <= s@.len(),
    ensures
        byte == escaped_byte(s@, i as int),
{
    if s.len() - i > 2 && s[i] == '%' {
        match (read_hex(s[i + 1]), read_hex(s[i + 2])) {
            (Some(high), Some(low)) => Some(high * 16 + low),
            _ => None,
        }
    } else {
        None
    }
}

/// Writes every byte of a part of an address in one way.
fn unify(part: &[char]) -> (name: String)
    ensures
        name@ == unified(part@, 0),
{
    let mut name = String::new();
    let mut from: usize = 0;
    assert(name@ + unified(part@, 0) =~= unified(part@, 0));
    while from < part.len()
        invariant
            from <= part@.len(),
            unified(part@, 0) == name@ + unified(part@, from as int),
        decreases part@.len() - from,
    {
        let ghost done = name@;
        match read_escape(part, from) {
            Some(b) => {
                let written = write_byte(b);
                name.append(written.as_str());
                assert(done + (encoded_byte(b) + unified(part@, from + 3)) =~= name@ + unified(
                    part@,
                    from + 3,
                ));
                from += 3;
            },
            None => {
                let c = slice_subrange(part, from, from + 1);
                assert(c@ =~= seq![part@[from as int]]);
                let text = string_of(c);
                let written = percent_encode(text.as_str());
                name.append(written.as_str());
                assert(done + (written@ + unified(part@, from + 1)) =~= name@ + unified(
                    part@,
                    from + 1,
                ));
                from += 1;
            },
        }
    }
    assert(name@ + Seq::<char>::empty() =~= name@);
    name
}

/// Names a part of a path.
fn name_part(part: &[char], escaped: bool) -> (name: String)
    ensures
        name@ == part_name(part@, escaped),
{
    if escaped {
        unify(part)
    } else {
        let text = string_of(part);
        percent_encode(text.as_str())
    }
}

/// Finds the end of the part of a path that begins at `from`.
fn find_part_end(path: &[char], from: usize) -> (end: usize)
    requires
        from <= path@.len(),
    ensures
        end == part_end(path@, from as int),
        from <= end <= path@.len(),
{
    let mut end: usize = from;
    while end < path.len() && !is_path_separator(path[end])
        invariant
            from <= end <= path@.len(),
            part_end(path@, from as int) == part_end(path@, end as int),
        decreases path@.len() - end,
    {
        end += 1;
    }
    end
}

/// Takes a step along a path.
fn step(at: &mut Vec<String>, part: &[char], escaped: bool)
    ensures
        texts_of(final(at)@) == stepped(texts_of(old(at)@), part@, escaped),
{
    let ghost before = texts_of(at@);
    if part.len() == 0 || equals(part, ".") {
    } else if equals(part, "..") {
        if at.len() > 0 {
            at.pop();
            assert(texts_of(at@) =~= before.drop_last());
        }
    } else {
        let name = name_part(part, escaped);
        let ghost view = name@;
        at.push(name);
        assert(texts_of(at@) =~= before.push(view));
    }
}

/// Walks along a path.
fn walk(at: Vec<String>, path: &[char], escaped: bool) -> (end: Vec<String>)
    ensures
        texts_of(end@) == walked(texts_of(at@), path@, 0, escaped),
{
    let mut place = at;
    let mut from: usize = 0;
    let ghost whole = walked(texts_of(at@), path@, 0, escaped);
    loop
        invariant_except_break
            from <= path@.len(),
            whole == walked(texts_of(place@), path@, from as int, escaped),
        ensures
            whole == texts_of(place@),
        decreases path@.len() - from,
    {
        let end = find_part_end(path, from);
        step(&mut place, slice_subrange(path, from, end), escaped);
        if end >= path.len() {
            break;
        }
        from = end + 1;
    }
    place
}

/// Finds where the file with the address `uri` stands.
pub fn locate(uri: &str) -> (found: Vec<String>)
    ensures
        texts_of(found@) == place(uri@),
{
    let chars = chars_of(uri);
    let s = chars.as_slice();
    let start = find_path(s);
    let path = slice_subrange(s, start, s.len());
    assert(path@ =~= uri@.skip(start as int));
    let root: Vec<String> = Vec::new();
    assert(texts_of(root@) =~= Seq::<Seq<char>>::empty());
    walk(root, path, true)
}

/// Finds where a reference leads that stands in the file with the address `base`.
pub fn resolve_reference(base: &str, reference: &str) -> (found: Vec<String>)
    ensures
        texts_of(found@) == reference_place(base@, reference@),
{
    let chars = chars_of(reference);
    let s = chars.as_slice();
    let mut at: Vec<String> = Vec::new();
    assert(texts_of(at@) =~= Seq::<Seq<char>>::empty());
    if s.len() == 0 || !is_path_separator(s[0]) {
        at = locate(base);
        let ghost file = texts_of(at@);
        if at.len() > 0 {
            at.pop();
            assert(texts_of(at@) =~= file.drop_last());
        }
    }
    walk(at, s, false)
}

/// Whether two places are the same.
fn same_place(a: &Vec<String>, b: &Vec<String>) -> (same: bool)
    ensures
        same == (texts_of(a@) == texts_of(b@)),
{
    if a.len() != b.len() {
        assert(texts_of(a@).len() != texts_of(b@).len());
        return false;
    }
    let mut i: usize = 0;
    while i < a.len()
        invariant
            i <= a@.len() == b@.len(),
            forall|k: int| 0 <= k < i ==> (#[trigger] a@[k])@ == b@[k]@,
        decreases a@.len() - i,
    {
        if !same_text(a[i].as_str(), b[i].as_str()) {
            assert(texts_of(a@)[i as int] != texts_of(b@)[i as int]);
            return false;
        }
        i += 1;
    }
    assert(texts_of(a@) =~= texts_of(b@));
    true
}

/// Whether two addresses say the same before their paths.
fn same_origin(a: &str, b: &str) -> (same: bool)
    ensures
        same == (origin(a@) == origin(b@)),
{
    let a_chars = chars_of(a);
    let b_chars = chars_of(b);
    let x = slice_subrange(a_chars.as_slice(), 0, find_path(a_chars.as_slice()));
    let y = slice_subrange(b_chars.as_slice(), 0, find_path(b_chars.as_slice()));
    assert(x@ =~= origin(a@));
    assert(y@ =~= origin(b@));
    let y_text = string_of(y);
    equals(x, y_text.as_str())
}

/// Whether the requirements file `text` with the address `base` refers to the file
/// with the address `uri`, as a file of requirements or of constraints.
pub fn requirements_refer_to(base: &str, text: &str, uri: &str) -> (b: bool)
    ensures
        b == refers_to(base@, text@, uri@),
{
    if !same_origin(base, uri) {
        return false;
    }
    let references = requirements_include_paths(text);
    let target = locate(uri);
    let ghost named = included_paths(text_lines(text@, 0));
    let mut i: usize = 0;
    while i < references.len()
        invariant
            i <= references@.len(),
            named == included_paths(text_lines(text@, 0)),
            texts_of(references@) == named,
            texts_of(target@) == place(uri@),
            origin(base@) == origin(uri@),
            forall|k: int| 0 <= k < i ==> !#[trigger] names_file(base@, named, k, uri@),
        decreases references@.len() - i,
    {
        assert(named[i as int] == references@[i as int]@);
        let found = resolve_reference(base, references[i].as_str());
        if same_place(&found, &target) {
            assert(names_file(base@, named, i as int, uri@));
            return true;
        }
        assert(!names_file(base@, named, i as int, uri@));
        i += 1;
    }
    false
}

// ---------------------------------------------------------------------------
// Files beside each other
// ---------------------------------------------------------------------------

/// The name of a file: one part of a path, which is neither this directory nor the
/// one above.
pub open spec fn is_plain_name(name: Seq<char>) -> bool {
    &&& name.len() > 0
    &&& name != "."@
    &&& name != ".."@
    &&& forall|i: int| 0 <= i < name.len() ==> !is_path_separator(#[trigger] name[i])
}

/// The address of a directory.
pub open spec fn is_directory(uri: Seq<char>) -> bool {
    path_start(uri) < uri.len() && uri.last() == '/'
}

/// The host of an address is that of its directory.
pub(crate) proof fn lemma_host_joined(dir: Seq<char>, name: Seq<char>, from: int)
    requires
        forall|i: int| 0 <= i < name.len() ==> #[trigger] name[i] != '/',
        0 <= from,
    ensures
        host_start(dir + name, from) == host_start(dir, from),
    decreases dir.len() + name.len() - from,
{
    let uri = dir + name;
    if from + 3 <= uri.len() {
        if from + 3 > dir.len() {
            assert(uri[from + 2] == name[from + 2 - dir.len()]);
        }
        lemma_host_joined(dir, name, from + 1);
    }
}

/// The path of an address begins where that of its directory does.
proof fn lemma_path_joined(dir: Seq<char>, name: Seq<char>)
    requires
        is_directory(dir),
        forall|i: int| 0 <= i < name.len() ==> #[trigger] name[i] != '/',
    ensures
        path_start(dir + name) == path_start(dir),
        0 <= path_start(dir) < dir.len(),
        origin(dir + name) == origin(dir),
        (dir + name).skip(path_start(dir)) == dir.skip(path_start(dir)) + name,
{
    let uri = dir + name;
    lemma_host_joined(dir, name, 0);
    lemma_host(dir, 0);
    let from = match host_start(dir, 0) {
        Some(i) => i,
        None => 0,
    };
    lemma_index_of(dir, '/', from, dir.len() as int);
    lemma_index_of(uri, '/', from, uri.len() as int);
    let start = path_start(dir);
    assert(uri[start] == dir[start]);
    if let Some(i) = index_of(uri, '/', from, uri.len() as int) {
        if i < start {
            assert(dir[i] == uri[i]);
        }
    }
    assert(uri.take(start) =~= dir.take(start));
    assert(uri.skip(start) =~= dir.skip(start) + name);
}

/// A host begins in its address.
pub(crate) proof fn lemma_host(uri: Seq<char>, from: int)
    requires
        0 <= from,
    ensures
        host_start(uri, from) matches Some(i) ==> 3 <= i <= uri.len(),
    decreases uri.len() - from,
{
    if from + 3 <= uri.len() {
        lemma_host(uri, from + 1);
    }
}

/// A name is the only part of its path.
proof fn lemma_name_end(name: Seq<char>, from: int)
    requires
        forall|i: int| 0 <= i < name.len() ==> !is_path_separator(#[trigger] name[i]),
        0 <= from <= name.len(),
    ensures
        part_end(name, from) == name.len(),
    decreases name.len() - from,
{
    if from < name.len() {
        lemma_name_end(name, from + 1);
    }
}

/// The parts of a directory are parts of what stands in it.
proof fn lemma_part_joined(dir: Seq<char>, name: Seq<char>, from: int)
    requires
        dir.len() > 0,
        dir.last() == '/',
        0 <= from < dir.len(),
    ensures
        part_end(dir + name, from) == part_end(dir, from),
        from <= part_end(dir, from) < dir.len(),
    decreases dir.len() - from,
{
    assert((dir + name)[from] == dir[from]);
    if from < dir.len() - 1 && !is_path_separator(dir[from]) {
        lemma_part_joined(dir, name, from + 1);
    }
}

/// A path leads to its directory, and a step further.
proof fn lemma_walked_joined(
    at: Seq<Seq<char>>,
    dir: Seq<char>,
    name: Seq<char>,
    from: int,
    escaped: bool,
)
    requires
        dir.len() > 0,
        dir.last() == '/',
        forall|i: int| 0 <= i < name.len() ==> !is_path_separator(#[trigger] name[i]),
        0 <= from <= dir.len(),
    ensures
        walked(at, dir + name, from, escaped) == stepped(
            walked(at, dir, from, escaped),
            name,
            escaped,
        ),
    decreases dir.len() - from,
{
    let path = dir + name;
    if from < dir.len() {
        lemma_part_joined(dir, name, from);
        let end = part_end(dir, from);
        assert(path.subrange(from, end) =~= dir.subrange(from, end));
        let next = stepped(at, dir.subrange(from, end), escaped);
        lemma_walked_joined(next, dir, name, end + 1, escaped);
    } else {
        lemma_tail_end(dir, name, from);
        assert(path.subrange(from, path.len() as int) =~= name);
    }
}

/// Behind a directory, its file's name is the last part.
proof fn lemma_tail_end(dir: Seq<char>, name: Seq<char>, from: int)
    requires
        forall|i: int| 0 <= i < name.len() ==> !is_path_separator(#[trigger] name[i]),
        dir.len() <= from <= dir.len() + name.len(),
    ensures
        part_end(dir + name, from) == dir.len() + name.len(),
    decreases dir.len() + name.len() - from,
{
    if from < dir.len() + name.len() {
        assert((dir + name)[from] == name[from - dir.len()]);
        lemma_tail_end(dir, name, from + 1);
    }
}

/// Bytes are written one by one.
proof fn lemma_encoded_concat(a: Seq<u8>, b: Seq<u8>)
    ensures
        encoded_bytes(a + b) == encoded_bytes(a) + encoded_bytes(b),
    decreases b.len(),
{
    if b.len() == 0 {
        assert(a + b =~= a);
        assert(encoded_bytes(a) + encoded_bytes(b) =~= encoded_bytes(a));
    } else {
        lemma_encoded_concat(a, b.drop_last());
        assert((a + b).drop_last() =~= a + b.drop_last());
        assert(encoded_bytes(a) + (encoded_bytes(b.drop_last()) + encoded_byte(b.last()))
            =~= encoded_bytes(a) + encoded_bytes(b.drop_last()) + encoded_byte(b.last()));
    }
}

/// One byte is written.
proof fn lemma_encoded_one(b: u8)
    ensures
        encoded_bytes(seq![b]) == encoded_byte(b),
{
    reveal_with_fuel(encoded_bytes, 2);
    assert(seq![b].drop_last() =~= Seq::<u8>::empty());
    assert(encoded_bytes(seq![b]) =~= encoded_byte(b));
}

/// An ASCII letter or digit is written as it is.
proof fn lemma_encoded_plain(c: char)
    requires
        is_ascii_alphanumeric(c),
    ensures
        encoded_bytes(encode_utf8(seq![c])) == seq![c],
{
    let v = c as u32;
    assert((v & 0x7F) as u8 == v as u8) by (bit_vector)
        requires
            v < 128,
    ;
    reveal_with_fuel(encode_utf8, 2);
    assert(seq![c].drop_first() =~= Seq::<char>::empty());
    assert(encode_utf8(seq![c]) =~= seq![v as u8]);
    lemma_encoded_one(v as u8);
}

/// What is written behind `k` does not depend on what stands before it.
proof fn lemma_unified_skip(s: Seq<char>, k: int, from: int)
    requires
        0 <= k <= s.len(),
        0 <= from,
    ensures
        unified(s, k + from) == unified(s.skip(k), from),
    decreases s.len() - k - from,
{
    let t = s.skip(k);
    if k + from < s.len() {
        assert(t[from] == s[k + from]);
        assert(escaped_byte(t, from) == escaped_byte(s, k + from));
        lemma_unified_skip(s, k, from + 1);
        if escaped_byte(s, k + from) is Some {
            lemma_unified_skip(s, k, from + 3);
        }
    }
}

/// A byte that is written as in an address stays so.
proof fn lemma_unified_byte(b: u8, rest: Seq<char>)
    ensures
        unified(encoded_byte(b) + rest, 0) == encoded_byte(b) + unified(rest, 0),
{
    let one = encoded_byte(b);
    let s = one + rest;
    lemma_unified_skip(s, one.len() as int, 0);
    assert(s.skip(one.len() as int) =~= rest);
    assert(s[0] == one[0]);
    if b < 128 && is_ascii_alphanumeric(b as char) {
        lemma_encoded_plain(b as char);
    } else {
        let high = b as int / 16;
        let low = b as int % 16;
        assert(s[1] == one[1] && s[2] == one[2]);
        assert(hex_value(hex_digit(high)) == Some(high as u8));
        assert(hex_value(hex_digit(low)) == Some(low as u8));
        assert(escaped_byte(s, 0) == Some(b));
    }
}

/// Bytes that are written as in an address stay so.
proof fn lemma_unified_encoded(bytes: Seq<u8>)
    ensures
        unified(encoded_bytes(bytes), 0) == encoded_bytes(bytes),
    decreases bytes.len(),
{
    if bytes.len() > 0 {
        let first = seq![bytes[0]];
        let rest = bytes.drop_first();
        assert(bytes =~= first + rest);
        lemma_encoded_concat(first, rest);
        lemma_encoded_one(bytes[0]);
        lemma_unified_byte(bytes[0], encoded_bytes(rest));
        lemma_unified_encoded(rest);
    }
}

/// A name without percent signs holds no escapes.
pub(crate) proof fn lemma_unified_plain(name: Seq<char>, from: int)
    requires
        forall|i: int| 0 <= i < name.len() ==> #[trigger] name[i] != '%',
        0 <= from <= name.len(),
    ensures
        unified(name, from) == encoded_bytes(encode_utf8(name.skip(from))),
    decreases name.len() - from,
{
    let rest = name.skip(from);
    if from < name.len() {
        lemma_unified_plain(name, from + 1);
        assert(rest =~= seq![name[from]] + name.skip(from + 1));
        lemma_encode_concat(seq![name[from]], name.skip(from + 1));
        lemma_encoded_concat(
            encode_utf8(seq![name[from]]),
            encode_utf8(name.skip(from + 1)),
        );
    }
}

/// The place of a file is its name, in the place of its directory.
pub(crate) proof fn lemma_place(dir: Seq<char>, name: Seq<char>)
    requires
        is_directory(dir),
        is_plain_name(name),
    ensures
        origin(dir + name) == origin(dir),
        place(dir + name) == place(dir).push(unified(name, 0)),
{
    assert forall|i: int| 0 <= i < name.len() implies #[trigger] name[i] != '/' by {
        assert(!is_path_separator(name[i]));
    }
    lemma_path_joined(dir, name);
    let path = dir.skip(path_start(dir));
    assert(path.last() == dir.last());
    lemma_walked_joined(Seq::empty(), path, name, 0, true);
}

/// A reference to a file beside names it by its escaped address, and, where it holds
/// no percent sign, as it is.
pub(crate) proof fn lemma_names_beside(
    dir: Seq<char>,
    file: Seq<char>,
    references: Seq<Seq<char>>,
    i: int,
)
    requires
        is_directory(dir),
        is_plain_name(file),
        0 <= i < references.len(),
        is_plain_name(references[i]),
        is_plain_name(encoded_bytes(encode_utf8(references[i]))),
    ensures
        names_file(
            dir + file,
            references,
            i,
            dir + encoded_bytes(encode_utf8(references[i])),
        ),
        !references[i].contains('%') ==> names_file(dir + file, references, i, dir + references[i]),
{
    let name = references[i];
    let escaped = encoded_bytes(encode_utf8(name));
    lemma_place(dir, file);
    lemma_place(dir, escaped);
    lemma_place(dir, name);
    lemma_unified_encoded(encode_utf8(name));
    assert(place(dir).push(unified(file, 0)).drop_last() =~= place(dir));
    lemma_name_end(name, 0);
    assert(name.subrange(0, name.len() as int) =~= name);
    if !name.contains('%') {
        lemma_unified_plain(name, 0);
        assert(name.skip(0) =~= name);
    }
}

} // verus!
