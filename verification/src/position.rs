//! Positions in a text: lines and UTF-16 code units, as editors count them.

use crate::text::{byte_offset, byte_offsets, chars_of, lemma_byte_offset_monotonic};
use vstd::prelude::*;

verus! {

/// A line and a column of a text, both counted from zero; the column counts
/// UTF-16 code units.
#[derive(Debug, Clone, Copy, PartialEq, Eq, Structural)]
pub struct Position {
    pub line: u32,
    pub character: u32,
}

/// A stretch of a text, in bytes.
#[derive(Debug, Clone, Copy, PartialEq, Eq, Structural)]
pub struct Span {
    pub start: usize,
    pub end: usize,
}

/// A stretch of a text between two positions.
#[derive(Debug, Clone, Copy, PartialEq, Eq, Structural)]
pub struct Range {
    pub start: Position,
    pub end: Position,
}

/// The number of UTF-16 code units that encode `c`.
#[verifier::allow_in_spec]
pub fn utf16_width(c: char) -> (n: u128)
    returns
        (if c > '\u{ffff}' {
            2u128
        } else {
            1u128
        }),
{
    if c > '\u{ffff}' {
        2u128
    } else {
        1u128
    }
}

/// The line and the column at which character `i` stands.
pub open spec fn place_of(s: Seq<char>, i: int) -> (nat, nat)
    decreases i,
{
    if i <= 0 {
        (0, 0)
    } else {
        let (line, character) = place_of(s, i - 1);
        if s[i - 1] == '\n' {
            (line + 1, 0)
        } else {
            (line, character + utf16_width(s[i - 1]) as nat)
        }
    }
}

/// Whether a place can be written as a position.
pub open spec fn place_fits(place: (nat, nat)) -> bool {
    place.0 <= u32::MAX && place.1 <= u32::MAX
}

/// The place that a position names.
pub open spec fn place_named(position: Position) -> (nat, nat) {
    (position.line as nat, position.character as nat)
}

/// The first character from `i` on that begins at the byte `target` or behind
/// it; the end of the text if there is none.
pub open spec fn char_at_byte(s: Seq<char>, target: int, i: int) -> int
    decreases s.len() - i,
{
    if i < 0 || i >= s.len() || byte_offset(s, i) >= target {
        i
    } else {
        char_at_byte(s, target, i + 1)
    }
}

/// The place of the byte `target`.
pub open spec fn byte_place(s: Seq<char>, target: int) -> (nat, nat) {
    place_of(s, char_at_byte(s, target, 0))
}

/// The first character from `i` on that stands at a place; the end of the text
/// counts.
pub open spec fn char_at_place(s: Seq<char>, place: (nat, nat), i: int) -> Option<int>
    decreases s.len() + 1 - i,
{
    if i < 0 || i > s.len() {
        None
    } else if place_of(s, i) == place {
        Some(i)
    } else {
        char_at_place(s, place, i + 1)
    }
}

/// The byte at which a position stands.
pub open spec fn position_offset(s: Seq<char>, position: Position) -> Option<int> {
    match char_at_place(s, place_named(position), 0) {
        Some(i) => Some(byte_offset(s, i) as int),
        None => None,
    }
}

/// Places grow by no more than two with each character.
proof fn lemma_place_bounded(s: Seq<char>, i: int)
    requires
        0 <= i <= s.len(),
    ensures
        place_of(s, i).0 <= i,
        place_of(s, i).1 <= 2 * i,
    decreases i,
{
    if i > 0 {
        lemma_place_bounded(s, i - 1);
    }
}

/// The byte offset of a position.
pub fn position_to_offset(text: &str, position: Position) -> (offset: Option<usize>)
    ensures
        (match offset {
            Some(o) => Some(o as int),
            None => None,
        }) == position_offset(text@, position),
{
    let chars = chars_of(text);
    let offsets = byte_offsets(text);
    let n: usize = chars.len();
    let mut line: u128 = 0;
    let mut character: u128 = 0;
    let mut i: usize = 0;
    loop
        invariant
            chars@ == text@,
            n == chars@.len(),
            i <= n,
            offsets@.len() == n + 1,
            forall|k: int| 0 <= k <= n ==> #[trigger] offsets@[k] == byte_offset(text@, k),
            (line as nat, character as nat) == place_of(text@, i as int),
            char_at_place(text@, place_named(position), 0) == char_at_place(
                text@,
                place_named(position),
                i as int,
            ),
        decreases n - i,
    {
        if line == position.line as u128 && character == position.character as u128 {
            return Some(offsets[i]);
        }
        if i >= n {
            assert(char_at_place(text@, place_named(position), i + 1) is None);
            return None;
        }
        proof {
            lemma_place_bounded(text@, i as int);
        }
        if chars[i] == '\n' {
            line += 1;
            character = 0;
        } else {
            character += utf16_width(chars[i]);
        }
        i += 1;
    }
}

/// The place of the byte `target`.
fn place_of_byte(text: &str, target: usize) -> (place: (u128, u128))
    ensures
        (place.0 as nat, place.1 as nat) == byte_place(text@, target as int),
{
    let chars = chars_of(text);
    let offsets = byte_offsets(text);
    let n: usize = chars.len();
    let mut line: u128 = 0;
    let mut character: u128 = 0;
    let mut i: usize = 0;
    while i < n && offsets[i] < target
        invariant
            chars@ == text@,
            n == chars@.len(),
            i <= n,
            offsets@.len() == n + 1,
            forall|k: int| 0 <= k <= n ==> #[trigger] offsets@[k] == byte_offset(text@, k),
            (line as nat, character as nat) == place_of(text@, i as int),
            char_at_byte(text@, target as int, 0) == char_at_byte(text@, target as int, i as int),
        decreases n - i,
    {
        proof {
            lemma_place_bounded(text@, i as int);
        }
        if chars[i] == '\n' {
            line += 1;
            character = 0;
        } else {
            character += utf16_width(chars[i]);
        }
        i += 1;
    }
    (line, character)
}

/// The position of the byte `target`.
pub fn offset_to_position(text: &str, target: usize) -> (position: Position)
    requires
        place_fits(byte_place(text@, target as int)),
    ensures
        place_named(position) == byte_place(text@, target as int),
{
    let (line, character) = place_of_byte(text, target);
    Position { line: line as u32, character: character as u32 }
}

/// The position of the byte `target`, if it can be written as one.
pub fn checked_position(text: &str, target: usize) -> (position: Option<Position>)
    ensures
        position is Some == place_fits(byte_place(text@, target as int)),
        position matches Some(p) ==> place_named(p) == byte_place(text@, target as int),
{
    let (line, character) = place_of_byte(text, target);
    if line <= u32::MAX as u128 && character <= u32::MAX as u128 {
        Some(Position { line: line as u32, character: character as u32 })
    } else {
        None
    }
}

/// Whether both ends of a span can be written as positions.
pub open spec fn span_fits(text: Seq<char>, span: Span) -> bool {
    place_fits(byte_place(text, span.start as int)) && place_fits(
        byte_place(text, span.end as int),
    )
}

/// The range that a span takes.
pub open spec fn is_range_of(range: Range, text: Seq<char>, span: Span) -> bool {
    place_named(range.start) == byte_place(text, span.start as int) && place_named(range.end)
        == byte_place(text, span.end as int)
}

/// The range of a span.
pub fn span_to_range(text: &str, span: &Span) -> (range: Range)
    requires
        span_fits(text@, *span),
    ensures
        is_range_of(range, text@, *span),
{
    Range {
        start: offset_to_position(text, span.start),
        end: offset_to_position(text, span.end),
    }
}

/// The range of a span, if both its ends can be written as positions.
pub fn checked_range(text: &str, span: &Span) -> (range: Option<Range>)
    ensures
        range is Some == span_fits(text@, *span),
        range matches Some(r) ==> is_range_of(r, text@, *span),
{
    match (checked_position(text, span.start), checked_position(text, span.end)) {
        (Some(start), Some(end)) => Some(Range { start, end }),
        _ => None,
    }
}

/// Later characters stand at later places.
pub proof fn lemma_places_grow(s: Seq<char>, i: int, j: int)
    requires
        0 <= i < j <= s.len(),
    ensures
        place_of(s, i).0 < place_of(s, j).0 || (place_of(s, i).0 == place_of(s, j).0 && place_of(
            s,
            i,
        ).1 < place_of(s, j).1),
    decreases j - i,
{
    if i + 1 < j {
        lemma_places_grow(s, i, j - 1);
    }
}

/// A place names one character.
pub proof fn lemma_char_at_place(s: Seq<char>, i: int, from: int)
    requires
        0 <= from <= i <= s.len(),
    ensures
        char_at_place(s, place_of(s, i), from) == Some(i),
    decreases i - from,
{
    if from < i {
        lemma_places_grow(s, from, i);
        lemma_char_at_place(s, i, from + 1);
    }
}

/// A byte at which a character begins leads to that character.
pub proof fn lemma_char_at_byte(s: Seq<char>, i: int, from: int)
    requires
        0 <= from <= i <= s.len(),
    ensures
        char_at_byte(s, byte_offset(s, i) as int, from) == i,
    decreases i - from,
{
    if from < i {
        lemma_byte_offset_monotonic(s, from, i);
        lemma_char_at_byte(s, i, from + 1);
    }
}

} // verus!
