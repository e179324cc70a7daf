//! Which characters count as what.

use crate::entries::is_unsupported_npm_spec;
use crate::manifest::is_path_separator;
use crate::outside::{encoded_byte, hex_digit};
use crate::references::{escaped_byte, hex_value, unified};
use crate::requirement::{
    in_class, is_foreign, is_name_separator, is_operator_char, is_quotation_mark, Class,
};
use crate::successor::{mirrored, Comparison};
use crate::text::{
    is_ascii_alphanumeric, is_ascii_digit, is_ascii_whitespace, is_whitespace, lowered,
};
use crate::toml::is_key_char;
use crate::version::is_python_version_char;
use vstd::prelude::*;

verus! {

/// A letter of the Latin alphabet, of either case.
pub open spec fn is_letter(c: char) -> bool {
    ('A' <= c && c <= 'Z') || ('a' <= c && c <= 'z')
}

/// A decimal digit.
pub open spec fn is_decimal(c: char) -> bool {
    c == '0' || c == '1' || c == '2' || c == '3' || c == '4' || c == '5' || c == '6' || c == '7'
        || c == '8' || c == '9'
}

/// Letters and digits are what they are, and make up keys together with underscores and
/// hyphens, and Python versions together with full stops, exclamation marks and plus
/// signs.
pub proof fn letters_and_digits_count(c: char)
    ensures
        is_ascii_digit(c) <==> is_decimal(c),
        is_ascii_alphanumeric(c) <==> is_letter(c) || is_decimal(c),
        is_key_char(c) <==> is_letter(c) || is_decimal(c) || c == '_' || c == '-',
        is_python_version_char(c) <==> is_letter(c) || is_decimal(c) || c == '.' || c == '!' || c
            == '+',
        in_class(Class::Digit, c) <==> is_decimal(c),
        in_class(Class::Name, c) <==> is_letter(c) || is_decimal(c) || c == '.' || c == '-' || c
            == '_',
        is_name_separator(c) <==> c == '.' || c == '-' || c == '_',
{
}

/// The five kinds of white space of ASCII are white space; so are the vertical tab and
/// those that Unicode adds, and no letter, digit or sign is.
pub proof fn white_space_counts(c: char)
    ensures
        is_ascii_whitespace(c) <==> c == ' ' || c == '\t' || c == '\n' || c == '\r' || c
            == '\u{c}',
        c < '\u{80}' ==> (is_whitespace(c) <==> is_ascii_whitespace(c) || c == '\u{b}'),
        '\u{80}' <= c && c < '\u{2000}' ==> (is_whitespace(c) <==> c == '\u{85}' || c == '\u{a0}'
            || c == '\u{1680}'),
        '\u{2000}' <= c ==> (is_whitespace(c) <==> c <= '\u{200a}' || c == '\u{2028}' || c
            == '\u{2029}' || c == '\u{202f}' || c == '\u{205f}' || c == '\u{3000}'),
        in_class(Class::Space, c) <==> is_whitespace(c),
        in_class(Class::Word, c) <==> !is_whitespace(c),
{
}

/// Both kinds of slash part a path, both kinds of quotation mark enclose a text, and
/// five signs make up the operators of a requirement.
pub proof fn signs_count(c: char)
    ensures
        is_path_separator(c) <==> c == '/' || c == '\\',
        is_quotation_mark(c) <==> c == '"' || c == '\'',
        is_operator_char(c) <==> c == '<' || c == '>' || c == '=' || c == '!' || c == '~',
        in_class(Class::Operator, c) <==> is_operator_char(c),
        in_class(Class::BareWord, c) <==> !is_whitespace(c) && c != '"' && c != '\'',
        in_class(Class::Key, c) <==> !is_whitespace(c) && !is_operator_char(c) && c != ')',
        is_foreign(c) <==> c == '"' || c == '\'' || c == '\\' || c == '#' || c == '[' || c == ']',
{
}

/// A comparison read from the other side is read back from there.
pub proof fn mirrors_lead_back(c: Comparison)
    ensures
        mirrored(mirrored(c)) == c,
        mirrored(Comparison::Greater) == Comparison::Less,
        mirrored(Comparison::GreaterEqual) == Comparison::LessEqual,
        c is Greater || c is GreaterEqual || c is Less || c is LessEqual || mirrored(c) == c,
{
}

/// The sixteen digits, in lower case.
pub open spec fn lower_hex_digit(d: int) -> char {
    if d == 10 {
        'a'
    } else if d == 11 {
        'b'
    } else if d == 12 {
        'c'
    } else if d == 13 {
        'd'
    } else if d == 14 {
        'e'
    } else if d == 15 {
        'f'
    } else {
        hex_digit(d)
    }
}

/// An escaped byte of an address is read with digits of either case.
pub proof fn escapes_are_read_in_either_case(high: int, low: int, rest: Seq<char>)
    requires
        0 <= high < 16,
        0 <= low < 16,
    ensures
        escaped_byte(seq!['%', hex_digit(high), hex_digit(low)] + rest, 0) == Some(
            (high * 16 + low) as u8,
        ),
        escaped_byte(seq!['%', lower_hex_digit(high), lower_hex_digit(low)] + rest, 0) == Some(
            (high * 16 + low) as u8,
        ),
        unified(seq!['%', lower_hex_digit(high), lower_hex_digit(low)] + rest, 0) == encoded_byte(
            (high * 16 + low) as u8,
        ) + unified(seq!['%', lower_hex_digit(high), lower_hex_digit(low)] + rest, 3),
{
    lemma_hex(high);
    lemma_hex(low);
    let s = seq!['%', hex_digit(high), hex_digit(low)] + rest;
    let t = seq!['%', lower_hex_digit(high), lower_hex_digit(low)] + rest;
    assert(s[0] == '%' && s[1] == hex_digit(high) && s[2] == hex_digit(low));
    assert(t[0] == '%' && t[1] == lower_hex_digit(high) && t[2] == lower_hex_digit(low));
}

/// The value of a digit.
proof fn lemma_hex(d: int)
    requires
        0 <= d < 16,
    ensures
        hex_value(hex_digit(d)) == Some(d as u8),
        hex_value(lower_hex_digit(d)) == Some(d as u8),
{
}

/// The names of other sources than the npm registry.
pub open spec fn other_sources() -> Seq<Seq<char>> {
    seq![
        "file:"@,
        "link:"@,
        "workspace:"@,
        "git:"@,
        "git+"@,
        "github:"@,
        "http:"@,
        "https:"@,
        "npm:"@,
    ]
}

/// A version of an npm package is passed over if and only if it begins with the name of
/// another source, in whatever case, or is a path.
pub proof fn other_sources_alone_are_passed_over(spec: Seq<char>)
    ensures
        is_unsupported_npm_spec(spec) <==> (spec.contains('/') && spec[0] != '@') || exists|i: int|
            0 <= i < other_sources().len() && #[trigger] other_sources()[i].is_prefix_of(
                lowered(spec),
            ),
{
    let sources = other_sources();
    assert(sources[0] == "file:"@ && sources[1] == "link:"@ && sources[2] == "workspace:"@);
    assert(sources[3] == "git:"@ && sources[4] == "git+"@ && sources[5] == "github:"@);
    assert(sources[6] == "http:"@ && sources[7] == "https:"@ && sources[8] == "npm:"@);
}

/// Capital letters are put in lower case, and other characters stay.
pub proof fn capitals_are_lowered(s: Seq<char>, i: int)
    requires
        0 <= i < s.len(),
    ensures
        lowered(s).len() == s.len(),
        !('A' <= s[i] && s[i] <= 'Z') ==> lowered(s)[i] == s[i],
        s[i] == 'A' ==> lowered(s)[i] == 'a',
        s[i] == 'G' ==> lowered(s)[i] == 'g',
        s[i] == 'Z' ==> lowered(s)[i] == 'z',
        'A' <= s[i] && s[i] <= 'Z' ==> lowered(s)[i] as u32 == s[i] as u32 + 32,
{
}

} // verus!
