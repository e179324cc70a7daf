//! What is read of versions as they are written.

use crate::edits::in_quotation_marks;
use crate::manifest::{plain_dependency, workspace_dependency, DependencyVersionView, Registry};
use crate::markers::is_gap;
use crate::python_laws::lemma_trimmed_lead;
use crate::tables::{is_bare, is_text, lemma_text_token};
use crate::text::{
    index_of, is_ascii_digit, is_whitespace, lemma_index_of, trimmed, trimmed_end, trimmed_start,
};
use crate::toml::{is_key_char, normalized_key};
use crate::version::{
    decimal, is_digits, is_simple, lemma_decimal, lemma_split_first, lemma_split_one,
    lemma_split_three, lenient_version, number, split, version_prefix, version_rest, version_text,
    without_equals, without_metadata, VersionView,
};
use vstd::prelude::*;

verus! {

/// A version with nothing but three numbers.
pub open spec fn release(major: u64, minor: u64, patch: u64) -> VersionView {
    VersionView { major, minor, patch, pre: Seq::empty(), build: Seq::empty() }
}

/// One, two or three numbers in writing, separated by full stops.
pub open spec fn numbers_text(major: u64, minor: Option<u64>, patch: Option<u64>) -> Seq<char> {
    match (minor, patch) {
        (Some(b), Some(c)) => decimal(major as nat).push('.') + decimal(b as nat).push('.')
            + decimal(c as nat),
        (Some(b), None) => decimal(major as nat).push('.') + decimal(b as nat),
        _ => decimal(major as nat),
    }
}

/// The operators that a version can stand behind and be rewritten: a caret, a tilde or
/// none.
pub open spec fn is_kept_operator(operator: Seq<char>) -> bool {
    operator.len() == 0 || operator == seq!['^'] || operator == seq!['~']
}

/// A dependency is what it was made of; and it is no Python dependency, and does not
/// refer to the workspace.
pub proof fn dependency_says_what_it_was_made_of(
    name: Seq<char>,
    section: Seq<char>,
    registry: Registry,
    current: Seq<char>,
    start: int,
    end: int,
)
    ensures
        ({
            let dep = plain_dependency(name, section, registry, current, start, end);
            &&& dep.name == name
            &&& dep.section == section
            &&& dep.registry == registry
            &&& dep.current == current
            &&& dep.start == start
            &&& dep.end == end
            &&& dep.python_specifiers is None
            &&& !dep.is_workspace
        }),
{
}

/// The pieces of numbers in writing.
proof fn lemma_pieces(major: u64, minor: Option<u64>, patch: Option<u64>)
    requires
        patch is Some ==> minor is Some,
    ensures
        ({
            let text = numbers_text(major, minor, patch);
            let parts = split(text, '.');
            &&& text.len() > 0
            &&& is_ascii_digit(text[0])
            &&& is_ascii_digit(text.last())
            &&& parts.len() <= 3
            &&& forall|i: int|
                0 <= i < parts.len() ==> (#[trigger] parts[i]).len() > 0 && is_digits(parts[i])
            &&& parts.len() > 0 && parts[0] == decimal(major as nat)
            &&& minor matches Some(b) ==> parts.len() > 1 && parts[1] == decimal(b as nat)
            &&& patch matches Some(c) ==> parts.len() > 2 && parts[2] == decimal(c as nat)
            &&& minor is None ==> parts.len() == 1
            &&& patch is None ==> parts.len() <= 2
            &&& forall|i: int|
                0 <= i < text.len() ==> is_ascii_digit(#[trigger] text[i]) || text[i] == '.'
        }),
{
    let a = decimal(major as nat);
    let text = numbers_text(major, minor, patch);
    lemma_decimal(major as nat);
    lemma_no_stop(a);
    assert(is_ascii_digit(a[0]));
    assert(is_ascii_digit(a[a.len() - 1]));
    match (minor, patch) {
        (Some(b), Some(c)) => {
            let bt = decimal(b as nat);
            let ct = decimal(c as nat);
            lemma_decimal(b as nat);
            lemma_decimal(c as nat);
            lemma_split_three(a, bt, ct);
            assert(text[0] == a[0]);
            assert(text.last() == ct[ct.len() - 1]);
            assert(is_ascii_digit(ct[ct.len() - 1]));
            assert forall|i: int| 0 <= i < text.len() implies is_ascii_digit(#[trigger] text[i])
                || text[i] == '.' by {
                let n = a.len() as int;
                let m = n + 1 + bt.len();
                if i < n {
                    assert(text[i] == a[i]);
                } else if n < i < m {
                    assert(text[i] == bt[i - n - 1]);
                } else if i > m {
                    assert(text[i] == ct[i - m - 1]);
                }
            }
        },
        (Some(b), None) => {
            let bt = decimal(b as nat);
            lemma_decimal(b as nat);
            lemma_no_stop(bt);
            lemma_split_one(bt, '.');
            lemma_split_first(a, bt, '.');
            assert(split(text, '.') =~= seq![a, bt]);
            assert(text[0] == a[0]);
            assert(text.last() == bt[bt.len() - 1]);
            assert(is_ascii_digit(bt[bt.len() - 1]));
            assert forall|i: int| 0 <= i < text.len() implies is_ascii_digit(#[trigger] text[i])
                || text[i] == '.' by {
                let n = a.len() as int;
                if i < n {
                    assert(text[i] == a[i]);
                } else if n < i {
                    assert(text[i] == bt[i - n - 1]);
                }
            }
        },
        _ => {
            lemma_split_one(a, '.');
        },
    }
}

/// Digits hold no full stop.
proof fn lemma_no_stop(digits: Seq<char>)
    requires
        is_digits(digits),
    ensures
        !digits.contains('.'),
{
    if digits.contains('.') {
        let i = choose|i: int| 0 <= i < digits.len() && digits[i] == '.';
        assert(is_ascii_digit(digits[i]));
    }
}

/// Text that holds neither blanks nor plus signs is read as it is.
proof fn lemma_clean(text: Seq<char>)
    requires
        text.len() > 0,
        text[0] != '=',
        !is_whitespace(text[0]),
        !is_whitespace(text.last()),
        forall|i: int| 0 <= i < text.len() ==> #[trigger] text[i] != '+',
    ensures
        without_equals(text) == text,
        trimmed(text) == text,
        without_metadata(text) == text,
{
    assert(trimmed_start(text) == text);
    assert(trimmed_end(text) == text);
    lemma_index_of(text, '+', 0, text.len() as int);
}

/// Numbers in writing are simple, and are read as the version they name.
proof fn lemma_numbers(major: u64, minor: Option<u64>, patch: Option<u64>)
    requires
        patch is Some ==> minor is Some,
    ensures
        ({
            let text = numbers_text(major, minor, patch);
            &&& is_simple(text)
            &&& lenient_version(text) == Some(
                release(
                    major,
                    match minor {
                        Some(b) => b,
                        None => 0,
                    },
                    match patch {
                        Some(c) => c,
                        None => 0,
                    },
                ),
            )
        }),
{
    let text = numbers_text(major, minor, patch);
    lemma_pieces(major, minor, patch);
    lemma_clean(text);
    lemma_decimal(major as nat);
    lemma_decimal(0);
    if let Some(b) = minor {
        lemma_decimal(b as nat);
    }
    if let Some(c) = patch {
        lemma_decimal(c as nat);
    }
    assert(decimal(0) =~= seq!['0']);
}

/// One to three numbers are read as the version they name, missing ones as zero, behind
/// a caret, a tilde or nothing; the operator is kept, and the version can be rewritten.
pub proof fn numbers_are_read(
    name: Seq<char>,
    section: Seq<char>,
    registry: Registry,
    operator: Seq<char>,
    major: u64,
    minor: Option<u64>,
    patch: Option<u64>,
    start: int,
    end: int,
)
    requires
        is_kept_operator(operator),
        patch is Some ==> minor is Some,
    ensures
        ({
            let current = operator + numbers_text(major, minor, patch);
            let dep = plain_dependency(name, section, registry, current, start, end);
            &&& dep.can_edit
            &&& dep.prefix == operator
            &&& dep.current_version == Some(
                DependencyVersionView::Semver(
                    release(
                        major,
                        match minor {
                            Some(b) => b,
                            None => 0,
                        },
                        match patch {
                            Some(c) => c,
                            None => 0,
                        },
                    ),
                ),
            )
        }),
{
    let text = numbers_text(major, minor, patch);
    let current = operator + text;
    lemma_pieces(major, minor, patch);
    lemma_numbers(major, minor, patch);
    if operator.len() == 0 {
        assert(current =~= text);
        assert(version_prefix(current) =~= operator);
        assert(version_rest(current) =~= text);
    } else {
        assert(current[0] == operator[0]);
        assert(version_prefix(current) =~= operator);
        assert(version_rest(current) =~= text);
    }
}

/// Behind an equals sign, and blanks, a version is read too, but cannot be rewritten.
pub proof fn pinned_numbers_are_read(
    name: Seq<char>,
    section: Seq<char>,
    registry: Registry,
    gap: Seq<char>,
    major: u64,
    minor: Option<u64>,
    patch: Option<u64>,
    start: int,
    end: int,
)
    requires
        is_gap(gap),
        patch is Some ==> minor is Some,
    ensures
        ({
            let current = seq!['='] + gap + numbers_text(major, minor, patch);
            let dep = plain_dependency(name, section, registry, current, start, end);
            &&& !dep.can_edit
            &&& dep.prefix.len() == 0
            &&& dep.current_version == Some(
                DependencyVersionView::Semver(
                    release(
                        major,
                        match minor {
                            Some(b) => b,
                            None => 0,
                        },
                        match patch {
                            Some(c) => c,
                            None => 0,
                        },
                    ),
                ),
            )
        }),
{
    let text = numbers_text(major, minor, patch);
    let spaced = gap + text;
    let current = seq!['='] + gap + text;
    lemma_pieces(major, minor, patch);
    lemma_numbers(major, minor, patch);
    lemma_clean(text);
    assert(current[0] == '=');
    assert(version_rest(current) =~= current);
    assert(current.skip(1) =~= spaced);
    if gap.len() > 0 {
        assert(spaced[0] == gap[0]);
    } else {
        assert(spaced[0] == text[0]);
    }
    assert(without_equals(spaced) == spaced);
    assert(without_equals(current) == spaced);
    lemma_trimmed_lead(gap, text);
    if is_simple(current) {
        lemma_simple_chars(current);
        assert(is_ascii_digit(current[0]) || current[0] == '.');
    }
}

/// Build metadata behind a version does not count, and keeps it from being rewritten.
pub proof fn metadata_is_dropped(
    name: Seq<char>,
    section: Seq<char>,
    registry: Registry,
    major: u64,
    minor: Option<u64>,
    patch: Option<u64>,
    metadata: Seq<char>,
    start: int,
    end: int,
)
    requires
        patch is Some ==> minor is Some,
        forall|i: int| 0 <= i < metadata.len() ==> !is_whitespace(#[trigger] metadata[i]),
    ensures
        ({
            let numbers = numbers_text(major, minor, patch);
            let current = numbers + seq!['+'] + metadata;
            let dep = plain_dependency(name, section, registry, current, start, end);
            &&& !dep.can_edit
            &&& dep.current_version == plain_dependency(
                name,
                section,
                registry,
                numbers,
                start,
                end,
            ).current_version
        }),
{
    let text = numbers_text(major, minor, patch);
    let current = text + seq!['+'] + metadata;
    let n = text.len() as int;
    lemma_pieces(major, minor, patch);
    lemma_numbers(major, minor, patch);
    lemma_clean(text);
    assert(current[0] == text[0]);
    assert(version_rest(current) =~= current);
    assert(version_rest(text) =~= text);
    assert(without_equals(current) == current);
    assert(trimmed_start(current) == current);
    if metadata.len() > 0 {
        assert(current.last() == metadata[metadata.len() - 1]);
    } else {
        assert(current.last() == '+');
    }
    assert(trimmed_end(current) == current);
    lemma_index_of(current, '+', 0, current.len() as int);
    assert(current[n] == '+');
    assert forall|i: int| 0 <= i < n implies #[trigger] current[i] != '+' by {
        assert(current[i] == text[i]);
    }
    assert(index_of(current, '+', 0, current.len() as int) == Some(n));
    assert(without_metadata(current) =~= text);
    if is_simple(current) {
        lemma_simple_chars(current);
        assert(is_ascii_digit(current[n]) || current[n] == '.');
    }
}

/// Simple versions hold nothing but digits and full stops.
proof fn lemma_simple_chars(s: Seq<char>)
    requires
        is_simple(s),
    ensures
        forall|i: int| 0 <= i < s.len() ==> is_ascii_digit(#[trigger] s[i]) || s[i] == '.',
{
    lemma_pieces_chars(s);
}

/// What is split into digits holds nothing but digits and full stops.
proof fn lemma_pieces_chars(s: Seq<char>)
    requires
        forall|i: int| 0 <= i < split(s, '.').len() ==> is_digits(#[trigger] split(s, '.')[i]),
    ensures
        forall|i: int| 0 <= i < s.len() ==> is_ascii_digit(#[trigger] s[i]) || s[i] == '.',
    decreases s.len(),
{
    lemma_index_of(s, '.', 0, s.len() as int);
    let parts = split(s, '.');
    match index_of(s, '.', 0, s.len() as int) {
        Some(k) => {
            let rest = s.skip(k + 1);
            assert(parts == seq![s.take(k)] + split(rest, '.'));
            assert(parts[0] == s.take(k));
            assert forall|i: int| 0 <= i < split(rest, '.').len() implies is_digits(
                #[trigger] split(rest, '.')[i],
            ) by {
                assert(parts[i + 1] == split(rest, '.')[i]);
            }
            lemma_pieces_chars(rest);
            assert forall|i: int| 0 <= i < s.len() implies is_ascii_digit(#[trigger] s[i]) || s[i]
                == '.' by {
                if i < k {
                    assert(s.take(k)[i] == s[i]);
                } else if i > k {
                    assert(rest[i - k - 1] == s[i]);
                }
            }
        },
        None => {
            assert(parts[0] == s);
        },
    }
}

/// A requirement with anything but digits and full stops behind its operator cannot be
/// rewritten; and where that is no equals sign, plus sign or blank, no version is read
/// from it.
pub proof fn other_requirements_are_left_alone(
    name: Seq<char>,
    section: Seq<char>,
    registry: Registry,
    current: Seq<char>,
    start: int,
    end: int,
    i: int,
)
    requires
        0 <= i < current.len(),
        !is_ascii_digit(current[i]),
        current[i] != '.',
        i > 0 || (current[0] != '^' && current[0] != '~'),
    ensures
        ({
            let dep = plain_dependency(name, section, registry, current, start, end);
            &&& !dep.can_edit
            &&& current[0] != '^' && current[0] != '~' ==> dep.prefix.len() == 0
            &&& (forall|k: int|
                0 <= k < current.len() ==> #[trigger] current[k] != '=' && current[k] != '+'
                    && !is_whitespace(current[k])) ==> dep.current_version is None
        }),
{
    let rest = version_rest(current);
    let n = version_prefix(current).len() as int;
    assert(rest[i - n] == current[i]);
    if is_simple(rest) {
        lemma_simple_chars(rest);
        assert(is_ascii_digit(rest[i - n]) || rest[i - n] == '.');
    }
    if forall|k: int|
        0 <= k < current.len() ==> #[trigger] current[k] != '=' && current[k] != '+'
            && !is_whitespace(current[k]) {
        assert forall|k: int| 0 <= k < rest.len() implies #[trigger] rest[k] != '+' && rest[k]
            != '=' && !is_whitespace(rest[k]) by {
            assert(rest[k] == current[k + n]);
        }
        assert(rest.last() == rest[rest.len() - 1]);
        lemma_clean(rest);
    }
}

/// A dependency that leaves its version to the workspace has none of its own, and cannot
/// be rewritten.
pub proof fn reference_has_no_version(
    name: Seq<char>,
    section: Seq<char>,
    start: int,
    end: int,
)
    ensures
        ({
            let dep = workspace_dependency(name, section, start, end);
            &&& dep.name == name
            &&& dep.section == section
            &&& dep.registry == Registry::Cargo
            &&& dep.current == "workspace = true"@
            &&& dep.start == start
            &&& dep.end == end
            &&& !dep.can_edit
            &&& dep.prefix.len() == 0
            &&& dep.current_version is None
            &&& dep.python_specifiers is None
            &&& dep.is_workspace
        }),
{
}

/// The name of a key is what stands between its quotation marks, or else the key.
pub proof fn keys_name_what_they_quote(text: Seq<char>)
    ensures
        is_text(text) ==> normalized_key(in_quotation_marks(text)) == Some(text),
        is_bare(text) ==> normalized_key(text) == Some(text),
        text.len() == 0 ==> normalized_key(text) is None,
{
    if is_text(text) {
        let key = in_quotation_marks(text);
        assert(key[0] == '"');
        assert(key.subrange(0, key.len() as int) =~= key);
        lemma_text_token(key, 0, text, key.len() as int);
    }
    if is_bare(text) {
        assert(is_key_char(text[0]));
    }
}

/// A version is written as its three numbers, then its pre-release behind a hyphen and
/// its build metadata behind a plus sign, where it has them.
pub proof fn version_is_written(v: VersionView)
    ensures
        ({
            let numbers = decimal(v.major as nat) + seq!['.'] + decimal(v.minor as nat) + seq!['.']
                + decimal(v.patch as nat);
            &&& v.pre.len() == 0 && v.build.len() == 0 ==> version_text(v) == numbers
            &&& v.pre.len() > 0 && v.build.len() == 0 ==> version_text(v) == numbers + seq!['-']
                + v.pre
            &&& v.pre.len() == 0 && v.build.len() > 0 ==> version_text(v) == numbers + seq!['+']
                + v.build
            &&& v.pre.len() > 0 && v.build.len() > 0 ==> version_text(v) == numbers + seq!['-']
                + v.pre + seq!['+'] + v.build
        }),
{
    let numbers = decimal(v.major as nat) + seq!['.'] + decimal(v.minor as nat) + seq!['.']
        + decimal(v.patch as nat);
    let core = decimal(v.major as nat).push('.') + decimal(v.minor as nat).push('.') + decimal(
        v.patch as nat,
    );
    assert(core =~= numbers);
    assert(core.push('-') + v.pre =~= numbers + seq!['-'] + v.pre);
    assert(core.push('+') + v.build =~= numbers + seq!['+'] + v.build);
    assert((core.push('-') + v.pre).push('+') + v.build =~= numbers + seq!['-'] + v.pre + seq![
        '+',
    ] + v.build);
}

/// Numbers are written in decimal: with digits, without needless zeros, and so that
/// they are read as the same number.
pub proof fn numbers_are_written_in_decimal(n: nat)
    ensures
        is_digits(decimal(n)),
        decimal(n).len() > 1 ==> decimal(n)[0] != '0',
        number(decimal(n)) == n,
{
    lemma_decimal(n);
}

} // verus!
