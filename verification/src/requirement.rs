//! Python requirements: which can be read, and where their version stands.

use crate::successor::{
    comparison, has_no_successor, lacks_successor, read_comparison, Comparison,
};
use crate::text::{
    equals, find_char, first_index, index_of, is_ascii_alphanumeric, is_ascii_digit, is_whitespace,
    lemma_index_of, lemma_trimmed_end, trim_end, trimmed_end,
};
use vstd::prelude::*;
use vstd::slice::slice_subrange;

verus! {

// ---------------------------------------------------------------------------
// Runs of characters
// ---------------------------------------------------------------------------

/// Classes of characters.
#[derive(Clone, Copy)]
pub enum Class {
    /// White space.
    Space,
    /// What package names are made of.
    Name,
    /// The digits `0` to `9`.
    Digit,
    /// What comparison operators are made of.
    Operator,
    /// Anything but white space.
    Word,
    /// Anything but white space and quotation marks.
    BareWord,
    /// Anything that can stand in the name of a marker.
    Key,
}

/// The punctuation of package names.
#[verifier::allow_in_spec]
pub fn is_name_separator(c: char) -> (b: bool)
    returns
        c == '.' || c == '-' || c == '_',
{
    c == '.' || c == '-' || c == '_'
}

/// What comparison operators are made of.
#[verifier::allow_in_spec]
pub fn is_operator_char(c: char) -> (b: bool)
    returns
        c == '<' || c == '=' || c == '>' || c == '~' || c == '!',
{
    c == '<' || c == '=' || c == '>' || c == '~' || c == '!'
}

/// The two quotation marks.
#[verifier::allow_in_spec]
pub fn is_quotation_mark(c: char) -> (b: bool)
    returns
        c == '"' || c == '\'',
{
    c == '"' || c == '\''
}

/// Whether `c` is of the class.
#[verifier::allow_in_spec]
pub fn in_class(class: Class, c: char) -> (b: bool)
    returns
        match class {
            Class::Space => is_whitespace(c),
            Class::Name => is_ascii_alphanumeric(c) || is_name_separator(c),
            Class::Digit => is_ascii_digit(c),
            Class::Operator => is_operator_char(c),
            Class::Word => !is_whitespace(c),
            Class::BareWord => !is_whitespace(c) && !is_quotation_mark(c),
            Class::Key => !is_whitespace(c) && !is_operator_char(c) && c != ')',
        },
{
    match class {
        Class::Space => is_whitespace(c),
        Class::Name => is_ascii_alphanumeric(c) || is_name_separator(c),
        Class::Digit => is_ascii_digit(c),
        Class::Operator => is_operator_char(c),
        Class::Word => !is_whitespace(c),
        Class::BareWord => !is_whitespace(c) && !is_quotation_mark(c),
        Class::Key => !is_whitespace(c) && !is_operator_char(c) && c != ')',
    }
}

/// Where the run of characters of the class that begins at `from` ends.
pub open spec fn run_end(s: Seq<char>, class: Class, from: int) -> int
    decreases s.len() - from,
{
    if 0 <= from < s.len() && in_class(class, s[from]) {
        run_end(s, class, from + 1)
    } else {
        from
    }
}

/// A run ends in the text, at a character of another class or at the end.
pub proof fn lemma_run_end(s: Seq<char>, class: Class, from: int)
    requires
        0 <= from <= s.len(),
    ensures
        from <= run_end(s, class, from) <= s.len(),
        run_end(s, class, from) < s.len() ==> !in_class(class, s[run_end(s, class, from)]),
        from < s.len() && in_class(class, s[from]) ==> from < run_end(s, class, from),
        forall|i: int| from <= i < run_end(s, class, from) ==> in_class(class, #[trigger] s[i]),
    decreases s.len() - from,
{
    if from < s.len() && in_class(class, s[from]) {
        lemma_run_end(s, class, from + 1);
    }
}

/// Finds the end of a run.
pub fn skip_run(s: &[char], class: Class, from: usize) -> (end: usize)
    requires
        from <= s@.len(),
    ensures
        end == run_end(s@, class, from as int),
        from <= end <= s@.len(),
        end < s@.len() ==> !in_class(class, s@[end as int]),
        from < s@.len() && in_class(class, s@[from as int]) ==> from < end,
{
    let mut end: usize = from;
    while end < s.len() && in_class(class, s[end])
        invariant
            from <= end <= s@.len(),
            run_end(s@, class, from as int) == run_end(s@, class, end as int),
            from < s@.len() && in_class(class, s@[from as int]) ==> from < end || end == from,
        decreases s@.len() - end,
    {
        end += 1;
    }
    proof {
        lemma_run_end(s@, class, from as int);
    }
    end
}

// ---------------------------------------------------------------------------
// Markers
// ---------------------------------------------------------------------------

/// The markers that hold a string.
pub open spec fn is_string_key(key: Seq<char>) -> bool {
    ||| key == "implementation_name"@
    ||| key == "os_name"@
    ||| key == "os.name"@
    ||| key == "platform_machine"@
    ||| key == "platform.machine"@
    ||| key == "platform_python_implementation"@
    ||| key == "platform.python_implementation"@
    ||| key == "python_implementation"@
    ||| key == "platform_release"@
    ||| key == "platform_system"@
    ||| key == "platform_version"@
    ||| key == "platform.version"@
    ||| key == "sys_platform"@
    ||| key == "sys.platform"@
}

/// Where the value that begins at `i` ends, and whether it is quoted.
pub open spec fn marker_value(s: Seq<char>, i: int) -> Option<(bool, int)> {
    if i < 0 || i >= s.len() {
        None
    } else if is_quotation_mark(s[i]) {
        match index_of(s, s[i], i + 1, s.len() as int) {
            Some(j) => Some((true, j + 1)),
            None => None,
        }
    } else if in_class(Class::Key, s[i]) {
        Some((false, run_end(s, Class::Key, i)))
    } else {
        None
    }
}

/// The comparison that is written at `i`, and where its operator ends.
pub open spec fn marker_operator(s: Seq<char>, i: int) -> Option<(Comparison, int)> {
    if i < 0 || i >= s.len() {
        None
    } else if is_operator_char(s[i]) {
        let end = run_end(s, Class::Operator, i);
        Some((comparison(s.subrange(i, end)), end))
    } else {
        let end = run_end(s, Class::BareWord, i);
        let word = s.subrange(i, end);
        if word == "in"@ {
            Some((Comparison::In, end))
        } else if word == "not"@ && end < s.len() && is_whitespace(s[end]) {
            let next = run_end(s, Class::Space, end);
            if next + 1 < s.len() && s[next] == 'i' && s[next + 1] == 'n' {
                Some((Comparison::NotIn, next + 2))
            } else {
                None
            }
        } else {
            None
        }
    }
}

/// Where the comparison that begins at `i` ends. A quoted value that stands first is
/// not compared by `~=` with a marker that holds a string; and none is compared with
/// a marker that holds a version, where a number would need a successor and has none.
pub open spec fn marker_comparison(s: Seq<char>, i: int) -> Option<int> {
    match marker_value(s, i) {
        Some((left_quoted, left_end)) => match marker_operator(
            s,
            run_end(s, Class::Space, left_end),
        ) {
            Some((c, operator_end)) => {
                let right = run_end(s, Class::Space, operator_end);
                match marker_value(s, right) {
                    Some((right_quoted, end)) => {
                        let l = s.subrange(i, left_end);
                        let r = s.subrange(right, end);
                        if left_quoted && !right_quoted && (c == Comparison::Compatible
                            && is_string_key(r) || lacks_successor(l, c, r, true)) {
                            None
                        } else if !left_quoted && right_quoted && lacks_successor(r, c, l, false) {
                            None
                        } else {
                            Some(end)
                        }
                    },
                    None => None,
                }
            },
            None => None,
        },
        None => None,
    }
}

/// A value, an operator and a value take some room.
pub proof fn lemma_marker_comparison(s: Seq<char>, i: int)
    ensures
        marker_value(s, i) matches Some((quoted, end)) ==> 0 <= i < end <= s.len(),
        marker_operator(s, i) matches Some((c, end)) ==> 0 <= i < end <= s.len(),
        marker_comparison(s, i) matches Some(end) ==> 0 <= i < end <= s.len(),
{
    lemma_marker_value(s, i);
    if let Some((_, left_end)) = marker_value(s, i) {
        lemma_run_end(s, Class::Space, left_end);
        lemma_marker_operator(s, run_end(s, Class::Space, left_end));
        if let Some((_, operator_end)) = marker_operator(s, run_end(s, Class::Space, left_end)) {
            lemma_run_end(s, Class::Space, operator_end);
            lemma_marker_value(s, run_end(s, Class::Space, operator_end));
        }
    }
    lemma_marker_operator(s, i);
}

proof fn lemma_marker_value(s: Seq<char>, i: int)
    ensures
        marker_value(s, i) matches Some((quoted, end)) ==> 0 <= i < end <= s.len(),
{
    if 0 <= i < s.len() {
        lemma_index_of(s, s[i], i + 1, s.len() as int);
        lemma_run_end(s, Class::Key, i);
    }
}

proof fn lemma_marker_operator(s: Seq<char>, i: int)
    ensures
        marker_operator(s, i) matches Some((c, end)) ==> 0 <= i < end <= s.len(),
{
    if 0 <= i < s.len() {
        lemma_run_end(s, Class::Operator, i);
        lemma_run_end(s, Class::BareWord, i);
        let end = run_end(s, Class::BareWord, i);
        reveal_strlit("in");
        assert(end == i ==> s.subrange(i, end).len() == 0);
        lemma_run_end(s, Class::Space, end);
    }
}

/// Whether a word holds ASCII characters only.
pub open spec fn is_ascii(word: Seq<char>) -> bool {
    forall|i: int| 0 <= i < word.len() ==> #[trigger] word[i] <= '\u{7f}'
}

/// Whether a marker reads well from `from` on, inside `depth` parentheses.
/// `joint` says that a comparison has just ended; otherwise one begins.
pub open spec fn marker_reads(s: Seq<char>, from: int, depth: nat, joint: bool) -> bool
    decreases s.len() - from,
{
    if from < 0 || from > s.len() {
        false
    } else {
        proof {
            lemma_run_end(s, Class::Space, from);
        }
        let i = run_end(s, Class::Space, from);
        if joint {
            let end = run_end(s, Class::Word, i);
            let word = s.subrange(i, end);
            proof {
                lemma_run_end(s, Class::Word, i);
            }
            if i >= s.len() {
                true
            } else if word == "and"@ || word == "or"@ {
                marker_reads(s, end, depth, false)
            } else if s[i] == ')' && depth > 0 && is_ascii(word) {
                marker_reads(s, i + 1, (depth - 1) as nat, true)
            } else {
                false
            }
        } else if i < s.len() && s[i] == '(' {
            marker_reads(s, i + 1, depth + 1, false)
        } else {
            proof {
                lemma_marker_comparison(s, i);
            }
            match marker_comparison(s, i) {
                Some(end) => marker_reads(s, end, depth, true),
                None => false,
            }
        }
    }
}

/// Whether a name is that of a marker that holds a string.
fn names_string_key(key: &[char]) -> (b: bool)
    ensures
        b == is_string_key(key@),
{
    equals(key, "implementation_name") || equals(key, "os_name") || equals(key, "os.name")
        || equals(key, "platform_machine") || equals(key, "platform.machine") || equals(
        key,
        "platform_python_implementation",
    ) || equals(key, "platform.python_implementation") || equals(key, "python_implementation")
        || equals(key, "platform_release") || equals(key, "platform_system") || equals(
        key,
        "platform_version",
    ) || equals(key, "platform.version") || equals(key, "sys_platform") || equals(
        key,
        "sys.platform",
    )
}

/// Reads the value that begins at `i`.
fn read_marker_value(s: &[char], i: usize) -> (found: Option<(bool, usize)>)
    requires
        i <= s@.len(),
    ensures
        (match found {
            Some((quoted, end)) => Some((quoted, end as int)),
            None => None,
        }) == marker_value(s@, i as int),
        found matches Some((quoted, end)) ==> i < end <= s@.len() && (quoted ==> i + 2 <= end),
{
    let n: usize = s.len();
    if i >= n {
        return None;
    }
    if is_quotation_mark(s[i]) {
        match find_char(s, s[i], i + 1, n) {
            Some(j) => Some((true, j + 1)),
            None => None,
        }
    } else if in_class(Class::Key, s[i]) {
        Some((false, skip_run(s, Class::Key, i)))
    } else {
        None
    }
}

/// Reads the operator that begins at `i`.
fn read_marker_operator(s: &[char], i: usize) -> (found: Option<(Comparison, usize)>)
    requires
        i <= s@.len(),
    ensures
        (match found {
            Some((c, end)) => Some((c, end as int)),
            None => None,
        }) == marker_operator(s@, i as int),
        found matches Some((c, end)) ==> i < end <= s@.len(),
{
    proof {
        lemma_marker_operator(s@, i as int);
    }
    let n: usize = s.len();
    if i >= n {
        return None;
    }
    if is_operator_char(s[i]) {
        let end = skip_run(s, Class::Operator, i);
        let c = read_comparison(slice_subrange(s, i, end));
        return Some((c, end));
    }
    let end = skip_run(s, Class::BareWord, i);
    let word = slice_subrange(s, i, end);
    if equals(word, "in") {
        return Some((Comparison::In, end));
    }
    if equals(word, "not") && end < n && is_whitespace(s[end]) {
        let next = skip_run(s, Class::Space, end);
        if next < n && n - next > 1 && s[next] == 'i' && s[next + 1] == 'n' {
            return Some((Comparison::NotIn, next + 2));
        }
    }
    None
}

/// Reads the comparison that begins at `i`.
fn read_marker_comparison(s: &[char], i: usize) -> (found: Option<usize>)
    requires
        i <= s@.len(),
    ensures
        (match found {
            Some(end) => Some(end as int),
            None => None,
        }) == marker_comparison(s@, i as int),
        found matches Some(end) ==> i < end <= s@.len(),
{
    let (left_quoted, left_end) = match read_marker_value(s, i) {
        Some(v) => v,
        None => {
            return None;
        },
    };
    let (c, operator_end) = match read_marker_operator(
        s,
        skip_run(s, Class::Space, left_end),
    ) {
        Some(o) => o,
        None => {
            return None;
        },
    };
    let right = skip_run(s, Class::Space, operator_end);
    let (right_quoted, end) = match read_marker_value(s, right) {
        Some(v) => v,
        None => {
            return None;
        },
    };
    let l = slice_subrange(s, i, left_end);
    let r = slice_subrange(s, right, end);
    if left_quoted && !right_quoted && ((c == Comparison::Compatible && names_string_key(r))
        || has_no_successor(l, c, r, true)) {
        None
    } else if !left_quoted && right_quoted && has_no_successor(r, c, l, false) {
        None
    } else {
        Some(end)
    }
}

/// Whether a word holds ASCII characters only.
fn all_ascii(word: &[char]) -> (b: bool)
    ensures
        b == is_ascii(word@),
{
    let mut i: usize = 0;
    while i < word.len()
        invariant
            i <= word@.len(),
            forall|j: int| 0 <= j < i ==> #[trigger] word@[j] <= '\u{7f}',
        decreases word@.len() - i,
    {
        if word[i] > '\u{7f}' {
            return false;
        }
        i += 1;
    }
    true
}

/// Whether the marker that begins at `from` reads well.
pub fn marker_is_readable(s: &[char], from: usize) -> (b: bool)
    requires
        from <= s@.len(),
    ensures
        b == marker_reads(s@, from as int, 0, false),
{
    let n: usize = s.len();
    let mut at: usize = from;
    let mut depth: usize = 0;
    let mut joint = false;
    loop
        invariant
            n == s@.len(),
            from <= at <= n,
            depth <= at,
            marker_reads(s@, from as int, 0, false) == marker_reads(
                s@,
                at as int,
                depth as nat,
                joint,
            ),
        decreases n - at,
    {
        let i = skip_run(s, Class::Space, at);
        if joint {
            if i >= n {
                return true;
            }
            let end = skip_run(s, Class::Word, i);
            let word = slice_subrange(s, i, end);
            if equals(word, "and") || equals(word, "or") {
                at = end;
                joint = false;
            } else if s[i] == ')' && depth > 0 && all_ascii(word) {
                at = i + 1;
                depth -= 1;
            } else {
                return false;
            }
        } else if i < n && s[i] == '(' {
            at = i + 1;
            depth += 1;
        } else {
            match read_marker_comparison(s, i) {
                Some(end) => {
                    at = end;
                    joint = true;
                },
                None => {
                    return false;
                },
            }
        }
    }
}

// ---------------------------------------------------------------------------
// Requirements
// ---------------------------------------------------------------------------

/// Whether a comparison operator stands at `i`.
pub open spec fn is_operator_at(s: Seq<char>, i: int) -> bool {
    ||| s[i] == '<'
    ||| s[i] == '>'
    ||| (s[i] == '=' || s[i] == '~' || s[i] == '!') && i + 1 < s.len() && s[i + 1] == '='
}

/// Whether a comparison operator stands at `i`.
fn has_operator(s: &[char], i: usize) -> (b: bool)
    requires
        i < s@.len(),
    ensures
        b == is_operator_at(s@, i as int),
{
    let n: usize = s.len();
    s[i] == '<' || s[i] == '>' || ((s[i] == '=' || s[i] == '~' || s[i] == '!') && n - i > 1 && s[i
        + 1] == '=')
}

/// Extras none of which ends in punctuation, and no brackets among them.
pub open spec fn extras_read(s: Seq<char>, from: int, to: int) -> bool {
    forall|i: int|
        from <= i < to ==> #[trigger] s[i] != '[' && (is_name_separator(s[i]) ==> i + 1 < s.len()
            && in_class(Class::Name, s[i + 1]))
}

/// Where the extras that can begin at `i` end.
pub open spec fn extras_end(s: Seq<char>, i: int) -> Option<int> {
    if 0 <= i < s.len() && s[i] == '[' {
        match index_of(s, ']', i, s.len() as int) {
            Some(end) => if extras_read(s, i + 1, end) {
                Some(end + 1)
            } else {
                None
            },
            None => None,
        }
    } else {
        Some(i)
    }
}

/// What no version holds: quotation marks, backslashes, number signs and
/// brackets.
#[verifier::allow_in_spec]
pub fn is_foreign(c: char) -> (b: bool)
    returns
        is_quotation_mark(c) || c == '\\' || c == '#' || c == '[' || c == ']',
{
    is_quotation_mark(c) || c == '\\' || c == '#' || c == '[' || c == ']'
}

/// Where the marker of a requirement begins, if not before `from`; the end of the
/// requirement if it has none.
pub open spec fn marker_start(s: Seq<char>, from: int) -> int {
    match index_of(s, ';', from, s.len() as int) {
        Some(i) => i,
        None => s.len() as int,
    }
}

/// Where the version of a requirement can begin: behind the name and the extras,
/// and behind an opening parenthesis.
pub open spec fn version_start(s: Seq<char>, extras_end: int) -> int {
    let i = run_end(s, Class::Space, extras_end);
    if i < s.len() && s[i] == '(' {
        run_end(s, Class::Space, i + 1)
    } else {
        i
    }
}

/// A version that can be read: it begins with an operator, and what stands between
/// it and the marker can stand in versions; and the marker reads well.
pub open spec fn version_reads(s: Seq<char>, i: int) -> bool {
    let marker = marker_start(s, i);
    &&& i < s.len()
    &&& is_operator_at(s, i)
    &&& forall|k: int| i <= k < marker ==> !is_foreign(#[trigger] s[k])
    &&& marker < s.len() ==> marker_reads(s, marker + 1, 0, false)
}

/// Whether a requirement can name a version and can be read: a name that begins
/// and ends with a letter or a digit, extras of which this holds too, and a version
/// and a marker that read well.
pub open spec fn is_readable(s: Seq<char>) -> bool {
    let name = run_end(s, Class::Space, 0);
    let name_end = run_end(s, Class::Name, name);
    let extras = run_end(s, Class::Space, name_end);
    &&& name < name_end
    &&& is_ascii_alphanumeric(s[name])
    &&& is_ascii_alphanumeric(s[name_end - 1])
    &&& match extras_end(s, extras) {
        Some(end) => version_reads(s, version_start(s, end)),
        None => false,
    }
}

/// Reads the extras that can begin at `i`.
fn read_extras(s: &[char], i: usize) -> (found: Option<usize>)
    requires
        i <= s@.len(),
    ensures
        (match found {
            Some(end) => Some(end as int),
            None => None,
        }) == extras_end(s@, i as int),
        found matches Some(end) ==> i <= end <= s@.len(),
{
    let n: usize = s.len();
    if i >= n || s[i] != '[' {
        return Some(i);
    }
    let end = match find_char(s, ']', i, n) {
        Some(end) => end,
        None => {
            return None;
        },
    };
    let mut k: usize = i + 1;
    while k < end
        invariant
            i < k <= end < n,
            n == s@.len(),
            s@[i as int] == '[',
            index_of(s@, ']', i as int, n as int) == Some(end as int),
            extras_read(s@, i + 1, k as int),
        decreases end - k,
    {
        if s[k] == '[' || (is_name_separator(s[k]) && (k + 1 >= n || !in_class(
            Class::Name,
            s[k + 1],
        ))) {
            assert(!extras_read(s@, i + 1, end as int));
            return None;
        }
        k += 1;
    }
    Some(end + 1)
}

/// Whether the version that begins at `version` can be read, and the marker behind
/// it.
fn version_is_readable(s: &[char], version: usize) -> (b: bool)
    requires
        version <= s@.len(),
    ensures
        b == version_reads(s@, version as int),
{
    let n: usize = s.len();
    if version >= n || !has_operator(s, version) {
        return false;
    }
    let marker = match find_char(s, ';', version, n) {
        Some(i) => i,
        None => n,
    };
    let mut k: usize = version;
    while k < marker
        invariant
            version <= k <= marker <= n,
            n == s@.len(),
            marker == marker_start(s@, version as int),
            forall|j: int| version <= j < k ==> !is_foreign(#[trigger] s@[j]),
        decreases marker - k,
    {
        if is_foreign(s[k]) {
            assert(!version_reads(s@, version as int));
            return false;
        }
        k += 1;
    }
    if marker < n {
        marker_is_readable(s, marker + 1)
    } else {
        true
    }
}

/// Whether a requirement can name a version and can be read.
pub fn requirement_is_readable(s: &[char]) -> (b: bool)
    ensures
        b == is_readable(s@),
{
    let n: usize = s.len();
    let name = skip_run(s, Class::Space, 0);
    let name_end = skip_run(s, Class::Name, name);
    if name >= name_end || !is_ascii_alphanumeric(s[name]) || !is_ascii_alphanumeric(
        s[name_end - 1],
    ) {
        return false;
    }
    let extras = skip_run(s, Class::Space, name_end);
    let behind = match read_extras(s, extras) {
        Some(end) => skip_run(s, Class::Space, end),
        None => {
            return false;
        },
    };
    let version = if behind < n && s[behind] == '(' {
        skip_run(s, Class::Space, behind + 1)
    } else {
        behind
    };
    version_is_readable(s, version)
}

// ---------------------------------------------------------------------------
// Where the version stands
// ---------------------------------------------------------------------------

/// Where the first comparison operator from `i` on stands that is inside no
/// brackets and not behind a semicolon; `depth` counts the brackets open at `i`.
pub open spec fn specifier_start(s: Seq<char>, i: int, depth: nat) -> Option<int>
    decreases s.len() - i,
{
    if i < 0 || i >= s.len() {
        None
    } else if s[i] == '[' {
        specifier_start(s, i + 1, depth + 1)
    } else if s[i] == ']' {
        specifier_start(
            s,
            i + 1,
            if depth > 0 {
                (depth - 1) as nat
            } else {
                0
            },
        )
    } else if depth == 0 && s[i] == ';' {
        None
    } else if depth == 0 && is_operator_at(s, i) {
        Some(i)
    } else {
        specifier_start(s, i + 1, depth)
    }
}

/// Holds of what ends version specifiers: a marker, or a closing parenthesis.
pub open spec fn ends_specifiers(s: Seq<char>) -> spec_fn(int) -> bool {
    |i: int| s[i] == ';' || s[i] == ')'
}

/// Where the version specifiers that begin at `start` are over.
pub open spec fn specifier_stop(s: Seq<char>, start: int) -> int {
    match first_index(ends_specifiers(s), start, s.len() as int) {
        Some(i) => i,
        None => s.len() as int,
    }
}

/// Where the version specifiers of a requirement stand: from the first operator
/// to the marker or the closing parenthesis, without the white space before it.
pub open spec fn specifier_span(s: Seq<char>) -> Option<(int, int)> {
    match specifier_start(s, 0, 0) {
        Some(start) => {
            let end = trimmed_end(s.take(specifier_stop(s, start))).len() as int;
            if start < end {
                Some((start, end))
            } else {
                None
            }
        },
        None => None,
    }
}

/// Finds the version specifiers of a requirement.
pub fn python_specifier_span(s: &[char]) -> (span: Option<(usize, usize)>)
    ensures
        (match span {
            Some((start, end)) => Some((start as int, end as int)),
            None => None,
        }) == specifier_span(s@),
        span matches Some((start, end)) ==> start < end <= s@.len() && !is_whitespace(
            s@[start as int],
        ) && !is_whitespace(s@[end - 1]),
{
    let n: usize = s.len();
    let mut depth: usize = 0;
    let mut i: usize = 0;
    while i < n
        invariant
            n == s@.len(),
            depth <= i <= n,
            specifier_start(s@, 0, 0) == specifier_start(s@, i as int, depth as nat),
        decreases n - i,
    {
        let c = s[i];
        if c == '[' {
            depth += 1;
        } else if c == ']' {
            if depth > 0 {
                depth -= 1;
            }
        } else if depth == 0 && c == ';' {
            return None;
        } else if depth == 0 && has_operator(s, i) {
            let ghost p = ends_specifiers(s@);
            let mut stop: usize = i;
            while stop < n && !(s[stop] == ';' || s[stop] == ')')
                invariant
                    i <= stop <= n == s@.len(),
                    p == ends_specifiers(s@),
                    first_index(p, i as int, n as int) == first_index(p, stop as int, n as int),
                decreases n - stop,
            {
                assert(!p(stop as int));
                stop += 1;
            }
            assert(stop < n ==> p(stop as int));
            let head = slice_subrange(s, 0, stop);
            assert(head@ =~= s@.take(stop as int));
            let kept = trim_end(head);
            let end: usize = kept.len();
            proof {
                lemma_trimmed_end(s@.take(stop as int));
            }
            return if i < end {
                Some((i, end))
            } else {
                None
            };
        }
        i += 1;
    }
    None
}

} // verus!
