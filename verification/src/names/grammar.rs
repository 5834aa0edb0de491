//! The XML name grammar: `NCName` characters and normalized attribute values.

use vstd::prelude::*;

verus! {

/// `NameStartChar` of XML 1.0 without `':'`.
pub open spec fn spec_is_ncname_start_char(c: char) -> bool {
    ||| ('a' <= c && c <= 'z')
    ||| ('A' <= c && c <= 'Z')
    ||| c == '_'
    ||| ('\u{C0}' <= c && c <= '\u{2FF}' && c != '\u{D7}' && c != '\u{F7}')
    ||| ('\u{370}' <= c && c <= '\u{1FFF}' && c != '\u{37E}')
    ||| ('\u{200C}' <= c && c <= '\u{200D}')
    ||| ('\u{2070}' <= c && c <= '\u{218F}')
    ||| ('\u{2C00}' <= c && c <= '\u{2FEF}')
    ||| ('\u{3001}' <= c && c <= '\u{D7FF}')
    ||| ('\u{F900}' <= c && c <= '\u{FDCF}')
    ||| ('\u{FDF0}' <= c && c <= '\u{FFFD}')
    ||| ('\u{10000}' <= c && c <= '\u{EFFFF}')
}

/// `NameChar` of XML 1.0 without `':'`.
pub open spec fn spec_is_ncname_char(c: char) -> bool {
    ||| spec_is_ncname_start_char(c)
    ||| c == '-'
    ||| c == '.'
    ||| ('0' <= c && c <= '9')
    ||| c == '\u{B7}'
    ||| ('\u{300}' <= c && c <= '\u{36F}')
    ||| c == '\u{203F}'
    ||| c == '\u{2040}'
}

/// A whole sequence is an `NCName`: a start character followed by name characters.
pub open spec fn is_ncname(s: Seq<char>) -> bool {
    &&& s.len() > 0
    &&& spec_is_ncname_start_char(s[0])
    &&& forall|j: int| 1 <= j < s.len() ==> #[trigger] spec_is_ncname_char(s[j])
}

/// A normalized attribute value: the only whitespace allowed is a single space
/// between other characters (no leading, trailing or doubled space, no tab, CR or LF).
pub open spec fn is_normalized_value(s: Seq<char>) -> bool {
    &&& !(s.len() > 0 && s[0] == ' ')
    &&& !(s.len() > 0 && s[s.len() - 1] == ' ')
    &&& forall|i: int| 0 <= i < s.len() - 1 ==> !(#[trigger] s[i] == ' ' && s[i + 1] == ' ')
    &&& forall|i: int|
        0 <= i < s.len() ==> #[trigger] s[i] != '\t' && s[i] != '\r' && s[i] != '\n'
}

/// The ASCII letters and `_` may start an `NCName`; digits, `-` and `.` may
/// only follow the first character; `:` and the whitespace characters may do
/// neither. Every name start character is a name character.
pub proof fn lemma_ncname_ascii(c: char)
    ensures
        ('a' <= c && c <= 'z') || ('A' <= c && c <= 'Z') || c == '_' ==> spec_is_ncname_start_char(
            c,
        ) && spec_is_ncname_char(c),
        ('0' <= c && c <= '9') || c == '-' || c == '.' ==> !spec_is_ncname_start_char(c)
            && spec_is_ncname_char(c),
        c == ':' || c == ' ' || c == '\t' || c == '\r' || c == '\n' ==> !spec_is_ncname_start_char(
            c,
        ) && !spec_is_ncname_char(c),
        spec_is_ncname_start_char(c) ==> spec_is_ncname_char(c),
{
}

/// Outside ASCII: the Latin-1 letters (but not `×` and `÷`), Greek and
/// Cyrillic, and the CJK ideographs may start a name; the combining marks
/// U+0300..U+036F and the middle dot U+00B7 may only follow the first
/// character; the space-like characters of the general punctuation block
/// before U+200C may do neither.
pub proof fn lemma_ncname_beyond_ascii(c: char)
    ensures
        ('\u{C0}' <= c && c <= '\u{FF}' && c != '\u{D7}' && c != '\u{F7}') || ('\u{391}' <= c
            && c <= '\u{3C9}') || ('\u{410}' <= c && c <= '\u{44F}') || ('\u{4E00}' <= c && c
            <= '\u{9FFF}') ==> spec_is_ncname_start_char(c) && spec_is_ncname_char(c),
        c == '\u{D7}' || c == '\u{F7}' ==> !spec_is_ncname_start_char(c) && !spec_is_ncname_char(c),
        ('\u{300}' <= c && c <= '\u{36F}') || c == '\u{B7}' ==> !spec_is_ncname_start_char(c)
            && spec_is_ncname_char(c),
        '\u{2000}' <= c && c <= '\u{200B}' ==> !spec_is_ncname_start_char(c)
            && !spec_is_ncname_char(c),
{
}

/// Every non-empty string of ASCII letters is an `NCName`; so is any such
/// string followed by ASCII letters, digits, `-`, `.` or `_`. A string that
/// starts with a digit, `-` or `.`, or holds a `:` or whitespace, is not.
pub proof fn lemma_ncname_strings(s: Seq<char>)
    ensures
        s.len() > 0 && (forall|i: int|
            0 <= i < s.len() ==> ('a' <= #[trigger] s[i] && s[i] <= 'z') || ('A' <= s[i] && s[i]
                <= 'Z')) ==> is_ncname(s),
        s.len() > 0 && (('a' <= s[0] && s[0] <= 'z') || ('A' <= s[0] && s[0] <= 'Z') || s[0]
            == '_') && (forall|i: int|
            1 <= i < s.len() ==> ('a' <= #[trigger] s[i] && s[i] <= 'z') || ('A' <= s[i] && s[i]
                <= 'Z') || ('0' <= s[i] && s[i] <= '9') || s[i] == '-' || s[i] == '.' || s[i]
                == '_') ==> is_ncname(s),
        s.len() > 0 && (('0' <= s[0] && s[0] <= '9') || s[0] == '-' || s[0] == '.')
            ==> !is_ncname(s),
        (exists|i: int|
            0 <= i < s.len() && (#[trigger] s[i] == ':' || s[i] == ' ' || s[i] == '\t' || s[i]
                == '\r' || s[i] == '\n')) ==> !is_ncname(s),
{
    if exists|i: int|
        0 <= i < s.len() && (#[trigger] s[i] == ':' || s[i] == ' ' || s[i] == '\t' || s[i] == '\r'
            || s[i] == '\n') {
        let i = choose|i: int|
            0 <= i < s.len() && (#[trigger] s[i] == ':' || s[i] == ' ' || s[i] == '\t' || s[i]
                == '\r' || s[i] == '\n');
        if i > 0 {
            assert(!spec_is_ncname_char(s[i]));
        }
    }
}

/// A string with no whitespace at all is a normalized value, whatever its
/// other characters; a tab, CR or LF anywhere, a space at either end or two
/// spaces together make a string not one.
pub proof fn lemma_normalized_values(s: Seq<char>)
    ensures
        (forall|i: int|
            0 <= i < s.len() ==> #[trigger] s[i] != ' ' && s[i] != '\t' && s[i] != '\r' && s[i]
                != '\n') ==> is_normalized_value(s),
        (exists|i: int|
            0 <= i < s.len() && (#[trigger] s[i] == '\t' || s[i] == '\r' || s[i] == '\n'))
            ==> !is_normalized_value(s),
        s.len() > 0 && (s[0] == ' ' || s[s.len() - 1] == ' ') ==> !is_normalized_value(s),
        (exists|i: int| 0 <= i < s.len() - 1 && #[trigger] s[i] == ' ' && s[i + 1] == ' ')
            ==> !is_normalized_value(s),
{
}

/// Joining two non-empty normalized values with a single space gives a
/// normalized value.
pub proof fn lemma_normalized_join(a: Seq<char>, b: Seq<char>)
    requires
        a.len() > 0,
        b.len() > 0,
        is_normalized_value(a),
        is_normalized_value(b),
    ensures
        is_normalized_value(a + seq![' '] + b),
{
    let s = a + seq![' '] + b;
    let n = a.len() as int;
    assert forall|i: int| 0 <= i < s.len() - 1 implies !(#[trigger] s[i] == ' ' && s[i + 1] == ' ') by {
        if i < n - 1 {
            assert(s[i] == a[i] && s[i + 1] == a[i + 1]);
        } else if i == n - 1 {
            assert(s[i] == a[n - 1]);
        } else if i == n {
            assert(s[i + 1] == b[0]);
        } else {
            assert(s[i] == b[i - n - 1] && s[i + 1] == b[i - n]);
        }
    }
    assert forall|i: int| 0 <= i < s.len() implies #[trigger] s[i] != '\t' && s[i] != '\r' && s[i]
        != '\n' by {
        if i < n {
            assert(s[i] == a[i]);
        } else if i > n {
            assert(s[i] == b[i - n - 1]);
        }
    }
    assert(s[0] == a[0]);
    assert(s[s.len() - 1] == b[b.len() - 1]);
}

pub fn is_ncname_start_char(c: char) -> (r: bool)
    ensures
        r == spec_is_ncname_start_char(c),
{
    ('a' <= c && c <= 'z') || ('A' <= c && c <= 'Z') || c == '_' || ('\u{C0}' <= c && c
        <= '\u{2FF}' && c != '\u{D7}' && c != '\u{F7}') || ('\u{370}' <= c && c <= '\u{1FFF}'
        && c != '\u{37E}') || ('\u{200C}' <= c && c <= '\u{200D}') || ('\u{2070}' <= c && c
        <= '\u{218F}') || ('\u{2C00}' <= c && c <= '\u{2FEF}') || ('\u{3001}' <= c && c
        <= '\u{D7FF}') || ('\u{F900}' <= c && c <= '\u{FDCF}') || ('\u{FDF0}' <= c && c
        <= '\u{FFFD}') || ('\u{10000}' <= c && c <= '\u{EFFFF}')
}

pub fn is_ncname_char(c: char) -> (r: bool)
    ensures
        r == spec_is_ncname_char(c),
{
    is_ncname_start_char(c) || c == '-' || c == '.' || ('0' <= c && c <= '9') || c == '\u{B7}'
        || ('\u{300}' <= c && c <= '\u{36F}') || c == '\u{203F}' || c == '\u{2040}'
}

/// The characters of a string, in order.
pub fn chars_of(s: &str) -> (r: Vec<char>)
    ensures
        r@ == s@,
{
    broadcast use vstd::string::group_string_axioms;

    let mut r: Vec<char> = Vec::new();
    for c in it: s.chars()
        invariant
            r@ == it.seq().take(it.index() as int),
    {
        r.push(c);
    }
    assert(r@ =~= s@);
    r
}

/// `k` is where the longest `NCName` prefix of `s` ends: every character from the
/// second up to `k` is a name character, and the one at `k` (if any) is not.
pub open spec fn ncname_prefix_end(s: Seq<char>, k: int) -> bool {
    &&& 1 <= k <= s.len()
    &&& forall|j: int| 1 <= j < k ==> #[trigger] spec_is_ncname_char(s[j])
    &&& (k == s.len() || !spec_is_ncname_char(s[k]))
}

/// Splits `input` into its longest leading `NCName` and the rest. Fails when
/// `input` does not start with an `NCName` start character.
pub fn parse_ncname(input: &str) -> (r: Result<(&str, &str), ()>)
    ensures
        r is Err <==> !(input@.len() > 0 && spec_is_ncname_start_char(input@[0])),
        r matches Ok((name, rest)) ==> {
            &&& ncname_prefix_end(input@, name@.len() as int)
            &&& name@ == input@.take(name@.len() as int)
            &&& rest@ == input@.skip(name@.len() as int)
            &&& name@ + rest@ == input@
        },
{
    let cs = chars_of(input);
    let n = cs.len();
    if n == 0 || !is_ncname_start_char(cs[0]) {
        return Err(());
    }
    let mut end: usize = 1;
    while end < n
        invariant
            n == cs@.len(),
            cs@ == input@,
            1 <= end <= n,
            forall|j: int| 1 <= j < end ==> #[trigger] spec_is_ncname_char(cs@[j]),
        ensures
            end == n || !spec_is_ncname_char(cs@[end as int]),
        decreases n - end,
    {
        if !is_ncname_char(cs[end]) {
            break;
        }
        end = end + 1;
    }
    let name = input.substring_char(0, end);
    let rest = input.substring_char(end, n);
    assert(name@ + rest@ =~= input@);
    Ok((name, rest))
}

/// Is `input` a normalized attribute value?
pub fn check_normalized_value(input: &str) -> (r: bool)
    ensures
        r == is_normalized_value(input@),
{
    let cs = chars_of(input);
    let n = cs.len();
    if n > 0 && (cs[0] == ' ' || cs[n - 1] == ' ') {
        return false;
    }
    let mut i: usize = 0;
    while i < n
        invariant
            n == cs@.len(),
            cs@ == input@,
            i <= n,
            forall|k: int| 0 <= k < i && k < n - 1 ==> !(#[trigger] cs@[k] == ' ' && cs@[k + 1] == ' '),
            forall|k: int| 0 <= k < i ==> #[trigger] cs@[k] != '\t' && cs@[k] != '\r' && cs@[k] != '\n',
        decreases n - i,
    {
        let c = cs[i];
        if c == '\t' || c == '\r' || c == '\n' {
            return false;
        }
        if c == ' ' && i + 1 < n && cs[i + 1] == ' ' {
            return false;
        }
        i = i + 1;
    }
    true
}

} // verus!
