//! Character-level helpers shared by the WIT reader and the loader: character
//! classes, scanning over runs of a class, trimming, searching, and building
//! `String`s out of characters.
use vstd::prelude::*;

verus! {

/// The character classes that the WIT grammar and the trimming rules use.
#[derive(Clone, Copy, Debug, PartialEq, Eq)]
pub enum CharClass {
    /// ASCII whitespace as the WIT grammar reads it: tab, line feed, vertical
    /// tab, form feed, carriage return and space.
    AsciiSpace,
    /// Characters of a WIT identifier: ASCII letters, digits, `_` and `-`.
    Name,
    /// Characters of a package id: identifier characters, `:` and `/`.
    Package,
    /// Anything but a closing parenthesis.
    NotCloseParen,
    /// Unicode `White_Space` characters, the ones that trimming removes.
    UnicodeSpace,
}

/// An ASCII word character: a letter, a digit or `_`.
pub open spec fn is_word_char(c: char) -> bool {
    ('a' <= c && c <= 'z') || ('A' <= c && c <= 'Z') || ('0' <= c && c <= '9') || c == '_'
}

/// ASCII whitespace: `\t`, `\n`, `\v`, `\f`, `\r` and space.
pub open spec fn is_ascii_space(c: char) -> bool {
    c == ' ' || c == '\t' || c == '\n' || c == '\r' || c == '\x0B' || c == '\x0C'
}

/// The Unicode `White_Space` property.
pub open spec fn is_unicode_space(c: char) -> bool {
    let u = c as u32;
    (0x09 <= u && u <= 0x0D) || u == 0x20 || u == 0x85 || u == 0xA0 || u == 0x1680 || (0x2000
        <= u && u <= 0x200A) || u == 0x2028 || u == 0x2029 || u == 0x202F || u == 0x205F || u
        == 0x3000
}

pub open spec fn in_class(c: char, cls: CharClass) -> bool {
    match cls {
        CharClass::AsciiSpace => is_ascii_space(c),
        CharClass::Name => is_word_char(c) || c == '-',
        CharClass::Package => is_word_char(c) || c == '-' || c == ':' || c == '/',
        CharClass::NotCloseParen => c != ')',
        CharClass::UnicodeSpace => is_unicode_space(c),
    }
}

/// Whether `c` is an ASCII word character.
pub fn word_char(c: char) -> (r: bool)
    ensures
        r == is_word_char(c),
{
    ('a' <= c && c <= 'z') || ('A' <= c && c <= 'Z') || ('0' <= c && c <= '9') || c == '_'
}

/// Whether `c` belongs to the class `cls`.
pub fn char_in_class(c: char, cls: CharClass) -> (r: bool)
    ensures
        r == in_class(c, cls),
{
    match cls {
        CharClass::AsciiSpace => c == ' ' || c == '\t' || c == '\n' || c == '\r' || c == '\x0B'
            || c == '\x0C',
        CharClass::Name => word_char(c) || c == '-',
        CharClass::Package => word_char(c) || c == '-' || c == ':' || c == '/',
        CharClass::NotCloseParen => c != ')',
        CharClass::UnicodeSpace => {
            let u: u32 = c as u32;
            (0x09 <= u && u <= 0x0D) || u == 0x20 || u == 0x85 || u == 0xA0 || u == 0x1680 || (
            0x2000 <= u && u <= 0x200A) || u == 0x2028 || u == 0x2029 || u == 0x202F || u
                == 0x205F || u == 0x3000
        },
    }
}

/// The end of the longest run of `cls` characters that starts at `i`.
pub open spec fn skip_class(s: Seq<char>, i: int, cls: CharClass) -> int
    decreases s.len() - i,
{
    if 0 <= i < s.len() && in_class(s[i], cls) {
        skip_class(s, i + 1, cls)
    } else {
        i
    }
}

/// The start of the longest run of `cls` characters that ends at `j`.
pub open spec fn skip_class_back(s: Seq<char>, j: int, cls: CharClass) -> int
    decreases j,
{
    if 0 < j <= s.len() && in_class(s[j - 1], cls) {
        skip_class_back(s, j - 1, cls)
    } else {
        j
    }
}

/// `s` without its leading and trailing Unicode whitespace.
pub open spec fn trim_spec(s: Seq<char>) -> Seq<char> {
    let a = skip_class(s, 0, CharClass::UnicodeSpace);
    let b = skip_class_back(s, s.len() as int, CharClass::UnicodeSpace);
    if a < b {
        s.subrange(a, b)
    } else {
        Seq::empty()
    }
}

/// Whether `pat` occurs in `s` at position `i`.
pub open spec fn occurs_at(s: Seq<char>, i: int, pat: Seq<char>) -> bool {
    0 <= i && i + pat.len() <= s.len() && s.subrange(i, i + pat.len()) == pat
}

/// The first position at or after `i` that holds `c`, or `s.len()` if none does.
pub open spec fn index_of_from(s: Seq<char>, c: char, i: int) -> int
    decreases s.len() - i,
{
    if i < 0 || i >= s.len() {
        s.len() as int
    } else if s[i] == c {
        i
    } else {
        index_of_from(s, c, i + 1)
    }
}

/// The last position before `j` where `pat` occurs, or -1 if there is none.
pub open spec fn last_occurrence_before(s: Seq<char>, pat: Seq<char>, j: int) -> int
    decreases j,
{
    if j <= 0 {
        -1
    } else if occurs_at(s, j - 1, pat) {
        j - 1
    } else {
        last_occurrence_before(s, pat, j - 1)
    }
}

/// The last position where `pat` occurs in `s`, or -1 if it does not occur.
pub open spec fn last_occurrence(s: Seq<char>, pat: Seq<char>) -> int {
    last_occurrence_before(s, pat, s.len() + 1int)
}

/// The last position before `j` that holds `c`, or -1.
pub open spec fn last_index_before(s: Seq<char>, c: char, j: int) -> int
    decreases j,
{
    if j <= 0 || j > s.len() {
        -1
    } else if s[j - 1] == c {
        j - 1
    } else {
        last_index_before(s, c, j - 1)
    }
}

pub proof fn lemma_last_occurrence(s: Seq<char>, pat: Seq<char>, j: int)
    ensures
        last_occurrence_before(s, pat, j) == -1 || (0 <= last_occurrence_before(s, pat, j) < j
            && occurs_at(s, last_occurrence_before(s, pat, j), pat)),
    decreases j,
{
    if j > 0 && !occurs_at(s, j - 1, pat) {
        lemma_last_occurrence(s, pat, j - 1);
    }
}

pub proof fn lemma_skip_class(s: Seq<char>, i: int, cls: CharClass)
    requires
        0 <= i <= s.len(),
    ensures
        i <= skip_class(s, i, cls) <= s.len(),
        forall|k: int| i <= k < skip_class(s, i, cls) ==> in_class(#[trigger] s[k], cls),
        skip_class(s, i, cls) < s.len() ==> !in_class(s[skip_class(s, i, cls)], cls),
    decreases s.len() - i,
{
    if i < s.len() && in_class(s[i], cls) {
        lemma_skip_class(s, i + 1, cls);
    }
}

pub proof fn lemma_skip_class_back(s: Seq<char>, j: int, cls: CharClass)
    requires
        0 <= j <= s.len(),
    ensures
        0 <= skip_class_back(s, j, cls) <= j,
        forall|k: int| skip_class_back(s, j, cls) <= k < j ==> in_class(#[trigger] s[k], cls),
        skip_class_back(s, j, cls) > 0 ==> !in_class(s[skip_class_back(s, j, cls) - 1], cls),
    decreases j,
{
    if j > 0 && in_class(s[j - 1], cls) {
        lemma_skip_class_back(s, j - 1, cls);
    }
}

pub proof fn lemma_index_of_from(s: Seq<char>, c: char, i: int)
    requires
        0 <= i <= s.len(),
    ensures
        i <= index_of_from(s, c, i) <= s.len(),
        forall|k: int| i <= k < index_of_from(s, c, i) ==> #[trigger] s[k] != c,
        index_of_from(s, c, i) < s.len() ==> s[index_of_from(s, c, i)] == c,
    decreases s.len() - i,
{
    if i < s.len() && s[i] != c {
        lemma_index_of_from(s, c, i + 1);
    }
}

/// The end of the run of `cls` characters in `s` that starts at `i`.
pub fn skip_run(s: &Vec<char>, i: usize, cls: CharClass) -> (j: usize)
    requires
        i <= s.len(),
    ensures
        j == skip_class(s@, i as int, cls),
        i <= j <= s.len(),
{
    let mut j = i;
    while j < s.len() && char_in_class(s[j], cls)
        invariant
            i <= j <= s.len(),
            skip_class(s@, i as int, cls) == skip_class(s@, j as int, cls),
        decreases s.len() - j,
    {
        j = j + 1;
    }
    j
}

/// The start of the run of `cls` characters in `s` that ends at `j`.
pub fn skip_run_back(s: &Vec<char>, j: usize, cls: CharClass) -> (i: usize)
    requires
        j <= s.len(),
    ensures
        i == skip_class_back(s@, j as int, cls),
        i <= j,
{
    let mut i = j;
    while i > 0 && char_in_class(s[i - 1], cls)
        invariant
            i <= j <= s.len(),
            skip_class_back(s@, j as int, cls) == skip_class_back(s@, i as int, cls),
        decreases i,
    {
        i = i - 1;
    }
    i
}

/// Whether `pat` occurs in `s` at position `i`.
pub fn occurs_at_exec(s: &Vec<char>, i: usize, pat: &[char]) -> (r: bool)
    ensures
        r == occurs_at(s@, i as int, pat@),
{
    if i > s.len() || pat.len() > s.len() - i {
        return false;
    }
    let mut k: usize = 0;
    while k < pat.len()
        invariant
            i + pat@.len() <= s@.len(),
            s@.len() == s.len(),
            pat@.len() == pat.len(),
            k <= pat@.len(),
            forall|m: int| 0 <= m < k ==> s@[i + m] == pat@[m],
        decreases pat.len() - k,
    {
        if s[i + k] != pat[k] {
            proof {
                assert(s@.subrange(i as int, i + pat@.len())[k as int] != pat@[k as int]);
            }
            return false;
        }
        k = k + 1;
    }
    proof {
        assert(s@.subrange(i as int, i + pat@.len()) =~= pat@);
    }
    true
}

/// The first position at or after `i` that holds `c`, or `s.len()`.
pub fn index_of(s: &Vec<char>, c: char, i: usize) -> (j: usize)
    requires
        i <= s.len(),
    ensures
        j == index_of_from(s@, c, i as int),
        i <= j <= s.len(),
{
    let mut j = i;
    while j < s.len() && s[j] != c
        invariant
            i <= j <= s.len(),
            index_of_from(s@, c, i as int) == index_of_from(s@, c, j as int),
        decreases s.len() - j,
    {
        j = j + 1;
    }
    j
}

/// The last position where `pat` occurs in `s`, if any.
pub fn last_occurrence_exec(s: &Vec<char>, pat: &[char]) -> (r: Option<usize>)
    ensures
        match r {
            Some(i) => i as int == last_occurrence(s@, pat@),
            None => last_occurrence(s@, pat@) == -1,
        },
{
    if occurs_at_exec(s, s.len(), pat) {
        return Some(s.len());
    }
    let mut j: usize = s.len();
    while j > 0
        invariant
            j <= s.len(),
            last_occurrence(s@, pat@) == last_occurrence_before(s@, pat@, j as int),
        decreases j,
    {
        if occurs_at_exec(s, j - 1, pat) {
            return Some(j - 1);
        }
        j = j - 1;
    }
    None
}

/// A copy of `s[a..b]`.
pub fn sub_vec(s: &Vec<char>, a: usize, b: usize) -> (v: Vec<char>)
    requires
        a <= b <= s.len(),
    ensures
        v@ == s@.subrange(a as int, b as int),
{
    let mut v: Vec<char> = Vec::new();
    let mut k = a;
    while k < b
        invariant
            a <= k <= b <= s.len(),
            v@ == s@.subrange(a as int, k as int),
        decreases b - k,
    {
        v.push(s[k]);
        proof {
            assert(s@.subrange(a as int, k + 1) =~= s@.subrange(a as int, k as int).push(s@[k as int]));
        }
        k = k + 1;
    }
    v
}

/// Whether `s[a..b]` is exactly `pat`.
pub fn range_is(s: &Vec<char>, a: usize, b: usize, pat: &[char]) -> (r: bool)
    requires
        a <= b <= s.len(),
    ensures
        r == (s@.subrange(a as int, b as int) == pat@),
{
    if b - a != pat.len() {
        return false;
    }
    occurs_at_exec(s, a, pat)
}

/// The last position of `s` that holds `c`, if any.
pub fn last_index(s: &Vec<char>, c: char) -> (r: Option<usize>)
    ensures
        match r {
            None => last_index_before(s@, c, s@.len() as int) == -1,
            Some(e) => e < s.len() && e as int == last_index_before(s@, c, s@.len() as int),
        },
{
    let mut j: usize = s.len();
    while j > 0
        invariant
            j <= s.len(),
            last_index_before(s@, c, s@.len() as int) == last_index_before(s@, c, j as int),
        decreases j,
    {
        if s[j - 1] == c {
            return Some(j - 1);
        }
        j = j - 1;
    }
    None
}

/// The characters of `s`, in order.
pub fn chars_of(s: &str) -> (out: Vec<char>)
    ensures
        out@ == s@,
{
    let mut out: Vec<char> = Vec::new();
    for c in it: s.chars()
        invariant
            out@ == it.seq().take(it.index() as int),
    {
        out.push(c);
    }
    proof {
        assert(out@ =~= s@);
    }
    out
}

/// `String::push`: the text afterwards is the text before followed by `c`.
#[verifier::external_body]
fn push_char(s: &mut String, c: char)
    ensures
        final(s)@ == old(s)@.push(c),
{
    s.push(c);
}

/// Appends the characters `chars[a..b]` to `out`.
pub fn append_range(out: &mut String, chars: &Vec<char>, a: usize, b: usize)
    requires
        a <= b <= chars.len(),
    ensures
        final(out)@ == old(out)@ + chars@.subrange(a as int, b as int),
{
    let mut k = a;
    while k < b
        invariant
            a <= k <= b <= chars.len(),
            out@ == old(out)@ + chars@.subrange(a as int, k as int),
        decreases b - k,
    {
        push_char(out, chars[k]);
        proof {
            assert(chars@.subrange(a as int, k + 1) =~= chars@.subrange(a as int, k as int).push(
                chars@[k as int],
            ));
        }
        k = k + 1;
    }
}

/// A `String` holding `chars[a..b]`.
pub fn string_of_range(chars: &Vec<char>, a: usize, b: usize) -> (r: String)
    requires
        a <= b <= chars.len(),
    ensures
        r@ == chars@.subrange(a as int, b as int),
{
    let mut r = String::new();
    append_range(&mut r, chars, a, b);
    proof {
        assert(r@ =~= chars@.subrange(a as int, b as int));
    }
    r
}

/// A `String` holding all of `chars`.
pub fn string_of(chars: &Vec<char>) -> (r: String)
    ensures
        r@ == chars@,
{
    let r = string_of_range(chars, 0, chars.len());
    proof {
        assert(chars@.subrange(0, chars@.len() as int) =~= chars@);
    }
    r
}

/// Pushes one character onto a `String`.
pub fn append_char(out: &mut String, c: char)
    ensures
        final(out)@ == old(out)@.push(c),
{
    push_char(out, c);
}

/// `s` without its leading and trailing Unicode whitespace, as characters.
pub fn trim_range(s: &Vec<char>) -> (r: (usize, usize))
    ensures
        r.0 <= r.1 <= s.len(),
        s@.subrange(r.0 as int, r.1 as int) == trim_spec(s@),
{
    let a = skip_run(s, 0, CharClass::UnicodeSpace);
    let b = skip_run_back(s, s.len(), CharClass::UnicodeSpace);
    if a < b {
        (a, b)
    } else {
        proof {
            assert(s@.subrange(a as int, a as int) =~= Seq::<char>::empty());
        }
        (a, a)
    }
}

} // verus!
