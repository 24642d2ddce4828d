//! Texts as sequences of characters: searching, trimming, splitting and
//! joining them.

use vstd::prelude::*;
use vstd::slice::*;
use vstd::string::*;

verus! {

/// `String::push` appends one character.
pub assume_specification[ String::push ](s: &mut String, c: char)
    ensures
        final(s)@ == old(s)@.push(c),
;

/// The characters of a text.
pub fn chars_of(text: &str) -> (r: Vec<char>)
    ensures
        r@ == text@,
{
    let mut out: Vec<char> = Vec::new();
    for c in it: text.chars()
        invariant
            it.seq() == text@,
            out@ == it.seq().take(it.index() as int),
    {
        out.push(c);
    }
    out
}

/// The text made of the given characters.
pub fn text_of(chars: &[char]) -> (r: String)
    ensures
        r@ == chars@,
{
    let mut out = String::new();
    let mut i: usize = 0;
    while i < chars.len()
        invariant
            i <= chars.len(),
            out@ == chars@.take(i as int),
        decreases chars.len() - i,
    {
        out.push(chars[i]);
        i += 1;
        assert(chars@.take(i as int) =~= chars@.take(i - 1).push(chars@[i - 1]));
    }
    assert(chars@.take(i as int) =~= chars@);
    out
}

/// The texts that a vector of strings holds.
pub open spec fn views(v: Seq<String>) -> Seq<Seq<char>> {
    v.map_values(|s: String| s@)
}

/// Two texts, one after the other.
pub fn cat2(a: &str, b: &str) -> (r: String)
    ensures
        r@ == a@ + b@,
{
    let mut out = a.to_string();
    out.append(b);
    out
}

/// Three texts, one after the other.
pub fn cat3(a: &str, b: &str, c: &str) -> (r: String)
    ensures
        r@ == a@ + b@ + c@,
{
    let mut out = cat2(a, b);
    out.append(c);
    out
}

/// Four texts, one after the other.
pub fn cat4(a: &str, b: &str, c: &str, d: &str) -> (r: String)
    ensures
        r@ == a@ + b@ + c@ + d@,
{
    let mut out = cat3(a, b, c);
    out.append(d);
    out
}

/// Five texts, one after the other.
pub fn cat5(a: &str, b: &str, c: &str, d: &str, e: &str) -> (r: String)
    ensures
        r@ == a@ + b@ + c@ + d@ + e@,
{
    let mut out = cat4(a, b, c, d);
    out.append(e);
    out
}

// ---------------------------------------------------------------------------
// Classes of characters.
// ---------------------------------------------------------------------------

/// A set of characters that a rule recognizes.
#[derive(Clone, Copy)]
pub enum Class {
    /// Unicode white space.
    Space,
    /// Everything but Unicode white space.
    Solid,
    /// A space or a tabulator.
    Blank,
    /// What a manifest name may hold: ASCII letters and digits, `.`, `_`, `-`.
    Name,
    /// What a service name may hold: ASCII lower case letters and `-`.
    Service,
    /// ASCII upper case letters and `_`.
    Upper,
    /// What an environment variable may hold: ASCII upper case letters,
    /// digits and `_`.
    Variable,
    /// ASCII digits.
    Digit,
    /// Every character but one.
    Except(char),
}

pub open spec fn is_lower(c: char) -> bool {
    'a' <= c <= 'z'
}

pub open spec fn is_upper(c: char) -> bool {
    'A' <= c <= 'Z'
}

pub open spec fn is_digit(c: char) -> bool {
    '0' <= c <= '9'
}

/// The characters with the Unicode property White_Space.
pub open spec fn is_space(c: char) -> bool {
    ||| '\u{9}' <= c <= '\u{d}'
    ||| c == ' '
    ||| c == '\u{85}'
    ||| c == '\u{a0}'
    ||| c == '\u{1680}'
    ||| '\u{2000}' <= c <= '\u{200a}'
    ||| c == '\u{2028}'
    ||| c == '\u{2029}'
    ||| c == '\u{202f}'
    ||| c == '\u{205f}'
    ||| c == '\u{3000}'
}

impl Class {
    /// Whether the class holds the character.
    pub open spec fn has(self, c: char) -> bool {
        match self {
            Class::Space => is_space(c),
            Class::Solid => !is_space(c),
            Class::Blank => c == ' ' || c == '\t',
            Class::Name => is_lower(c) || is_upper(c) || is_digit(c) || c == '.' || c == '_' || c
                == '-',
            Class::Service => is_lower(c) || c == '-',
            Class::Upper => is_upper(c) || c == '_',
            Class::Variable => is_upper(c) || is_digit(c) || c == '_',
            Class::Digit => is_digit(c),
            Class::Except(other) => c != other,
        }
    }

    /// Whether the class holds the character.
    pub fn holds(&self, c: char) -> (r: bool)
        ensures
            r == self.has(c),
    {
        match self {
            Class::Space => space(c),
            Class::Solid => !space(c),
            Class::Blank => c == ' ' || c == '\t',
            Class::Name => {
                ('a' <= c && c <= 'z') || ('A' <= c && c <= 'Z') || ('0' <= c && c <= '9') || c
                    == '.' || c == '_' || c == '-'
            },
            Class::Service => ('a' <= c && c <= 'z') || c == '-',
            Class::Upper => ('A' <= c && c <= 'Z') || c == '_',
            Class::Variable => {
                ('A' <= c && c <= 'Z') || ('0' <= c && c <= '9') || c == '_'
            },
            Class::Digit => '0' <= c && c <= '9',
            Class::Except(other) => c != *other,
        }
    }
}

/// Whether the character is white space.
pub fn space(c: char) -> (r: bool)
    ensures
        r == is_space(c),
{
    ('\u{9}' <= c && c <= '\u{d}') || c == ' ' || c == '\u{85}' || c == '\u{a0}' || c
        == '\u{1680}' || ('\u{2000}' <= c && c <= '\u{200a}') || c == '\u{2028}' || c == '\u{2029}'
        || c == '\u{202f}' || c == '\u{205f}' || c == '\u{3000}'
}

/// Every character of the text is in the class.
pub open spec fn all_in(s: Seq<char>, k: Class) -> bool {
    forall|i: int| 0 <= i < s.len() ==> k.has(#[trigger] s[i])
}

/// Whether every character of the text is in the class.
pub fn every(s: &[char], k: &Class) -> (r: bool)
    ensures
        r == all_in(s@, *k),
{
    let mut i: usize = 0;
    while i < s.len()
        invariant
            i <= s.len(),
            forall|j: int| 0 <= j < i ==> k.has(#[trigger] s@[j]),
        decreases s.len() - i,
    {
        if !k.holds(s[i]) {
            return false;
        }
        i += 1;
    }
    true
}

/// The length of the longest beginning of `s` that lies in the class.
pub open spec fn lead(s: Seq<char>, k: Class) -> int
    decreases s.len(),
{
    if s.len() > 0 && k.has(s[0]) {
        1 + lead(s.skip(1), k)
    } else {
        0
    }
}

pub proof fn lemma_lead(s: Seq<char>, k: Class)
    ensures
        0 <= lead(s, k) <= s.len(),
        forall|i: int| 0 <= i < lead(s, k) ==> k.has(#[trigger] s[i]),
        lead(s, k) < s.len() ==> !k.has(s[lead(s, k)]),
    decreases s.len(),
{
    if s.len() > 0 && k.has(s[0]) {
        lemma_lead(s.skip(1), k);
        let n = lead(s.skip(1), k);
        assert forall|i: int| 0 <= i < 1 + n implies k.has(#[trigger] s[i]) by {
            if i > 0 {
                assert(s[i] == s.skip(1)[i - 1]);
            }
        }
        if 1 + n < s.len() {
            assert(s[1 + n] == s.skip(1)[n]);
        }
    }
}

/// A length with the defining property of `lead` is `lead`.
pub proof fn lemma_lead_is(s: Seq<char>, k: Class, n: int)
    requires
        0 <= n <= s.len(),
        forall|i: int| 0 <= i < n ==> k.has(#[trigger] s[i]),
        n < s.len() ==> !k.has(s[n]),
    ensures
        lead(s, k) == n,
{
    lemma_lead(s, k);
    let m = lead(s, k);
    if m < n {
        assert(k.has(s[m]));
    }
    if n < m {
        assert(k.has(s[n]));
    }
}

/// The length of the longest beginning of `s` that lies in the class.
pub fn lead_of(s: &[char], k: &Class) -> (r: usize)
    ensures
        r == lead(s@, *k),
        r <= s@.len(),
{
    let mut i: usize = 0;
    while i < s.len() && k.holds(s[i])
        invariant
            i <= s.len(),
            forall|j: int| 0 <= j < i ==> k.has(#[trigger] s@[j]),
        decreases s.len() - i,
    {
        i += 1;
    }
    proof {
        lemma_lead_is(s@, *k, i as int);
    }
    i
}

/// The length of the longest ending of `s` that lies in the class.
pub open spec fn trail(s: Seq<char>, k: Class) -> int
    decreases s.len(),
{
    if s.len() > 0 && k.has(s.last()) {
        1 + trail(s.drop_last(), k)
    } else {
        0
    }
}

pub proof fn lemma_trail(s: Seq<char>, k: Class)
    ensures
        0 <= trail(s, k) <= s.len(),
        forall|i: int| s.len() - trail(s, k) <= i < s.len() ==> k.has(#[trigger] s[i]),
        trail(s, k) < s.len() ==> !k.has(s[s.len() - trail(s, k) - 1]),
    decreases s.len(),
{
    if s.len() > 0 && k.has(s.last()) {
        lemma_trail(s.drop_last(), k);
        let n = trail(s.drop_last(), k);
        assert forall|i: int| s.len() - 1 - n <= i < s.len() implies k.has(#[trigger] s[i]) by {
            if i < s.len() - 1 {
                assert(s[i] == s.drop_last()[i]);
            }
        }
    }
}

pub proof fn lemma_trail_is(s: Seq<char>, k: Class, n: int)
    requires
        0 <= n <= s.len(),
        forall|i: int| s.len() - n <= i < s.len() ==> k.has(#[trigger] s[i]),
        n < s.len() ==> !k.has(s[s.len() - n - 1]),
    ensures
        trail(s, k) == n,
{
    lemma_trail(s, k);
    let m = trail(s, k);
    if m < n {
        assert(k.has(s[s.len() - m - 1]));
    }
    if n < m {
        assert(k.has(s[s.len() - n - 1]));
    }
}

/// The length of the longest ending of `s` that lies in the class.
pub fn trail_of(s: &[char], k: &Class) -> (r: usize)
    ensures
        r == trail(s@, *k),
        r <= s@.len(),
{
    let mut i: usize = 0;
    while i < s.len() && k.holds(s[s.len() - 1 - i])
        invariant
            i <= s.len(),
            forall|j: int| s@.len() - i <= j < s@.len() ==> k.has(#[trigger] s@[j]),
        decreases s.len() - i,
    {
        i += 1;
    }
    proof {
        lemma_trail_is(s@, *k, i as int);
    }
    i
}

// ---------------------------------------------------------------------------
// Trimming.
// ---------------------------------------------------------------------------

/// The text without its leading white space.
pub open spec fn trim_start(s: Seq<char>) -> Seq<char> {
    s.skip(lead(s, Class::Space))
}

/// The text without its trailing white space.
pub open spec fn trim_end(s: Seq<char>) -> Seq<char> {
    s.take(s.len() - trail(s, Class::Space))
}

/// The text without white space at either end.
pub open spec fn trim(s: Seq<char>) -> Seq<char> {
    trim_end(trim_start(s))
}

/// The text without white space at either end.
pub fn trimmed(s: &[char]) -> (r: &[char])
    ensures
        r@ == trim(s@),
{
    let a = lead_of(s, &Class::Space);
    let rest = slice_subrange(s, a, s.len());
    assert(rest@ =~= s@.skip(a as int));
    let b = trail_of(rest, &Class::Space);
    let out = slice_subrange(rest, 0, rest.len() - b);
    assert(out@ =~= rest@.take(rest@.len() - b));
    out
}

// ---------------------------------------------------------------------------
// Searching.
// ---------------------------------------------------------------------------

/// `needle` stands in `s` from position `i` on.
pub open spec fn occurs_at(s: Seq<char>, needle: Seq<char>, i: int) -> bool {
    0 <= i && i + needle.len() <= s.len() && s.subrange(i, i + needle.len()) == needle
}

/// `s` begins with `p`.
pub open spec fn starts_with(s: Seq<char>, p: Seq<char>) -> bool {
    p.len() <= s.len() && s.take(p.len() as int) == p
}

/// `s` ends with `p`.
pub open spec fn ends_with(s: Seq<char>, p: Seq<char>) -> bool {
    p.len() <= s.len() && s.skip(s.len() - p.len()) == p
}

/// `needle` stands somewhere in `s`.
pub open spec fn holds_text(s: Seq<char>, needle: Seq<char>) -> bool {
    exists|i: int| occurs_at(s, needle, i)
}

/// The first position at or after `from` where `needle` stands.
pub open spec fn find_from(s: Seq<char>, needle: Seq<char>, from: int) -> Option<int>
    decreases s.len() + 1 - from,
{
    if from < 0 || from + needle.len() > s.len() {
        None
    } else if occurs_at(s, needle, from) {
        Some(from)
    } else {
        find_from(s, needle, from + 1)
    }
}

/// The first position where `needle` stands.
pub open spec fn find(s: Seq<char>, needle: Seq<char>) -> Option<int> {
    find_from(s, needle, 0)
}

pub proof fn lemma_find_from(s: Seq<char>, needle: Seq<char>, from: int)
    requires
        0 <= from,
    ensures
        match find_from(s, needle, from) {
            Some(i) => {
                &&& from <= i
                &&& occurs_at(s, needle, i)
                &&& forall|j: int| from <= j < i ==> !occurs_at(s, needle, j)
            },
            None => forall|j: int| from <= j ==> !occurs_at(s, needle, j),
        },
    decreases s.len() + 1 - from,
{
    if from + needle.len() > s.len() {
    } else if occurs_at(s, needle, from) {
    } else {
        lemma_find_from(s, needle, from + 1);
        if find_from(s, needle, from + 1) is Some {
            let i = find_from(s, needle, from + 1)->0;
            assert forall|j: int| from <= j < i implies !occurs_at(s, needle, j) by {
                if j > from {
                }
            }
        } else {
            assert forall|j: int| from <= j implies !occurs_at(s, needle, j) by {
                if j > from {
                }
            }
        }
    }
}

/// What `find` returns: the least position where `needle` stands.
pub proof fn lemma_find(s: Seq<char>, needle: Seq<char>)
    ensures
        match find(s, needle) {
            Some(i) => {
                &&& occurs_at(s, needle, i)
                &&& forall|j: int| j < i ==> !occurs_at(s, needle, j)
            },
            None => forall|j: int| !occurs_at(s, needle, j),
        },
{
    lemma_find_from(s, needle, 0);
}

/// A position with the defining property of `find` is `find`.
pub proof fn lemma_find_is(s: Seq<char>, needle: Seq<char>, i: int)
    requires
        occurs_at(s, needle, i),
        forall|j: int| j < i ==> !occurs_at(s, needle, j),
    ensures
        find(s, needle) == Some(i),
{
    lemma_find(s, needle);
}

/// Whether `needle` stands in `s` from position `i` on.
pub fn stands_at(s: &[char], needle: &[char], i: usize) -> (r: bool)
    ensures
        r == occurs_at(s@, needle@, i as int),
{
    if needle.len() > s.len() || i > s.len() - needle.len() {
        return false;
    }
    let mut j: usize = 0;
    while j < needle.len()
        invariant
            j <= needle.len(),
            i + needle.len() <= s.len(),
            forall|k: int| 0 <= k < j ==> s@[i + k] == needle@[k],
        decreases needle.len() - j,
    {
        if s[i + j] != needle[j] {
            assert(s@.subrange(i as int, i + needle@.len())[j as int] != needle@[j as int]);
            return false;
        }
        j += 1;
    }
    assert(s@.subrange(i as int, i + needle@.len()) =~= needle@);
    true
}

/// The first position where `needle` stands.
pub fn position(s: &[char], needle: &[char]) -> (r: Option<usize>)
    ensures
        match r {
            Some(i) => find(s@, needle@) == Some(i as int),
            None => find(s@, needle@) is None,
        },
{
    if needle.len() > s.len() {
        return None;
    }
    let mut i: usize = 0;
    while i <= s.len() - needle.len()
        invariant
            needle.len() <= s.len(),
            i <= s.len() - needle.len() + 1,
            forall|j: int| 0 <= j < i ==> !occurs_at(s@, needle@, j),
        decreases s.len() - needle.len() + 1 - i,
    {
        if stands_at(s, needle, i) {
            proof {
                lemma_find_is(s@, needle@, i as int);
            }
            return Some(i);
        }
        if i == s.len() - needle.len() {
            proof {
                lemma_find(s@, needle@);
            }
            return None;
        }
        i += 1;
    }
    proof {
        lemma_find(s@, needle@);
    }
    None
}

/// Whether `s` begins with `p`.
pub fn begins(s: &[char], p: &[char]) -> (r: bool)
    ensures
        r == starts_with(s@, p@),
{
    let r = stands_at(s, p, 0);
    assert(p@.len() <= s@.len() ==> s@.take(p@.len() as int) =~= s@.subrange(0, p@.len() as int));
    r
}

/// Whether `s` ends with `p`.
pub fn ends(s: &[char], p: &[char]) -> (r: bool)
    ensures
        r == ends_with(s@, p@),
{
    if p.len() > s.len() {
        return false;
    }
    let r = stands_at(s, p, s.len() - p.len());
    assert(s@.skip(s@.len() - p@.len()) =~= s@.subrange(s@.len() - p@.len(), s@.len() as int));
    r
}

/// Whether `needle` stands somewhere in `s`.
pub fn contains_text(s: &[char], needle: &[char]) -> (r: bool)
    ensures
        r == holds_text(s@, needle@),
{
    let r = position(s, needle);
    proof {
        lemma_find(s@, needle@);
    }
    r.is_some()
}

/// Whether two texts are the same.
pub fn same_chars(a: &[char], b: &[char]) -> (r: bool)
    ensures
        r == (a@ == b@),
{
    if a.len() != b.len() {
        return false;
    }
    let r = stands_at(a, b, 0);
    assert(a@.subrange(0, a@.len() as int) =~= a@);
    r
}

/// Whether two texts are the same.
pub fn same_text(a: &str, b: &str) -> (r: bool)
    ensures
        r == (a@ == b@),
{
    same_chars(chars_of(a).as_slice(), chars_of(b).as_slice())
}

// ---------------------------------------------------------------------------
// Splitting and joining.
// ---------------------------------------------------------------------------

/// The pieces of `s` between the occurrences of `c`.
pub open spec fn split(s: Seq<char>, c: char) -> Seq<Seq<char>>
    decreases s.len(),
{
    let n = lead(s, Class::Except(c));
    if n >= s.len() {
        seq![s]
    } else {
        proof {
            lemma_lead(s, Class::Except(c));
        }
        seq![s.take(n)] + split(s.skip(n + 1), c)
    }
}

/// The pieces of `s` between the occurrences of `c`.
pub fn pieces(s: &[char], c: char) -> (r: Vec<String>)
    ensures
        views(r@) == split(s@, c),
        r@.len() > 0,
{
    let mut out: Vec<String> = Vec::new();
    let mut from: usize = 0;
    assert(s@.skip(0) =~= s@);
    assert(views(out@) =~= Seq::<Seq<char>>::empty());
    assert(views(out@) + split(s@.skip(0), c) =~= split(s@, c));
    loop
        invariant
            from <= s.len(),
            views(out@) + split(s@.skip(from as int), c) == split(s@, c),
        decreases s.len() - from,
    {
        let rest = slice_subrange(s, from, s.len());
        assert(rest@ =~= s@.skip(from as int));
        let n = lead_of(rest, &Class::Except(c));
        let ghost before = views(out@);
        if n >= rest.len() {
            out.push(text_of(rest));
            assert(views(out@) =~= before + seq![rest@]);
            return out;
        }
        let piece = slice_subrange(rest, 0, n);
        assert(piece@ =~= rest@.take(n as int));
        out.push(text_of(piece));
        assert(views(out@) =~= before + seq![piece@]);
        assert(rest@.skip(n + 1) =~= s@.skip(from + n + 1));
        assert(views(out@) + split(s@.skip(from + n + 1), c) =~= before + (seq![piece@] + split(
            s@.skip(from + n + 1),
            c,
        )));
        from = from + n + 1;
    }
}

/// A line without the carriage return before its line feed.
pub open spec fn strip_return(s: Seq<char>) -> Seq<char> {
    if s.len() > 0 && s.last() == '\r' {
        s.drop_last()
    } else {
        s
    }
}

/// The lines of a text: each ends at a line feed, or at a carriage return
/// and a line feed, which do not belong to it; the last one may lack them.
pub open spec fn lines(s: Seq<char>) -> Seq<Seq<char>>
    decreases s.len(),
{
    let n = lead(s, Class::Except('\n'));
    if s.len() == 0 {
        seq![]
    } else if n >= s.len() {
        seq![s]
    } else {
        proof {
            lemma_lead(s, Class::Except('\n'));
        }
        seq![strip_return(s.take(n))] + lines(s.skip(n + 1))
    }
}

/// The lines of a text.
pub fn lines_of(s: &[char]) -> (r: Vec<String>)
    ensures
        views(r@) == lines(s@),
{
    let mut out: Vec<String> = Vec::new();
    let mut from: usize = 0;
    assert(s@.skip(0) =~= s@);
    assert(views(out@) + lines(s@.skip(0)) =~= lines(s@));
    while from < s.len()
        invariant
            from <= s.len(),
            views(out@) + lines(s@.skip(from as int)) == lines(s@),
        decreases s.len() - from,
    {
        let rest = slice_subrange(s, from, s.len());
        assert(rest@ =~= s@.skip(from as int));
        let n = lead_of(rest, &Class::Except('\n'));
        let ghost before = views(out@);
        if n >= rest.len() {
            out.push(text_of(rest));
            assert(views(out@) =~= before + seq![rest@]);
            return out;
        }
        let m: usize = if n > 0 && rest[n - 1] == '\r' {
            n - 1
        } else {
            n
        };
        let line = slice_subrange(rest, 0, m);
        assert(line@ =~= strip_return(rest@.take(n as int)));
        out.push(text_of(line));
        assert(views(out@) =~= before + seq![line@]);
        assert(rest@.skip(n + 1) =~= s@.skip(from + n + 1));
        assert(views(out@) + lines(s@.skip(from + n + 1)) =~= before + (seq![line@] + lines(
            s@.skip(from + n + 1),
        )));
        from = from + n + 1;
    }
    assert(s@.skip(from as int).len() == 0);
    assert(views(out@) + lines(s@.skip(from as int)) =~= views(out@));
    out
}

/// The texts one after the other, with `sep` between them.
pub open spec fn join(parts: Seq<Seq<char>>, sep: Seq<char>) -> Seq<char>
    decreases parts.len(),
{
    if parts.len() == 0 {
        seq![]
    } else if parts.len() == 1 {
        parts[0]
    } else {
        join(parts.drop_last(), sep) + sep + parts.last()
    }
}

/// The texts one after the other, with `sep` between them.
pub fn joined(parts: &[String], sep: &str) -> (r: String)
    ensures
        r@ == join(views(parts@), sep@),
{
    let mut out = String::new();
    let mut i: usize = 0;
    assert(views(parts@).take(0) =~= Seq::<Seq<char>>::empty());
    while i < parts.len()
        invariant
            i <= parts.len(),
            out@ == join(views(parts@).take(i as int), sep@),
        decreases parts.len() - i,
    {
        let ghost done = views(parts@).take(i as int);
        let ghost next = views(parts@).take(i + 1);
        assert(next.drop_last() =~= done);
        assert(next.last() == parts@[i as int]@);
        if i > 0 {
            out.append(sep);
        }
        out.append(parts[i].as_str());
        i += 1;
        assert(out@ =~= join(next, sep@));
    }
    assert(views(parts@).take(i as int) =~= views(parts@));
    out
}

pub proof fn lemma_join_first(first: Seq<char>, parts: Seq<Seq<char>>, sep: Seq<char>)
    requires
        parts.len() > 0,
    ensures
        join(seq![first] + parts, sep) == first + sep + join(parts, sep),
    decreases parts.len(),
{
    let all = seq![first] + parts;
    assert(all.last() == parts.last());
    assert(all.drop_last() =~= seq![first] + parts.drop_last());
    if parts.len() == 1 {
        assert(all.drop_last() =~= seq![first]);
        assert(join(all.drop_last(), sep) == first);
        assert(join(all, sep) =~= first + sep + join(parts, sep));
    } else {
        lemma_join_first(first, parts.drop_last(), sep);
        assert(join(all, sep) =~= first + sep + join(parts, sep));
    }
}

/// The first line of a text that starts with a line.
pub proof fn lemma_lines_first(line: Seq<char>, rest: Seq<char>)
    requires
        all_in(line, Class::Except('\n')),
    ensures
        lines(line + "\n"@ + rest) == seq![strip_return(line)] + lines(rest),
        line.len() > 0 ==> lines(line) == seq![line],
{
    reveal_strlit("\n");
    let s = line + "\n"@ + rest;
    lemma_lead_is(s, Class::Except('\n'), line.len() as int);
    assert(s.take(line.len() as int) =~= line);
    assert(s.skip(line.len() as int + 1) =~= rest);
    lemma_lead_is(line, Class::Except('\n'), line.len() as int);
}

/// A text that is not empty is a line, or a line and a text after a line
/// feed.
pub proof fn lemma_by_line(s: Seq<char>)
    requires
        s.len() > 0,
    ensures
        ({
            let n = lead(s, Class::Except('\n'));
            &&& all_in(s.take(n), Class::Except('\n'))
            &&& 0 <= n <= s.len()
            &&& n == s.len() ==> s.take(n) == s && lines(s) == seq![s]
            &&& n < s.len() ==> s == s.take(n) + "\n"@ + s.skip(n + 1) && lines(s) == seq![
                strip_return(s.take(n)),
            ] + lines(s.skip(n + 1))
        }),
{
    reveal_strlit("\n");
    lemma_lead(s, Class::Except('\n'));
    let n = lead(s, Class::Except('\n'));
    if n == s.len() {
        assert(s.take(n) =~= s);
    } else {
        assert(s =~= s.take(n) + "\n"@ + s.skip(n + 1));
    }
}

pub proof fn lemma_stripped_is_a_line(line: Seq<char>)
    requires
        all_in(line, Class::Except('\n')),
    ensures
        all_in(strip_return(line), Class::Except('\n')),
{
    let x = strip_return(line);
    assert forall|i: int| 0 <= i < x.len() implies Class::Except('\n').has(#[trigger] x[i]) by {
        assert(x[i] == line[i]);
    }
}

/// What a filter keeps was there and passes.
pub proof fn lemma_filtered(s: Seq<Seq<char>>, p: spec_fn(Seq<char>) -> bool)
    ensures
        forall|i: int|
            0 <= i < s.filter(p).len() ==> p(#[trigger] s.filter(p)[i]) && s.contains(
                s.filter(p)[i],
            ),
    decreases s.len(),
{
    reveal(Seq::filter);
    if s.len() > 0 {
        let rest = s.drop_last();
        lemma_filtered(rest, p);
        assert forall|i: int| 0 <= i < s.filter(p).len() implies p(#[trigger] s.filter(p)[i])
            && s.contains(s.filter(p)[i]) by {
            if i < rest.filter(p).len() {
                let x = rest.filter(p)[i];
                assert(s.filter(p)[i] == x);
                let j = choose|j: int| 0 <= j < rest.len() && rest[j] == x;
                assert(s[j] == x);
            } else {
                assert(s.filter(p)[i] == s[s.len() - 1]);
            }
        }
    }
}

/// What stands before and after the first `c`.
pub open spec fn split_once(s: Seq<char>, c: char) -> Option<(Seq<char>, Seq<char>)> {
    let n = lead(s, Class::Except(c));
    if n < s.len() {
        Some((s.take(n), s.skip(n + 1)))
    } else {
        None
    }
}

/// What stands before and after the first `c`.
pub fn cut(s: &[char], c: char) -> (r: Option<(String, String)>)
    ensures
        match r {
            Some((a, b)) => split_once(s@, c) == Some((a@, b@)),
            None => split_once(s@, c) is None,
        },
{
    let n = lead_of(s, &Class::Except(c));
    if n >= s.len() {
        return None;
    }
    let a = slice_subrange(s, 0, n);
    let b = slice_subrange(s, n + 1, s.len());
    assert(a@ =~= s@.take(n as int));
    assert(b@ =~= s@.skip(n + 1));
    Some((text_of(a), text_of(b)))
}

/// The words of a text: the longest runs of characters that are no white
/// space.
pub open spec fn words(s: Seq<char>) -> Seq<Seq<char>>
    decreases s.len(),
{
    let t = trim_start(s);
    let n = lead(t, Class::Solid);
    if t.len() == 0 {
        seq![]
    } else {
        proof {
            lemma_lead(s, Class::Space);
            lemma_lead(t, Class::Solid);
        }
        seq![t.take(n)] + words(t.skip(n))
    }
}

/// The words of a text.
pub fn words_of(s: &[char]) -> (r: Vec<String>)
    ensures
        views(r@) == words(s@),
{
    let mut out: Vec<String> = Vec::new();
    let mut rest = s;
    assert(views(out@) + words(rest@) =~= words(s@));
    loop
        invariant
            views(out@) + words(rest@) == words(s@),
        decreases rest@.len(),
    {
        let ghost before = views(out@);
        let ghost whole = rest@;
        let a = lead_of(rest, &Class::Space);
        let body = slice_subrange(rest, a, rest.len());
        assert(body@ =~= trim_start(rest@));
        if body.len() == 0 {
            assert(words(rest@) =~= Seq::<Seq<char>>::empty());
            assert(views(out@) =~= words(s@));
            return out;
        }
        proof {
            lemma_lead(rest@, Class::Space);
            lemma_lead(body@, Class::Solid);
        }
        let n = lead_of(body, &Class::Solid);
        let word = slice_subrange(body, 0, n);
        assert(word@ =~= body@.take(n as int));
        out.push(text_of(word));
        rest = slice_subrange(body, n, body.len());
        assert(rest@ =~= body@.skip(n as int));
        assert(views(out@) =~= before + seq![word@]);
        assert(views(out@) + words(rest@) =~= before + words(whole));
    }
}

// ---------------------------------------------------------------------------
// Bytes.
// ---------------------------------------------------------------------------

/// The text that bytes stand for where a tool's output is read leniently.
pub uninterp spec fn lossy(bytes: Seq<u8>) -> Seq<char>;

/// `String::from_utf8_lossy` reads bytes as text: exactly where they are
/// UTF-8, and with the replacement character in place of what is not.
#[verifier::external_body]
pub(crate) fn text_from(bytes: &[u8]) -> (r: String)
    ensures
        r@ == lossy(bytes@),
        vstd::utf8::valid_utf8(bytes@) ==> r@ == vstd::utf8::decode_utf8(bytes@),
{
    String::from_utf8_lossy(bytes).into_owned()
}

/// The lines of a text without white space at either end, and without those
/// that hold nothing else.
pub open spec fn entries(s: Seq<char>) -> Seq<Seq<char>> {
    lines(s).map_values(|line: Seq<char>| trim(line)).filter(|line: Seq<char>| line.len() > 0)
}

/// The lines of a text without white space at either end, and without those
/// that hold nothing else.
pub fn entries_of(s: &str) -> (r: Vec<String>)
    ensures
        views(r@) == entries(s@),
{
    let all = lines_of(chars_of(s).as_slice());
    let ghost trims = lines(s@).map_values(|line: Seq<char>| trim(line));
    let ghost solid = |line: Seq<char>| line.len() > 0;
    let mut out: Vec<String> = Vec::new();
    let mut i: usize = 0;
    proof {
        reveal(Seq::filter);
        assert(trims.take(0).filter(solid) =~= Seq::<Seq<char>>::empty());
        assert(views(out@) =~= Seq::<Seq<char>>::empty());
    }
    while i < all.len()
        invariant
            i <= all.len(),
            views(all@) == lines(s@),
            trims == lines(s@).map_values(|line: Seq<char>| trim(line)),
            solid == (|line: Seq<char>| line.len() > 0),
            views(out@) == trims.take(i as int).filter(solid),
        decreases all.len() - i,
    {
        let chars = chars_of(all[i].as_str());
        let line = trimmed(chars.as_slice());
        assert(views(all@)[i as int] == all@[i as int]@);
        proof {
            reveal(Seq::filter);
            assert(trims.take(i + 1).drop_last() =~= trims.take(i as int));
            assert(trims.take(i + 1).last() == line@);
        }
        let ghost before = views(out@);
        if line.len() > 0 {
            out.push(text_of(line));
            assert(views(out@) =~= before.push(line@));
        }
        i += 1;
    }
    assert(trims.take(i as int) =~= trims);
    out
}

} // verus!
