//! Character-level helpers over `Seq<char>` and their executable versions.

use vstd::prelude::*;

verus! {

/// ASCII lower-casing of one character (`char::to_ascii_lowercase`).
pub open spec fn lower_char(c: char) -> char {
    if 'A' <= c && c <= 'Z' {
        ((c as u32) + 32) as char
    } else {
        c
    }
}

/// ASCII upper-casing of one character (`char::to_ascii_uppercase`).
pub open spec fn upper_char(c: char) -> char {
    if 'a' <= c && c <= 'z' {
        ((c as u32) - 32) as char
    } else {
        c
    }
}

/// ASCII lower-casing of a string (`str::to_ascii_lowercase`).
pub open spec fn lower(s: Seq<char>) -> Seq<char> {
    s.map_values(|c: char| lower_char(c))
}

/// ASCII case-insensitive equality (`str::eq_ignore_ascii_case`).
pub open spec fn eq_ic(a: Seq<char>, b: Seq<char>) -> bool {
    a.len() == b.len() && lower(a) == lower(b)
}

pub fn lower_char_exec(c: char) -> (r: char)
    ensures
        r == lower_char(c),
{
    if 'A' <= c && c <= 'Z' {
        let b: u8 = (c as u8) + 32;
        b as char
    } else {
        c
    }
}


/// The characters of a string slice, in order.
pub fn chars_of(s: &str) -> (v: Vec<char>)
    ensures
        v@ == s@,
{
    let mut v: Vec<char> = Vec::new();
    for c in it: s.chars()
        invariant
            v@ == it.seq().take(it.index() as int),
            it.seq() == s@,
    {
        v.push(c);
    }
    v
}

/// Appends one character to a string (`String::push`).
#[verifier::external_body]
pub(crate) fn push_char(s: &mut String, c: char)
    ensures
        final(s)@ == old(s)@.push(c),
{
    s.push(c);
}

/// Appends the characters `v[lo..hi]` to `out`.
pub fn push_range(out: &mut String, v: &Vec<char>, lo: usize, hi: usize)
    requires
        lo <= hi <= v@.len(),
    ensures
        final(out)@ == old(out)@ + v@.subrange(lo as int, hi as int),
{
    let mut i = lo;
    while i < hi
        invariant
            lo <= i <= hi <= v@.len(),
            out@ == old(out)@ + v@.subrange(lo as int, i as int),
        decreases hi - i,
    {
        push_char(out, v[i]);
        i = i + 1;
        assert(v@.subrange(lo as int, i as int) == v@.subrange(lo as int, i - 1).push(v@[i - 1]));
    }
}

/// A string made of the characters `v[lo..hi]`.
pub fn string_of(v: &Vec<char>, lo: usize, hi: usize) -> (s: String)
    requires
        lo <= hi <= v@.len(),
    ensures
        s@ == v@.subrange(lo as int, hi as int),
{
    let mut s = String::new();
    push_range(&mut s, v, lo, hi);
    s
}


/// Unicode `White_Space` (`char::is_whitespace`).
pub open spec fn is_ws(c: char) -> bool {
    ||| '\t' <= c && c <= '\r'
    ||| c == ' '
    ||| c == '\u{85}'
    ||| c == '\u{A0}'
    ||| c == '\u{1680}'
    ||| '\u{2000}' <= c && c <= '\u{200A}'
    ||| c == '\u{2028}'
    ||| c == '\u{2029}'
    ||| c == '\u{202F}'
    ||| c == '\u{205F}'
    ||| c == '\u{3000}'
}

pub fn is_ws_exec(c: char) -> (b: bool)
    ensures
        b == is_ws(c),
{
    ('\t' <= c && c <= '\r') || c == ' ' || c == '\u{85}' || c == '\u{A0}' || c == '\u{1680}' || (
    '\u{2000}' <= c && c <= '\u{200A}') || c == '\u{2028}' || c == '\u{2029}' || c == '\u{202F}'
        || c == '\u{205F}' || c == '\u{3000}'
}

/// Character classes that text is trimmed of or split at.
#[derive(Clone, Copy, Debug, PartialEq, Eq, Structural)]
pub enum Class {
    /// Unicode white space (`str::trim`).
    Space,
    /// `<` and `>` (`trim_matches(['<', '>'])`).
    Angle,
    /// `/` (`trim_start_matches('/')`, `trim_end_matches('/')`).
    Slash,
    /// `\r` and `\n` (`trim_end_matches(['\r', '\n'])`).
    LineEnd,
    /// ASCII decimal digits (`char::is_ascii_digit`).
    Digit,
    /// The characters that end a URL inside HTML: quotes, space, `)`, `<`,
    /// `>`, `?` and `#`.
    UrlEnd,
    /// The characters that cannot stand inside a URL written in HTML:
    /// quotes, white space, `<` and `>`.
    UrlBreak,
}

pub open spec fn in_class(k: Class, c: char) -> bool {
    match k {
        Class::Space => is_ws(c),
        Class::Angle => c == '<' || c == '>',
        Class::Slash => c == '/',
        Class::LineEnd => c == '\r' || c == '\n',
        Class::Digit => '0' <= c && c <= '9',
        Class::UrlEnd => c == '"' || c == '\'' || c == ' ' || c == ')' || c == '<' || c == '>' || c
            == '?' || c == '#',
        Class::UrlBreak => c == '"' || c == '\'' || c == '<' || c == '>' || is_ws(c),
    }
}

pub fn in_class_exec(k: Class, c: char) -> (b: bool)
    ensures
        b == in_class(k, c),
{
    match k {
        Class::Space => is_ws_exec(c),
        Class::Angle => c == '<' || c == '>',
        Class::Slash => c == '/',
        Class::LineEnd => c == '\r' || c == '\n',
        Class::Digit => '0' <= c && c <= '9',
        Class::UrlEnd => c == '"' || c == '\'' || c == ' ' || c == ')' || c == '<' || c == '>' || c
            == '?' || c == '#',
        Class::UrlBreak => c == '"' || c == '\'' || c == '<' || c == '>' || is_ws_exec(c),
    }
}

/// Number of leading characters of `s` in the class `k`.
pub open spec fn lead(s: Seq<char>, k: Class) -> nat
    decreases s.len(),
{
    if s.len() > 0 && in_class(k, s[0]) {
        1 + lead(s.drop_first(), k)
    } else {
        0
    }
}

/// Number of trailing characters of `s` in the class `k`.
pub open spec fn trail(s: Seq<char>, k: Class) -> nat
    decreases s.len(),
{
    if s.len() > 0 && in_class(k, s.last()) {
        1 + trail(s.drop_last(), k)
    } else {
        0
    }
}

/// `s` without its leading characters of class `k`.
pub open spec fn trim_start(s: Seq<char>, k: Class) -> Seq<char> {
    s.skip(lead(s, k) as int)
}

/// `s` without its trailing characters of class `k`.
pub open spec fn trim_end(s: Seq<char>, k: Class) -> Seq<char> {
    s.take(s.len() - trail(s, k))
}

/// `s` without its leading and trailing characters of class `k`.
pub open spec fn trim(s: Seq<char>, k: Class) -> Seq<char> {
    trim_end(trim_start(s, k), k)
}

pub proof fn lemma_lead(s: Seq<char>, k: Class, i: int)
    requires
        0 <= i <= s.len(),
        forall|j: int| 0 <= j < i ==> in_class(k, #[trigger] s[j]),
        i == s.len() || !in_class(k, s[i]),
    ensures
        lead(s, k) == i,
    decreases i,
{
    if i > 0 {
        assert forall|j: int| 0 <= j < i - 1 implies in_class(k, #[trigger] s.drop_first()[j]) by {
            assert(s.drop_first()[j] == s[j + 1]);
        }
        if i - 1 < s.drop_first().len() {
            assert(s.drop_first()[i - 1] == s[i]);
        }
        lemma_lead(s.drop_first(), k, i - 1);
        assert(in_class(k, s[0]));
    }
}

proof fn lemma_trail(s: Seq<char>, k: Class, i: int)
    requires
        0 <= i <= s.len(),
        forall|j: int| s.len() - i <= j < s.len() ==> in_class(k, #[trigger] s[j]),
        i == s.len() || !in_class(k, s[s.len() - 1 - i]),
    ensures
        trail(s, k) == i,
    decreases i,
{
    if i > 0 {
        let t = s.drop_last();
        assert forall|j: int| t.len() - (i - 1) <= j < t.len() implies in_class(k, #[trigger] t[j]) by {
            assert(t[j] == s[j]);
        }
        if i - 1 < t.len() {
            assert(t[t.len() - 1 - (i - 1)] == s[s.len() - 1 - i]);
        }
        lemma_trail(t, k, i - 1);
        assert(in_class(k, s[s.len() - 1]));
    }
}

pub proof fn lemma_trail_bound(s: Seq<char>, k: Class)
    ensures
        trail(s, k) <= s.len(),
    decreases s.len(),
{
    if s.len() > 0 && in_class(k, s.last()) {
        lemma_trail_bound(s.drop_last(), k);
    }
}

/// Start of the window `v[lo..hi]` once its leading characters of class `k` are skipped.
pub fn skip_lead(v: &Vec<char>, lo: usize, hi: usize, k: Class) -> (a: usize)
    requires
        lo <= hi <= v@.len(),
    ensures
        lo <= a <= hi,
        a - lo == lead(v@.subrange(lo as int, hi as int), k),
        v@.subrange(a as int, hi as int) == trim_start(v@.subrange(lo as int, hi as int), k),
{
    let ghost s = v@.subrange(lo as int, hi as int);
    let mut a = lo;
    while a < hi && in_class_exec(k, v[a])
        invariant
            lo <= a <= hi <= v@.len(),
            s == v@.subrange(lo as int, hi as int),
            forall|j: int| 0 <= j < a - lo ==> in_class(k, #[trigger] s[j]),
        decreases hi - a,
    {
        a = a + 1;
    }
    proof {
        if a < hi {
            assert(s[a - lo] == v@[a as int]);
        }
        lemma_lead(s, k, a - lo);
        assert(v@.subrange(a as int, hi as int) == s.skip(a - lo));
    }
    a
}

/// End of the window `v[lo..hi]` once its trailing characters of class `k` are dropped.
pub fn drop_trail(v: &Vec<char>, lo: usize, hi: usize, k: Class) -> (b: usize)
    requires
        lo <= hi <= v@.len(),
    ensures
        lo <= b <= hi,
        hi - b == trail(v@.subrange(lo as int, hi as int), k),
        v@.subrange(lo as int, b as int) == trim_end(v@.subrange(lo as int, hi as int), k),
{
    let ghost s = v@.subrange(lo as int, hi as int);
    let mut b = hi;
    while b > lo && in_class_exec(k, v[b - 1])
        invariant
            lo <= b <= hi <= v@.len(),
            s == v@.subrange(lo as int, hi as int),
            forall|j: int| b - lo <= j < s.len() ==> in_class(k, #[trigger] s[j]),
        decreases b - lo,
    {
        b = b - 1;
    }
    proof {
        if b > lo {
            assert(s[b - 1 - lo] == v@[b - 1]);
        }
        lemma_trail(s, k, hi - b);
        assert(v@.subrange(lo as int, b as int) == s.take(b - lo));
    }
    b
}

/// The window `v[lo..hi]` trimmed of class `k` on both sides.
pub fn trim_window(v: &Vec<char>, lo: usize, hi: usize, k: Class) -> (r: (usize, usize))
    requires
        lo <= hi <= v@.len(),
    ensures
        lo <= r.0 <= r.1 <= hi,
        v@.subrange(r.0 as int, r.1 as int) == trim(v@.subrange(lo as int, hi as int), k),
{
    let a = skip_lead(v, lo, hi, k);
    let b = drop_trail(v, a, hi, k);
    (a, b)
}


/// `pat` occurs in `s` at position `i`.
pub open spec fn occurs_at<A>(s: Seq<A>, pat: Seq<A>, i: int) -> bool {
    0 <= i && i + pat.len() <= s.len() && s.subrange(i, i + pat.len()) == pat
}

/// First occurrence of `pat` in `s` at or after `i`.
pub open spec fn find_from<A>(s: Seq<A>, pat: Seq<A>, i: int) -> Option<int>
    decreases s.len() + 1 - i,
{
    if i < 0 || i + pat.len() > s.len() {
        None
    } else if occurs_at(s, pat, i) {
        Some(i)
    } else {
        find_from(s, pat, i + 1)
    }
}

/// First occurrence of `pat` in `s` (`str::find`).
pub open spec fn find<A>(s: Seq<A>, pat: Seq<A>) -> Option<int> {
    find_from(s, pat, 0)
}

/// Last occurrence of `pat` in `s` at or before `i`.
pub open spec fn rfind_from<A>(s: Seq<A>, pat: Seq<A>, i: int) -> Option<int>
    decreases i + 1,
{
    if i < 0 {
        None
    } else if occurs_at(s, pat, i) {
        Some(i)
    } else {
        rfind_from(s, pat, i - 1)
    }
}

/// Last occurrence of `pat` in `s` (`str::rfind`).
pub open spec fn rfind<A>(s: Seq<A>, pat: Seq<A>) -> Option<int> {
    rfind_from(s, pat, s.len() - pat.len())
}

pub proof fn lemma_find_from<A>(s: Seq<A>, pat: Seq<A>, i: int)
    requires
        0 <= i,
    ensures
        find_from(s, pat, i) matches Some(k) ==> i <= k && occurs_at(s, pat, k) && forall|j: int|
            i <= j < k ==> !occurs_at(s, pat, j),
        find_from(s, pat, i) is None ==> forall|j: int| i <= j ==> !occurs_at(s, pat, j),
    decreases s.len() + 1 - i,
{
    if i + pat.len() <= s.len() && !occurs_at(s, pat, i) {
        lemma_find_from(s, pat, i + 1);
    }
}

pub proof fn lemma_find<A>(s: Seq<A>, pat: Seq<A>)
    ensures
        find(s, pat) matches Some(k) ==> occurs_at(s, pat, k) && forall|j: int|
            0 <= j < k ==> !occurs_at(s, pat, j),
        find(s, pat) is None ==> forall|j: int| !occurs_at(s, pat, j),
{
    lemma_find_from(s, pat, 0);
}

pub proof fn lemma_rfind_from<A>(s: Seq<A>, pat: Seq<A>, i: int)
    ensures
        rfind_from(s, pat, i) matches Some(k) ==> k <= i && occurs_at(s, pat, k) && forall|j: int|
            k < j <= i ==> !occurs_at(s, pat, j),
        rfind_from(s, pat, i) is None ==> forall|j: int| j <= i ==> !occurs_at(s, pat, j),
    decreases i + 1,
{
    if i >= 0 && !occurs_at(s, pat, i) {
        lemma_rfind_from(s, pat, i - 1);
    }
}

pub proof fn lemma_rfind<A>(s: Seq<A>, pat: Seq<A>)
    ensures
        rfind(s, pat) matches Some(k) ==> occurs_at(s, pat, k) && forall|j: int|
            k < j ==> !occurs_at(s, pat, j),
        rfind(s, pat) is None ==> forall|j: int| !occurs_at(s, pat, j),
{
    lemma_rfind_from(s, pat, s.len() - pat.len());
}

/// A result of `find_from` only depends on the part of `s` that it looks at.
pub proof fn lemma_find_from_unique<A>(s: Seq<A>, pat: Seq<A>, i: int, k: int)
    requires
        0 <= i <= k,
        occurs_at(s, pat, k),
        forall|j: int| i <= j < k ==> !occurs_at(s, pat, j),
    ensures
        find_from(s, pat, i) == Some(k),
    decreases k - i,
{
    if i < k {
        lemma_find_from_unique(s, pat, i + 1, k);
    }
}

pub proof fn lemma_find_none<A>(s: Seq<A>, pat: Seq<A>, i: int)
    requires
        0 <= i,
        forall|j: int| i <= j ==> !occurs_at(s, pat, j),
    ensures
        find_from(s, pat, i) is None,
    decreases s.len() - i,
{
    if i + pat.len() <= s.len() {
        if pat.len() == 0 {
            assert(s.subrange(i, i) =~= pat);
            assert(occurs_at(s, pat, i));
        } else {
            lemma_find_none(s, pat, i + 1);
        }
    }
}

pub proof fn lemma_rfind_unique<A>(s: Seq<A>, pat: Seq<A>, k: int)
    requires
        occurs_at(s, pat, k),
        forall|j: int| k < j ==> !occurs_at(s, pat, j),
    ensures
        rfind(s, pat) == Some(k),
{
    lemma_rfind_from(s, pat, s.len() - pat.len());
}

pub proof fn lemma_rfind_none<A>(s: Seq<A>, pat: Seq<A>)
    requires
        forall|j: int| !occurs_at(s, pat, j),
    ensures
        rfind(s, pat) is None,
{
    lemma_rfind_from(s, pat, s.len() - pat.len());
}

/// Whether `pat` occurs in `v` at absolute position `i`.
pub fn occurs_at_exec(v: &Vec<char>, pat: &Vec<char>, i: usize) -> (b: bool)
    requires
        i <= v@.len(),
    ensures
        b == occurs_at(v@, pat@, i as int),
{
    if pat.len() > v.len() - i {
        return false;
    }
    let end = i + pat.len();
    let mut j: usize = 0;
    while j < pat.len()
        invariant
            j <= pat@.len(),
            end == i + pat@.len(),
            i + pat@.len() <= v@.len(),
            forall|t: int| 0 <= t < j ==> v@[i + t] == pat@[t],
        decreases pat@.len() - j,
    {
        if v[i + j] != pat[j] {
            assert(v@.subrange(i as int, i + pat@.len())[j as int] != pat@[j as int]);
            return false;
        }
        j = j + 1;
    }
    assert(v@.subrange(i as int, i + pat@.len()) == pat@);
    true
}

/// First occurrence of `pat` in the window `v[lo..hi]`, relative to `lo`.
pub fn find_in(v: &Vec<char>, lo: usize, hi: usize, pat: &Vec<char>) -> (r: Option<usize>)
    requires
        lo <= hi <= v@.len(),
    ensures
        r matches Some(k) ==> find(v@.subrange(lo as int, hi as int), pat@) == Some(k as int),
        r is None ==> find(v@.subrange(lo as int, hi as int), pat@) is None,
{
    let ghost s = v@.subrange(lo as int, hi as int);
    let mut i = lo;
    while i < hi && pat.len() <= hi - i
        invariant
            lo <= i <= hi <= v@.len(),
            s == v@.subrange(lo as int, hi as int),
            forall|j: int| 0 <= j < i - lo ==> !occurs_at(s, pat@, j),
        decreases hi - i,
    {
        let hit = occurs_at_exec(v, pat, i);
        assert(hit == occurs_at(s, pat@, i - lo)) by {
            if i + pat@.len() <= hi {
                assert(s.subrange(i - lo, i - lo + pat@.len()) == v@.subrange(
                    i as int,
                    i + pat@.len(),
                ));
            }
        }
        if hit {
            proof {
                lemma_find_from_unique(s, pat@, 0, i - lo);
            }
            return Some(i - lo);
        }
        i = i + 1;
    }
    if i == hi && pat.len() == 0 {
        assert(s.subrange(i - lo, i - lo) =~= pat@);
        assert(occurs_at(s, pat@, i - lo));
        proof {
            lemma_find_from_unique(s, pat@, 0, i - lo);
        }
        return Some(i - lo);
    }
    proof {
        assert forall|j: int| 0 <= j implies !occurs_at(s, pat@, j) by {
            if j >= i - lo {
                assert(j + pat@.len() > s.len());
            }
        }
        lemma_find_none(s, pat@, 0);
    }
    None
}

/// Last occurrence of `pat` in the window `v[lo..hi]`, relative to `lo`.
pub fn rfind_in(v: &Vec<char>, lo: usize, hi: usize, pat: &Vec<char>) -> (r: Option<usize>)
    requires
        lo <= hi <= v@.len(),
    ensures
        r matches Some(k) ==> rfind(v@.subrange(lo as int, hi as int), pat@) == Some(k as int),
        r is None ==> rfind(v@.subrange(lo as int, hi as int), pat@) is None,
{
    let ghost s = v@.subrange(lo as int, hi as int);
    if pat.len() > hi - lo {
        proof {
            lemma_rfind_none(s, pat@);
        }
        return None;
    }
    let mut i = hi - pat.len();
    loop
        invariant
            lo <= i <= hi - pat@.len(),
            pat@.len() <= hi - lo,
            hi <= v@.len(),
            s == v@.subrange(lo as int, hi as int),
            forall|j: int| i - lo < j ==> !occurs_at(s, pat@, j),
        decreases i - lo,
    {
        let hit = occurs_at_exec(v, pat, i);
        assert(hit == occurs_at(s, pat@, i - lo)) by {
            assert(s.subrange(i - lo, i - lo + pat@.len()) == v@.subrange(
                i as int,
                i + pat@.len(),
            ));
        }
        if hit {
            proof {
                lemma_rfind_unique(s, pat@, i - lo);
            }
            return Some(i - lo);
        }
        if i == lo {
            proof {
                lemma_rfind_none(s, pat@);
            }
            return None;
        }
        i = i - 1;
    }
}


/// Number of leading characters of `s` that are not in `stops`.
pub open spec fn until(s: Seq<char>, stops: Seq<char>) -> nat
    decreases s.len(),
{
    if s.len() > 0 && !stops.contains(s[0]) {
        1 + until(s.drop_first(), stops)
    } else {
        0
    }
}

pub proof fn lemma_until(s: Seq<char>, stops: Seq<char>, i: int)
    requires
        0 <= i <= s.len(),
        forall|j: int| 0 <= j < i ==> !stops.contains(#[trigger] s[j]),
        i == s.len() || stops.contains(s[i]),
    ensures
        until(s, stops) == i,
    decreases i,
{
    if i > 0 {
        assert forall|j: int| 0 <= j < i - 1 implies !stops.contains(#[trigger] s.drop_first()[j]) by {
            assert(s.drop_first()[j] == s[j + 1]);
        }
        if i - 1 < s.drop_first().len() {
            assert(s.drop_first()[i - 1] == s[i]);
        }
        lemma_until(s.drop_first(), stops, i - 1);
        assert(!stops.contains(s[0]));
    }
}

pub proof fn lemma_until_bound(s: Seq<char>, stops: Seq<char>)
    ensures
        until(s, stops) <= s.len(),
        forall|j: int| 0 <= j < until(s, stops) ==> !stops.contains(#[trigger] s[j]),
        until(s, stops) < s.len() ==> stops.contains(s[until(s, stops) as int]),
    decreases s.len(),
{
    if s.len() > 0 && !stops.contains(s[0]) {
        lemma_until_bound(s.drop_first(), stops);
        assert forall|j: int| 0 <= j < until(s, stops) implies !stops.contains(#[trigger] s[j]) by {
            if j > 0 {
                assert(s[j] == s.drop_first()[j - 1]);
            }
        }
        if until(s, stops) < s.len() {
            assert(s[until(s, stops) as int] == s.drop_first()[until(s, stops) - 1]);
        }
    }
}

/// Whether `c` is one of `stops`.
pub fn contains_char(stops: &Vec<char>, c: char) -> (b: bool)
    ensures
        b == stops@.contains(c),
{
    let mut i: usize = 0;
    while i < stops.len()
        invariant
            i <= stops@.len(),
            forall|j: int| 0 <= j < i ==> stops@[j] != c,
        decreases stops@.len() - i,
    {
        if stops[i] == c {
            assert(stops@[i as int] == c);
            return true;
        }
        i = i + 1;
    }
    false
}

/// End of the longest prefix of the window `v[lo..hi]` free of the characters `stops`.
pub fn scan_until(v: &Vec<char>, lo: usize, hi: usize, stops: &Vec<char>) -> (r: usize)
    requires
        lo <= hi <= v@.len(),
    ensures
        lo <= r <= hi,
        r - lo == until(v@.subrange(lo as int, hi as int), stops@),
{
    let ghost s = v@.subrange(lo as int, hi as int);
    let mut r = lo;
    while r < hi && !contains_char(stops, v[r])
        invariant
            lo <= r <= hi <= v@.len(),
            s == v@.subrange(lo as int, hi as int),
            forall|j: int| 0 <= j < r - lo ==> !stops@.contains(#[trigger] s[j]),
        decreases hi - r,
    {
        r = r + 1;
    }
    proof {
        if r < hi {
            assert(s[r - lo] == v@[r as int]);
        }
        lemma_until(s, stops@, r - lo);
    }
    r
}


/// A string made of the characters `v`.
pub fn text_of(v: &Vec<char>) -> (s: String)
    ensures
        s@ == v@,
{
    let s = string_of(v, 0, v.len());
    assert(v@.subrange(0, v@.len() as int) == v@);
    s
}

/// Appends the ASCII lower-cased characters `v[lo..hi]` to `out`.
pub fn push_lower_range(out: &mut String, v: &Vec<char>, lo: usize, hi: usize)
    requires
        lo <= hi <= v@.len(),
    ensures
        final(out)@ == old(out)@ + lower(v@.subrange(lo as int, hi as int)),
{
    let mut i = lo;
    while i < hi
        invariant
            lo <= i <= hi <= v@.len(),
            out@ == old(out)@ + lower(v@.subrange(lo as int, i as int)),
        decreases hi - i,
    {
        let c = lower_char_exec(v[i]);
        push_char(out, c);
        i = i + 1;
        assert(lower(v@.subrange(lo as int, i as int)) == lower(v@.subrange(lo as int, i - 1)).push(
            c,
        ));
    }
}

/// Whether the window `v[lo..hi]` equals `pat` up to ASCII case.
pub fn eq_ic_window(v: &Vec<char>, lo: usize, hi: usize, pat: &Vec<char>) -> (b: bool)
    requires
        lo <= hi <= v@.len(),
    ensures
        b == eq_ic(v@.subrange(lo as int, hi as int), pat@),
{
    let ghost s = v@.subrange(lo as int, hi as int);
    if hi - lo != pat.len() {
        return false;
    }
    let mut i: usize = 0;
    while i < pat.len()
        invariant
            i <= pat@.len(),
            hi - lo == pat@.len(),
            lo <= hi <= v@.len(),
            s == v@.subrange(lo as int, hi as int),
            forall|j: int| 0 <= j < i ==> lower_char(#[trigger] s[j]) == lower_char(pat@[j]),
        decreases pat@.len() - i,
    {
        if lower_char_exec(v[lo + i]) != lower_char_exec(pat[i]) {
            assert(lower(s)[i as int] != lower(pat@)[i as int]);
            return false;
        }
        i = i + 1;
    }
    assert(lower(s) =~= lower(pat@));
    true
}

/// Whether the window `v[lo..hi]` equals `pat`.
pub fn eq_window(v: &Vec<char>, lo: usize, hi: usize, pat: &Vec<char>) -> (b: bool)
    requires
        lo <= hi <= v@.len(),
    ensures
        b == (v@.subrange(lo as int, hi as int) == pat@),
{
    if hi - lo != pat.len() {
        return false;
    }
    let b = occurs_at_exec(v, pat, lo);
    assert(b == occurs_at(v@, pat@, lo as int));
    b
}

/// Whether the window `v[lo..hi]` holds the character `c`.
pub fn window_has(v: &Vec<char>, lo: usize, hi: usize, c: char) -> (b: bool)
    requires
        lo <= hi <= v@.len(),
    ensures
        b == v@.subrange(lo as int, hi as int).contains(c),
{
    let ghost s = v@.subrange(lo as int, hi as int);
    let mut i = lo;
    while i < hi
        invariant
            lo <= i <= hi <= v@.len(),
            s == v@.subrange(lo as int, hi as int),
            forall|j: int| 0 <= j < i - lo ==> s[j] != c,
        decreases hi - i,
    {
        if v[i] == c {
            assert(s[i - lo] == c);
            return true;
        }
        i = i + 1;
    }
    false
}


/// The view of a textual result.
pub open spec fn text_result(r: Result<String, String>) -> Result<Seq<char>, Seq<char>> {
    match r {
        Ok(s) => Ok(s@),
        Err(e) => Err(e@),
    }
}


/// An ASCII decimal digit.
pub open spec fn is_digit(c: char) -> bool {
    '0' <= c && c <= '9'
}

/// All characters of `s` are ASCII decimal digits.
pub open spec fn all_digits(s: Seq<char>) -> bool {
    forall|i: int| 0 <= i < s.len() ==> is_digit(#[trigger] s[i])
}

/// The value of a string of decimal digits.
pub open spec fn digits_value(s: Seq<char>) -> nat
    decreases s.len(),
{
    if s.len() == 0 {
        0
    } else {
        digits_value(s.drop_last()) * 10 + ((s.last() as u32) - ('0' as u32)) as nat
    }
}

/// An unsigned integer parsed as `str::parse` does (`u16`, `usize`, …):
/// an optional `+` sign, then at least one ASCII digit, the value at most `max`.
pub open spec fn parse_unsigned(s: Seq<char>, max: nat) -> Option<nat> {
    let d = if s.len() > 0 && s[0] == '+' {
        s.drop_first()
    } else {
        s
    };
    if d.len() > 0 && all_digits(d) && digits_value(d) <= max {
        Some(digits_value(d))
    } else {
        None
    }
}

/// Parses the window `v[lo..hi]` as an unsigned integer no greater than `max`.
pub fn parse_unsigned_window(v: &Vec<char>, lo: usize, hi: usize, max: u64) -> (r: Option<u64>)
    requires
        lo <= hi <= v@.len(),
    ensures
        r matches Some(x) ==> parse_unsigned(v@.subrange(lo as int, hi as int), max as nat) == Some(
            x as nat,
        ),
        r is None ==> parse_unsigned(v@.subrange(lo as int, hi as int), max as nat) is None,
{
    let ghost s = v@.subrange(lo as int, hi as int);
    let start = if lo < hi && v[lo] == '+' {
        lo + 1
    } else {
        lo
    };
    let ghost d = v@.subrange(start as int, hi as int);
    assert(d == (if s.len() > 0 && s[0] == '+' {
        s.drop_first()
    } else {
        s
    }));
    if start == hi {
        return None;
    }
    let mut acc: u128 = 0;
    let mut i = start;
    while i < hi
        invariant
            lo <= start <= i <= hi <= v@.len(),
            d == v@.subrange(start as int, hi as int),
            s == v@.subrange(lo as int, hi as int),
            d == (if s.len() > 0 && s[0] == '+' {
                s.drop_first()
            } else {
                s
            }),
            d.len() > 0,
            all_digits(v@.subrange(start as int, i as int)),
            acc <= (max as u128) + 1,
            acc == (if digits_value(v@.subrange(start as int, i as int)) <= max {
                digits_value(v@.subrange(start as int, i as int))
            } else {
                (max + 1) as nat
            }),
        decreases hi - i,
    {
        let c = v[i];
        if !('0' <= c && c <= '9') {
            assert(d[i - start] == c);
            assert(!is_digit(d[i - start]));
            return None;
        }
        let ghost pre = v@.subrange(start as int, i as int);
        let ghost next = v@.subrange(start as int, i + 1);
        assert(next.drop_last() == pre);
        assert(next.last() == c);
        let digit: u128 = ((c as u32) - ('0' as u32)) as u128;
        if acc > max as u128 {
            acc = (max as u128) + 1;
        } else {
            acc = acc * 10 + digit;
            if acc > max as u128 {
                acc = (max as u128) + 1;
            }
        }
        i = i + 1;
        assert(all_digits(next)) by {
            assert forall|j: int| 0 <= j < next.len() implies is_digit(#[trigger] next[j]) by {
                if j < pre.len() {
                    assert(next[j] == pre[j]);
                }
            }
        }
    }
    if acc > max as u128 {
        None
    } else {
        Some(acc as u64)
    }
}


/// Number of leading characters of `s` outside the class `k`.
pub open spec fn run(s: Seq<char>, k: Class) -> nat
    decreases s.len(),
{
    if s.len() > 0 && !in_class(k, s[0]) {
        1 + run(s.drop_first(), k)
    } else {
        0
    }
}

proof fn lemma_run(s: Seq<char>, k: Class, i: int)
    requires
        0 <= i <= s.len(),
        forall|j: int| 0 <= j < i ==> !in_class(k, #[trigger] s[j]),
        i == s.len() || in_class(k, s[i]),
    ensures
        run(s, k) == i,
    decreases i,
{
    if i > 0 {
        assert forall|j: int| 0 <= j < i - 1 implies !in_class(k, #[trigger] s.drop_first()[j]) by {
            assert(s.drop_first()[j] == s[j + 1]);
        }
        if i - 1 < s.drop_first().len() {
            assert(s.drop_first()[i - 1] == s[i]);
        }
        lemma_run(s.drop_first(), k, i - 1);
    }
}

pub proof fn lemma_run_bound(s: Seq<char>, k: Class)
    ensures
        run(s, k) <= s.len(),
        s.len() > 0 && !in_class(k, s[0]) ==> run(s, k) > 0,
    decreases s.len(),
{
    if s.len() > 0 && !in_class(k, s[0]) {
        lemma_run_bound(s.drop_first(), k);
    }
}

/// End of the longest prefix of the window `v[lo..hi]` outside the class `k`.
pub fn skip_run(v: &Vec<char>, lo: usize, hi: usize, k: Class) -> (r: usize)
    requires
        lo <= hi <= v@.len(),
    ensures
        lo <= r <= hi,
        r - lo == run(v@.subrange(lo as int, hi as int), k),
{
    let ghost s = v@.subrange(lo as int, hi as int);
    let mut r = lo;
    while r < hi && !in_class_exec(k, v[r])
        invariant
            lo <= r <= hi <= v@.len(),
            s == v@.subrange(lo as int, hi as int),
            forall|j: int| 0 <= j < r - lo ==> !in_class(k, #[trigger] s[j]),
        decreases hi - r,
    {
        r = r + 1;
    }
    proof {
        if r < hi {
            assert(s[r - lo] == v@[r as int]);
        }
        lemma_run(s, k, r - lo);
    }
    r
}

/// Number of trailing characters of `s` outside the class `k`.
pub open spec fn rrun(s: Seq<char>, k: Class) -> nat
    decreases s.len(),
{
    if s.len() > 0 && !in_class(k, s.last()) {
        1 + rrun(s.drop_last(), k)
    } else {
        0
    }
}

/// What `rrun` counts: its characters are outside `k`, and the one before
/// them, if any, is in `k`.
pub proof fn lemma_rrun(s: Seq<char>, k: Class)
    ensures
        rrun(s, k) <= s.len(),
        forall|j: int| s.len() - rrun(s, k) <= j < s.len() ==> !in_class(k, #[trigger] s[j]),
        rrun(s, k) < s.len() ==> in_class(k, s[s.len() - 1 - rrun(s, k)]),
    decreases s.len(),
{
    if s.len() > 0 && !in_class(k, s.last()) {
        let t = s.drop_last();
        lemma_rrun(t, k);
        assert forall|j: int| s.len() - rrun(s, k) <= j < s.len() implies !in_class(
            k,
            #[trigger] s[j],
        ) by {
            if j < s.len() - 1 {
                assert(s[j] == t[j]);
            }
        }
        if rrun(s, k) < s.len() {
            assert(s[s.len() - 1 - rrun(s, k)] == t[t.len() - 1 - rrun(t, k)]);
        }
    }
}

proof fn lemma_rrun_is(s: Seq<char>, k: Class, i: int)
    requires
        0 <= i <= s.len(),
        forall|j: int| s.len() - i <= j < s.len() ==> !in_class(k, #[trigger] s[j]),
        i == s.len() || in_class(k, s[s.len() - 1 - i]),
    ensures
        rrun(s, k) == i,
    decreases i,
{
    if i > 0 {
        let t = s.drop_last();
        assert forall|j: int| t.len() - (i - 1) <= j < t.len() implies !in_class(
            k,
            #[trigger] t[j],
        ) by {
            assert(t[j] == s[j]);
        }
        if i - 1 < t.len() {
            assert(t[t.len() - 1 - (i - 1)] == s[s.len() - 1 - i]);
        }
        lemma_rrun_is(t, k, i - 1);
        assert(!in_class(k, s[s.len() - 1]));
    }
}

/// Start of the longest suffix of the window `v[lo..hi]` outside the class `k`.
pub fn skip_run_back(v: &Vec<char>, lo: usize, hi: usize, k: Class) -> (r: usize)
    requires
        lo <= hi <= v@.len(),
    ensures
        lo <= r <= hi,
        hi - r == rrun(v@.subrange(lo as int, hi as int), k),
{
    let ghost s = v@.subrange(lo as int, hi as int);
    let mut r = hi;
    while r > lo && !in_class_exec(k, v[r - 1])
        invariant
            lo <= r <= hi <= v@.len(),
            s == v@.subrange(lo as int, hi as int),
            forall|j: int| r - lo <= j < s.len() ==> !in_class(k, #[trigger] s[j]),
        decreases r - lo,
    {
        r = r - 1;
    }
    proof {
        if r > lo {
            assert(s[r - 1 - lo] == v@[r - 1]);
        }
        lemma_rrun_is(s, k, hi - r);
    }
    r
}

/// The maximal non-empty runs of `s` outside the class `k`, in order: `s`
/// split at the characters of `k`, empty pieces dropped (`split('/')` with
/// empty pieces filtered, `split_whitespace`).
pub open spec fn pieces(s: Seq<char>, k: Class) -> Seq<Seq<char>>
    decreases s.len(),
{
    if s.len() == 0 {
        Seq::empty()
    } else if in_class(k, s[0]) {
        pieces(s.drop_first(), k)
    } else {
        let n = run(s, k);
        proof {
            lemma_run_bound(s, k);
        }
        seq![s.take(n as int)] + pieces(s.skip(n as int), k)
    }
}

/// The views of the windows `rs` of `v`.
pub open spec fn windows(v: Seq<char>, rs: Seq<(usize, usize)>) -> Seq<Seq<char>> {
    rs.map_values(|r: (usize, usize)| v.subrange(r.0 as int, r.1 as int))
}

/// The windows of the pieces of `v[lo..hi]` split at the class `k`.
pub fn split_pieces(v: &Vec<char>, lo: usize, hi: usize, k: Class) -> (rs: Vec<(usize, usize)>)
    requires
        lo <= hi <= v@.len(),
    ensures
        windows(v@, rs@) == pieces(v@.subrange(lo as int, hi as int), k),
        forall|t: int| 0 <= t < rs@.len() ==> lo <= (#[trigger] rs@[t]).0 <= rs@[t].1 <= hi,
{
    let mut rs: Vec<(usize, usize)> = Vec::new();
    let mut i = lo;
    while i < hi
        invariant
            lo <= i <= hi <= v@.len(),
            windows(v@, rs@) + pieces(v@.subrange(i as int, hi as int), k) == pieces(
                v@.subrange(lo as int, hi as int),
                k,
            ),
            forall|t: int| 0 <= t < rs@.len() ==> lo <= (#[trigger] rs@[t]).0 <= rs@[t].1 <= i,
        decreases hi - i,
    {
        let ghost s = v@.subrange(i as int, hi as int);
        if in_class_exec(k, v[i]) {
            assert(s.drop_first() == v@.subrange(i + 1, hi as int));
            i = i + 1;
        } else {
            let e = skip_run(v, i, hi, k);
            proof {
                lemma_run_bound(s, k);
                assert(s.take((e - i) as int) == v@.subrange(i as int, e as int));
                assert(s.skip((e - i) as int) == v@.subrange(e as int, hi as int));
            }
            let ghost old_rs = rs@;
            rs.push((i, e));
            assert(windows(v@, rs@) == windows(v@, old_rs).push(v@.subrange(i as int, e as int)));
            i = e;
        }
    }
    assert(windows(v@, rs@) + pieces(v@.subrange(hi as int, hi as int), k) == windows(v@, rs@));
    rs
}


/// ASCII upper-casing of a string (`str::to_ascii_uppercase`).
pub open spec fn upper(s: Seq<char>) -> Seq<char> {
    s.map_values(|c: char| upper_char(c))
}

pub fn upper_char_exec(c: char) -> (r: char)
    ensures
        r == upper_char(c),
{
    if 'a' <= c && c <= 'z' {
        let b: u8 = (c as u8) - 32;
        b as char
    } else {
        c
    }
}

/// The decimal digit character of `d < 10`.
pub open spec fn digit_char(d: nat) -> char {
    (('0' as u32) + d) as char
}

/// The decimal representation of `n`, without leading zeros (`Display` of
/// an unsigned integer).
pub open spec fn dec(n: nat) -> Seq<char>
    decreases n,
{
    if n < 10 {
        seq![digit_char(n)]
    } else {
        dec(n / 10).push(digit_char(n % 10))
    }
}

/// The decimal representation of `n` is a non-empty run of digits whose
/// value is `n`.
pub proof fn lemma_dec(n: nat)
    ensures
        dec(n).len() > 0,
        all_digits(dec(n)),
        digits_value(dec(n)) == n,
    decreases n,
{
    if n < 10 {
        let d = dec(n);
        assert(d == seq![digit_char(n)]);
        assert(d.drop_last() == Seq::<char>::empty());
        assert((digit_char(n) as u32) == ('0' as u32) + n);
        assert(d.last() == digit_char(n));
        assert(digits_value(d) == digits_value(d.drop_last()) * 10 + ((d.last() as u32) - ('0' as u32)) as nat);
        assert(digits_value(Seq::<char>::empty()) == 0);
    } else {
        lemma_dec(n / 10);
        let h = dec(n / 10);
        let d = dec(n);
        assert(d == h.push(digit_char(n % 10)));
        assert(d.drop_last() == h);
        assert((digit_char(n % 10) as u32) == ('0' as u32) + n % 10);
        assert forall|i: int| 0 <= i < d.len() implies is_digit(#[trigger] d[i]) by {
            if i < h.len() {
                assert(d[i] == h[i]);
            }
        }
        assert(d.last() == digit_char(n % 10));
        assert(digits_value(d) == digits_value(h) * 10 + ((d.last() as u32) - ('0' as u32)) as nat);
        assert(n == (n / 10) * 10 + n % 10);
    }
}

/// Parsing the decimal representation of a number no greater than `max`
/// gives the number back.
pub proof fn lemma_parse_dec(n: nat, max: nat)
    requires
        n <= max,
    ensures
        parse_unsigned(dec(n), max) == Some(n),
{
    lemma_dec(n);
    assert(is_digit(dec(n)[0]));
}

/// Appends the decimal representation of `n` to `out`.
pub fn push_decimal(out: &mut String, n: u64)
    ensures
        final(out)@ == old(out)@ + dec(n as nat),
    decreases n,
{
    if n >= 10 {
        push_decimal(out, n / 10);
    }
    let d: u8 = (n % 10) as u8;
    let c: char = (('0' as u8) + d) as char;
    assert(c == digit_char((n % 10) as nat));
    push_char(out, c);
}

/// The views of strings.
pub open spec fn texts(s: Seq<String>) -> Seq<Seq<char>> {
    s.map_values(|x: String| x@)
}

/// The optional text seen as a sequence of characters.
pub open spec fn opt_text(o: Option<String>) -> Option<Seq<char>> {
    match o {
        Some(s) => Some(s@),
        None => None,
    }
}


/// The characters `v[lo..hi]`, ASCII lower-cased.
pub fn lower_window(v: &Vec<char>, lo: usize, hi: usize) -> (r: Vec<char>)
    requires
        lo <= hi <= v@.len(),
    ensures
        r@ == lower(v@.subrange(lo as int, hi as int)),
{
    let mut r: Vec<char> = Vec::new();
    let mut i = lo;
    while i < hi
        invariant
            lo <= i <= hi <= v@.len(),
            r@ == lower(v@.subrange(lo as int, i as int)),
        decreases hi - i,
    {
        let c = lower_char_exec(v[i]);
        r.push(c);
        i = i + 1;
        assert(lower(v@.subrange(lo as int, i as int)) == lower(v@.subrange(lo as int, i - 1)).push(
            c,
        ));
    }
    r
}

/// The characters `v[lo..hi]`.
pub fn copy_window(v: &Vec<char>, lo: usize, hi: usize) -> (r: Vec<char>)
    requires
        lo <= hi <= v@.len(),
    ensures
        r@ == v@.subrange(lo as int, hi as int),
{
    let mut r: Vec<char> = Vec::new();
    let mut i = lo;
    while i < hi
        invariant
            lo <= i <= hi <= v@.len(),
            r@ == v@.subrange(lo as int, i as int),
        decreases hi - i,
    {
        r.push(v[i]);
        i = i + 1;
        assert(v@.subrange(lo as int, i as int) == v@.subrange(lo as int, i - 1).push(v@[i - 1]));
    }
    r
}


/// `s` ends with `suffix` (`str::ends_with`).
pub open spec fn ends_with(s: Seq<char>, suffix: Seq<char>) -> bool {
    s.len() >= suffix.len() && s.skip(s.len() - suffix.len()) == suffix
}

/// `s` starts with `prefix` (`str::starts_with`).
pub open spec fn starts_with(s: Seq<char>, prefix: Seq<char>) -> bool {
    s.len() >= prefix.len() && s.take(prefix.len() as int) == prefix
}

/// Whether the ASCII lower-cased `name` ends with `suffix`.
pub fn lower_ends_with(name: &str, suffix: &str) -> (b: bool)
    ensures
        b == ends_with(lower(name@), suffix@),
{
    let v = chars_of(name);
    let low = lower_window(&v, 0, v.len());
    assert(v@.subrange(0, v@.len() as int) == v@);
    let suf = chars_of(suffix);
    if suf.len() > low.len() {
        return false;
    }
    let b = eq_window(&low, low.len() - suf.len(), low.len(), &suf);
    assert(low@.subrange(low@.len() - suf@.len(), low@.len() as int) == low@.skip(
        low@.len() - suf@.len(),
    ));
    b
}

/// Whether `s` starts with `prefix`.
pub fn starts_with_exec(s: &str, prefix: &str) -> (b: bool)
    ensures
        b == starts_with(s@, prefix@),
{
    let v = chars_of(s);
    let p = chars_of(prefix);
    if p.len() > v.len() {
        return false;
    }
    let b = eq_window(&v, 0, p.len(), &p);
    assert(v@.subrange(0, p@.len() as int) == v@.take(p@.len() as int));
    b
}

/// Whether `s` ends with `suffix`.
pub fn ends_with_exec(s: &str, suffix: &str) -> (b: bool)
    ensures
        b == ends_with(s@, suffix@),
{
    let v = chars_of(s);
    let p = chars_of(suffix);
    if p.len() > v.len() {
        return false;
    }
    let b = eq_window(&v, v.len() - p.len(), v.len(), &p);
    assert(v@.subrange(v@.len() - p@.len(), v@.len() as int) == v@.skip(v@.len() - p@.len()));
    b
}

/// Whether the strings `a` and `b` are equal.
pub fn str_eq(a: &str, b: &str) -> (r: bool)
    ensures
        r == (a@ == b@),
{
    let v = chars_of(a);
    let w = chars_of(b);
    let r = eq_window(&v, 0, v.len(), &w);
    assert(v@.subrange(0, v@.len() as int) == v@);
    r
}


pub proof fn lemma_run_append(a: Seq<char>, c: Seq<char>, k: Class)
    ensures
        run(a + c, k) == if run(a, k) < a.len() {
            run(a, k)
        } else {
            a.len() + run(c, k)
        },
    decreases a.len(),
{
    lemma_run_bound(a, k);
    if a.len() == 0 {
        assert(a + c == c);
    } else {
        assert((a + c)[0] == a[0]);
        assert((a + c).drop_first() == a.drop_first() + c);
        if !in_class(k, a[0]) {
            lemma_run_append(a.drop_first(), c, k);
        }
    }
}

/// Every piece is non-empty and free of the class `k`.
pub proof fn lemma_pieces_shape(s: Seq<char>, k: Class)
    ensures
        forall|i: int|
            0 <= i < pieces(s, k).len() ==> (#[trigger] pieces(s, k)[i]).len() > 0 && forall|j: int|
                0 <= j < pieces(s, k)[i].len() ==> !in_class(k, pieces(s, k)[i][j]),
    decreases s.len(),
{
    if s.len() > 0 {
        if in_class(k, s[0]) {
            lemma_pieces_shape(s.drop_first(), k);
            assert(pieces(s, k) == pieces(s.drop_first(), k));
        } else {
            let n = run(s, k);
            lemma_run_bound(s, k);
            lemma_pieces_shape(s.skip(n as int), k);
            lemma_until_run_prefix(s, k);
            let ps = pieces(s, k);
            assert(ps == seq![s.take(n as int)] + pieces(s.skip(n as int), k));
            assert forall|i: int| 0 <= i < ps.len() implies (#[trigger] ps[i]).len() > 0 && forall|j: int|
                0 <= j < ps[i].len() ==> !in_class(k, ps[i][j]) by {
                if i > 0 {
                    assert(ps[i] == pieces(s.skip(n as int), k)[i - 1]);
                } else {
                    assert(ps[0] == s.take(n as int));
                    assert forall|j: int| 0 <= j < ps[0].len() implies !in_class(k, ps[0][j]) by {
                        assert(ps[0][j] == s[j]);
                    }
                }
            }
        }
    }
}

/// The first `run` characters of `s` are outside the class.
pub proof fn lemma_until_run_prefix(s: Seq<char>, k: Class)
    ensures
        forall|j: int| 0 <= j < run(s, k) ==> !in_class(k, #[trigger] s[j]),
    decreases s.len(),
{
    lemma_run_bound(s, k);
    if s.len() > 0 && !in_class(k, s[0]) {
        lemma_until_run_prefix(s.drop_first(), k);
        lemma_run_bound(s.drop_first(), k);
        assert forall|j: int| 0 <= j < run(s, k) implies !in_class(k, #[trigger] s[j]) by {
            if j > 0 {
                assert(s[j] == s.drop_first()[j - 1]);
            }
        }
    }
}

/// A non-empty text free of the class `k` is a single piece.
pub proof fn lemma_pieces_single(p: Seq<char>, k: Class)
    requires
        p.len() > 0,
        forall|j: int| 0 <= j < p.len() ==> !in_class(k, #[trigger] p[j]),
    ensures
        pieces(p, k) == seq![p],
{
    lemma_run(p, k, p.len() as int);
    assert(p.take(p.len() as int) == p);
    assert(p.skip(p.len() as int) == Seq::<char>::empty());
    assert(pieces(Seq::<char>::empty(), k) == Seq::<Seq<char>>::empty());
}

/// Splitting at a separator of class `k` splits each side.
pub proof fn lemma_pieces_append(a: Seq<char>, sep: char, b: Seq<char>, k: Class)
    requires
        in_class(k, sep),
    ensures
        pieces(a + seq![sep] + b, k) == pieces(a, k) + pieces(b, k),
    decreases a.len(),
{
    let w = a + seq![sep] + b;
    if a.len() == 0 {
        assert(w.drop_first() == b);
        assert(pieces(a, k) == Seq::<Seq<char>>::empty());
    } else if in_class(k, a[0]) {
        assert(w.drop_first() == a.drop_first() + seq![sep] + b);
        lemma_pieces_append(a.drop_first(), sep, b, k);
    } else {
        let n = run(a, k);
        lemma_run_bound(a, k);
        lemma_run_append(a, seq![sep] + b, k);
        assert(w == a + (seq![sep] + b));
        if n == a.len() {
            lemma_run(seq![sep] + b, k, 0);
        }
        assert(run(w, k) == n);
        assert(w.take(n as int) == a.take(n as int));
        assert(w.skip(n as int) == a.skip(n as int) + seq![sep] + b);
        lemma_pieces_append(a.skip(n as int), sep, b, k);
        assert(pieces(a, k) == seq![a.take(n as int)] + pieces(a.skip(n as int), k));
    }
}

} // verus!
