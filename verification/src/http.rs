//! The HTTP response stored in a WARC `response` record: its status line,
//! its `Content-Type` header and its payload.

use vstd::prelude::*;
use vstd::utf8::{decode_utf8, encode_utf8, valid_utf8};

use crate::text::{
    chars_of, dec, eq_ic, eq_ic_window, find, find_in, lemma_find, lemma_find_from_unique,
    lemma_find_none, lower, lower_char_exec, occurs_at, parse_unsigned, parse_unsigned_window,
    pieces, scan_until, split_pieces, string_of, trim, trim_window, until, windows, Class,
};

verus! {

/// The blank line `\r\n\r\n` that ends an HTTP header block.
pub open spec fn blank_line() -> Seq<u8> {
    seq![13u8, 10u8, 13u8, 10u8]
}

/// `std::str::from_utf8`: the text of `bytes` when they are well-formed
/// UTF-8 (as `vstd::utf8::valid_utf8` defines it), decoded as
/// `vstd::utf8::decode_utf8` does; nothing otherwise.
#[verifier::external_body]
pub(crate) fn utf8_str(bytes: &[u8]) -> (r: Option<&str>)
    ensures
        r matches Some(s) ==> valid_utf8(bytes@) && s@ == decode_utf8(bytes@),
        r is None ==> !valid_utf8(bytes@),
{
    std::str::from_utf8(bytes).ok()
}

/// First occurrence of the blank line in `b[lo..]`, relative to `lo`.
pub fn find_blank_line(b: &[u8], lo: usize) -> (r: Option<usize>)
    requires
        lo <= b@.len(),
    ensures
        r matches Some(k) ==> find(b@.skip(lo as int), blank_line()) == Some(k as int),
        r is None ==> find(b@.skip(lo as int), blank_line()) is None,
{
    let ghost s = b@.skip(lo as int);
    let mut i = lo;
    while i < b.len() && b.len() - i >= 4
        invariant
            lo <= i <= b@.len(),
            s == b@.skip(lo as int),
            forall|j: int| 0 <= j < i - lo ==> !occurs_at(s, blank_line(), j),
        decreases b@.len() - i,
    {
        if b[i] == 13 && b[i + 1] == 10 && b[i + 2] == 13 && b[i + 3] == 10 {
            assert(s.subrange(i - lo, i - lo + 4) =~= blank_line());
            proof {
                lemma_find_from_unique(s, blank_line(), 0, i - lo);
            }
            return Some(i - lo);
        }
        assert(!occurs_at(s, blank_line(), i - lo)) by {
            if occurs_at(s, blank_line(), i - lo) {
                assert(s.subrange(i - lo, i - lo + 4)[0] == s[i - lo]);
                assert(s.subrange(i - lo, i - lo + 4)[1] == s[i - lo + 1]);
                assert(s.subrange(i - lo, i - lo + 4)[2] == s[i - lo + 2]);
                assert(s.subrange(i - lo, i - lo + 4)[3] == s[i - lo + 3]);
            }
        }
        i = i + 1;
    }
    proof {
        assert forall|j: int| 0 <= j implies !occurs_at(s, blank_line(), j) by {
            if j >= i - lo {
                assert(j + 4 > s.len());
            }
        }
        lemma_find_none(s, blank_line(), 0);
    }
    None
}

/// `l` without one final carriage return.
pub open spec fn strip_cr(l: Seq<char>) -> Seq<char> {
    if l.len() > 0 && l.last() == '\r' {
        l.drop_last()
    } else {
        l
    }
}

/// The first line of a non-empty text (`str::lines().next()`): up to the
/// first `\n`, without a `\r` just before it.
pub open spec fn first_line(h: Seq<char>) -> Seq<char> {
    let k = until(h, seq!['\n']);
    if k < h.len() {
        strip_cr(h.take(k as int))
    } else {
        h
    }
}

/// What follows the first line of a text.
pub open spec fn after_first_line(h: Seq<char>) -> Seq<char> {
    let k = until(h, seq!['\n']);
    if k < h.len() {
        h.skip(k + 1int)
    } else {
        Seq::empty()
    }
}

/// The header block of an HTTP message: the bytes before the first blank
/// line, decoded, when there is such a line and they are UTF-8.
pub open spec fn http_head(body: Seq<u8>) -> Option<Seq<char>> {
    match find(body, blank_line()) {
        Some(sep) => if valid_utf8(body.take(sep)) {
            Some(decode_utf8(body.take(sep)))
        } else {
            None
        },
        None => None,
    }
}

/// The status code and the payload of an HTTP response: the second word of
/// the status line, parsed as a `u16`, and the bytes after the blank line.
pub open spec fn http_split(body: Seq<u8>) -> Option<(u16, Seq<u8>)> {
    match http_head(body) {
        Some(h) => {
            let words = pieces(first_line(h), Class::Space);
            if h.len() > 0 && words.len() >= 2 {
                match parse_unsigned(words[1], 65535) {
                    Some(status) => Some(
                        (status as u16, body.skip(find(body, blank_line())->0 + 4)),
                    ),
                    None => None,
                }
            } else {
                None
            }
        },
        None => None,
    }
}

/// The value of the first `Content-Type` header among the lines of `h`.
pub open spec fn content_type_in(h: Seq<char>) -> Seq<char>
    decreases h.len(),
{
    if h.len() == 0 {
        Seq::empty()
    } else {
        let line = first_line(h);
        let found = match find(line, seq![':']) {
            Some(i) => eq_ic(line.take(i), "content-type"@),
            None => false,
        };
        if found {
            trim(line.skip(find(line, seq![':'])->0 + 1), Class::Space)
        } else {
            proof {
                crate::text::lemma_until_bound(h, seq!['\n']);
            }
            content_type_in(after_first_line(h))
        }
    }
}

/// The `Content-Type` of an HTTP response, or the empty string.
pub open spec fn http_ctype(body: Seq<u8>) -> Seq<char> {
    match http_head(body) {
        Some(h) => content_type_in(h),
        None => Seq::empty(),
    }
}

/// A media type that names an HTML page.
pub open spec fn html_type(ctype: Seq<char>) -> bool {
    find(lower(ctype), "text/html"@) is Some || find(lower(ctype), "application/xhtml"@) is Some
}


/// Law: without a blank line there is no HTTP response to split.
pub proof fn law_split_needs_blank_line(body: Seq<u8>)
    requires
        forall|j: int| !occurs_at(body, blank_line(), j),
    ensures
        http_split(body) is None,
        http_head(body) is None,
{
    lemma_find_none(body, blank_line(), 0);
}

/// Law: splitting a response gives back the status and the payload it was
/// made of.  A header block `head` (with no blank line in it, nor across
/// its end) whose status line has the decimal code `s` as its second word,
/// followed by the blank line and the payload `p`, splits into `s` and `p`.
pub proof fn law_split_round_trip(head: Seq<char>, s: u16, p: Seq<u8>)
    requires
        find(encode_utf8(head) + seq![13u8, 10u8, 13u8], blank_line()) is None,
        pieces(first_line(head), Class::Space).len() >= 2,
        pieces(first_line(head), Class::Space)[1] == dec(s as nat),
    ensures
        http_split(encode_utf8(head) + blank_line() + p) == Some((s, p)),
{
    let hb = encode_utf8(head);
    let hb3 = hb + seq![13u8, 10u8, 13u8];
    let w = hb + blank_line() + p;
    let n = hb.len() as int;
    lemma_find(hb3, blank_line());
    assert(w.subrange(n, n + 4) == blank_line());
    assert forall|j: int| 0 <= j < n implies !occurs_at(w, blank_line(), j) by {
        if occurs_at(w, blank_line(), j) {
            assert(w.subrange(j, j + 4) == hb3.subrange(j, j + 4));
            assert(occurs_at(hb3, blank_line(), j));
        }
    }
    lemma_find_from_unique(w, blank_line(), 0, n);
    assert(w.take(n) == hb);
    vstd::utf8::encode_utf8_valid_utf8(head);
    vstd::utf8::encode_utf8_decode_utf8(head);
    assert(http_head(w) == Some(head));
    if head.len() == 0 {
        assert(first_line(head) == head);
        assert(pieces(head, Class::Space) == Seq::<Seq<char>>::empty());
    }
    crate::text::lemma_parse_dec(s as nat, 65535);
    assert(w.skip(n + 4) == p);
}

/// The decoded header block of `body` and the position of its blank line.
fn head_of(body: &[u8]) -> (r: Option<(usize, Vec<char>)>)
    ensures
        r matches Some((sep, h)) ==> find(body@, blank_line()) == Some(sep as int) && sep + 4
            <= body@.len() && http_head(body@) == Some(h@),
        r is None ==> http_head(body@) is None,
{
    assert(body@.skip(0) == body@);
    let sep = match find_blank_line(body, 0) {
        Some(sep) => sep,
        None => return None,
    };
    proof {
        lemma_find(body@, blank_line());
    }
    let head = vstd::slice::slice_subrange(body, 0, sep);
    assert(head@ == body@.take(sep as int));
    match utf8_str(head) {
        Some(text) => Some((sep, chars_of(text))),
        None => None,
    }
}

/// The first line of the non-empty window `h[lo..hi]`, as the end of that
/// line, and the start of what follows it.
fn line_window(h: &Vec<char>, lo: usize, hi: usize) -> (r: (usize, usize))
    requires
        lo < hi <= h@.len(),
    ensures
        lo <= r.0 <= hi,
        lo < r.1 <= hi,
        h@.subrange(lo as int, r.0 as int) == first_line(h@.subrange(lo as int, hi as int)),
        h@.subrange(r.1 as int, hi as int) == after_first_line(h@.subrange(lo as int, hi as int)),
{
    let ghost s = h@.subrange(lo as int, hi as int);
    let nl: Vec<char> = vec!['\n'];
    assert(nl@ == seq!['\n']);
    let k = scan_until(h, lo, hi, &nl);
    proof {
        crate::text::lemma_until_bound(s, seq!['\n']);
    }
    if k < hi {
        assert(s.take((k - lo) as int) == h@.subrange(lo as int, k as int));
        assert(s.skip(k - lo + 1) == h@.subrange(k + 1, hi as int));
        assert(seq!['\n'].contains(s[k - lo]));
        assert(s[k - lo] == h@[k as int]);
        if k > lo && h[k - 1] == '\r' {
            assert(h@.subrange(lo as int, k as int).drop_last() == h@.subrange(lo as int, k - 1));
            (k - 1, k + 1)
        } else {
            (k, k + 1)
        }
    } else {
        assert(h@.subrange(hi as int, hi as int) == Seq::<char>::empty());
        (hi, hi)
    }
}

/// Splits an HTTP response into its status code and its payload.
pub fn split_http(body: &[u8]) -> (r: Option<(u16, Vec<u8>)>)
    ensures
        r matches Some((status, payload)) ==> http_split(body@) == Some((status, payload@)),
        r is None ==> http_split(body@) is None,
{
    let (sep, h) = match head_of(body) {
        Some(x) => x,
        None => return None,
    };
    if h.len() == 0 {
        return None;
    }
    let (line_end, _) = line_window(&h, 0, h.len());
    assert(h@.subrange(0, h@.len() as int) == h@);
    let words = split_pieces(&h, 0, line_end, Class::Space);
    if words.len() < 2 {
        return None;
    }
    let (a, b) = words[1];
    assert(windows(h@, words@)[1] == h@.subrange(a as int, b as int));
    match parse_unsigned_window(&h, a, b, 65535) {
        Some(status) => {
            let blen = body.len();
            assert(blen == body@.len());
            let payload = vstd::slice::slice_to_vec(
                vstd::slice::slice_subrange(body, sep + 4, blen),
            );
            assert(payload@ == body@.skip(sep + 4));
            Some((status as u16, payload))
        },
        None => None,
    }
}

/// The value of the `Content-Type` header of an HTTP response, or the empty
/// string when it has none.
pub fn http_content_type(body: &[u8]) -> (r: String)
    ensures
        r@ == http_ctype(body@),
{
    let h = match head_of(body) {
        Some((_, h)) => h,
        None => return String::new(),
    };
    assert(http_ctype(body@) == content_type_in(h@));
    let colon: Vec<char> = vec![':'];
    assert(colon@ == seq![':']);
    let key: Vec<char> = vec!['c', 'o', 'n', 't', 'e', 'n', 't', '-', 't', 'y', 'p', 'e'];
    assert(key@ == "content-type"@) by {
        reveal_strlit("content-type");
    }
    let n = h.len();
    let mut lo: usize = 0;
    assert(h@.subrange(0, n as int) == h@);
    while lo < n
        invariant
            lo <= n == h@.len(),
            colon@ == seq![':'],
            key@ == "content-type"@,
            content_type_in(h@.subrange(lo as int, n as int)) == content_type_in(h@),
            http_ctype(body@) == content_type_in(h@),
        decreases n - lo,
    {
        let ghost w = h@.subrange(lo as int, n as int);
        let (le, next) = line_window(&h, lo, n);
        let ghost line = h@.subrange(lo as int, le as int);
        match find_in(&h, lo, le, &colon) {
            Some(i) => {
                proof {
                    lemma_find(line, seq![':']);
                }
                assert(line.take(i as int) == h@.subrange(lo as int, (lo + i) as int));
                if eq_ic_window(&h, lo, lo + i, &key) {
                    let (a, b) = trim_window(&h, lo + i + 1, le, Class::Space);
                    assert(line.skip(i + 1) == h@.subrange(lo + i + 1, le as int));
                    assert(w.len() > 0);
                    assert(line == first_line(w));
                    assert(content_type_in(w) == trim(line.skip(i + 1), Class::Space));
                    return string_of(&h, a, b);
                }
            },
            None => {},
        }
        lo = next;
    }
    assert(h@.subrange(n as int, n as int) == Seq::<char>::empty());
    String::new()
}

/// The ASCII lower-cased copy of `v`.
fn lowered(v: &Vec<char>) -> (r: Vec<char>)
    ensures
        r@ == lower(v@),
{
    let mut r: Vec<char> = Vec::new();
    let mut i: usize = 0;
    while i < v.len()
        invariant
            i <= v@.len(),
            r@ == lower(v@.take(i as int)),
        decreases v@.len() - i,
    {
        r.push(lower_char_exec(v[i]));
        i = i + 1;
        assert(lower(v@.take(i as int)) == lower(v@.take(i - 1)).push(
            crate::text::lower_char(v@[i - 1]),
        ));
    }
    assert(v@.take(v@.len() as int) == v@);
    r
}

/// Whether a media type names an HTML page (`text/html` or `application/xhtml…`).
pub fn is_html_type(ctype: &str) -> (b: bool)
    ensures
        b == html_type(ctype@),
{
    let low = lowered(&chars_of(ctype));
    let html = chars_of("text/html");
    let xhtml = chars_of("application/xhtml");
    let n = low.len();
    assert(low@.subrange(0, n as int) == low@);
    find_in(&low, 0, n, &html).is_some() || find_in(&low, 0, n, &xhtml).is_some()
}

} // verus!
