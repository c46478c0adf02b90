//! WARC files: the record stream, read line by line as WARC/1.0 lays it
//! out, and the records that a static copy of the site is built from.

use std::io::Read;

use vstd::prelude::*;
use vstd::utf8::{decode_utf8, valid_utf8};

use vstd::string::StringExecFns;

use crate::http::{
    blank_line, html_type, http_content_type, http_ctype, http_split, is_html_type, split_http,
    utf8_str,
};
use crate::text::{
    chars_of, copy_window, dec, drop_trail, ends_with, eq_window, find, find_from, find_in,
    lemma_find, lemma_find_from, lemma_find_from_unique, lemma_find_none, lower, lower_ends_with,
    lower_window, occurs_at, opt_text, parse_unsigned, parse_unsigned_window, pieces, push_decimal,
    push_range, str_eq, text_of, trim, trim_end, trim_window, upper, upper_char, upper_char_exec,
    Class,
};
use crate::uri::{
    http_uri, is_http_uri, law_url_rel_within_site, origin, origin_of, site_relative, url_rel,
    url_to_rel_with,
};

verus! {

/// Largest record body accepted (guards against a hostile `Content-Length`).
pub const MAX_WARC_RECORD: usize = 536870912;

/// What is kept of a stored record: its path under the site, its payload
/// and, for an HTML page, the origin that its links are rewritten from.
pub type RecordView = (Seq<char>, Seq<u8>, Option<Seq<char>>);

/// The message of a line that is not UTF-8 (`BufRead::read_line`).
pub open spec fn utf8_error() -> Seq<char> {
    "stream did not contain valid UTF-8"@
}

/// The message of a body cut short (`Read::read_exact`).
pub open spec fn short_body_error() -> Seq<char> {
    "failed to fill whole buffer"@
}

/// `BufRead::read_line` at offset `p` of a stream made of `data` followed,
/// when `tail` holds one, by a read error: the error, the end of the
/// stream (`Ok(None)`), or the decoded line with its `\n` and the offset
/// after it.
pub open spec fn read_line(data: Seq<u8>, tail: Option<Seq<char>>, p: int) -> Result<
    Option<(Seq<char>, int)>,
    Seq<char>,
> {
    if p >= data.len() {
        match tail {
            Some(e) => Err(e),
            None => Ok(None),
        }
    } else {
        let end = match find_from(data, seq![10u8], p) {
            Some(k) => Some(k + 1),
            None => match tail {
                Some(e) => None,
                None => Some(data.len() as int),
            },
        };
        match end {
            Some(q) => {
                let bytes = data.subrange(p, q);
                if valid_utf8(bytes) {
                    Ok(Some((decode_utf8(bytes), q)))
                } else {
                    Err(utf8_error())
                }
            },
            None => Err(tail->0),
        }
    }
}

pub proof fn lemma_read_line_advances(data: Seq<u8>, tail: Option<Seq<char>>, p: int)
    requires
        0 <= p,
    ensures
        read_line(data, tail, p) matches Ok(Some((_, q))) ==> p < q <= data.len(),
{
    if p < data.len() {
        lemma_find_from(data, seq![10u8], p);
    }
}

/// The headers read from offset `p` on, appended to `hs`, up to the first
/// empty line or the end of the stream, and the offset after them.  A line
/// `name: value` adds the lower-cased, trimmed name and the trimmed value;
/// a line without `:` adds nothing.
pub open spec fn read_headers(
    data: Seq<u8>,
    tail: Option<Seq<char>>,
    p: int,
    hs: Seq<(Seq<char>, Seq<char>)>,
) -> Result<(Seq<(Seq<char>, Seq<char>)>, int), Seq<char>>
    decreases data.len() - p,
{
    if p < 0 {
        Ok((hs, p))
    } else {
        match read_line(data, tail, p) {
            Err(e) => Err(e),
            Ok(None) => Ok((hs, p)),
            Ok(Some((line, q))) => {
                let t = trim_end(line, Class::LineEnd);
                if t.len() == 0 {
                    Ok((hs, q))
                } else {
                    let next = match find(t, seq![':']) {
                        Some(i) => hs.push(
                            (
                                lower(trim(t.take(i), Class::Space)),
                                trim(t.skip(i + 1), Class::Space),
                            ),
                        ),
                        None => hs,
                    };
                    proof {
                        lemma_read_line_advances(data, tail, p);
                    }
                    read_headers(data, tail, q, next)
                }
            },
        }
    }
}

pub proof fn lemma_read_headers_advances(
    data: Seq<u8>,
    tail: Option<Seq<char>>,
    p: int,
    hs: Seq<(Seq<char>, Seq<char>)>,
)
    requires
        0 <= p <= data.len(),
    ensures
        read_headers(data, tail, p, hs) matches Ok((_, q)) ==> p <= q <= data.len(),
    decreases data.len() - p,
{
    lemma_read_line_advances(data, tail, p);
    match read_line(data, tail, p) {
        Ok(Some((line, q))) => {
            let t = trim_end(line, Class::LineEnd);
            if t.len() != 0 {
                let next = match find(t, seq![':']) {
                    Some(i) => hs.push(
                        (lower(trim(t.take(i), Class::Space)), trim(t.skip(i + 1), Class::Space)),
                    ),
                    None => hs,
                };
                lemma_read_headers_advances(data, tail, q, next);
            }
        },
        _ => {},
    }
}

/// The value of the last header named `key` (later ones replace earlier ones).
pub open spec fn header(hs: Seq<(Seq<char>, Seq<char>)>, key: Seq<char>) -> Option<Seq<char>>
    decreases hs.len(),
{
    if hs.len() == 0 {
        None
    } else if hs.last().0 == key {
        Some(hs.last().1)
    } else {
        header(hs.drop_last(), key)
    }
}

/// The headers as the map that inserting each of them in turn builds: a
/// later header replaces an earlier one of the same name.
pub open spec fn header_map(hs: Seq<(Seq<char>, Seq<char>)>) -> Map<Seq<char>, Seq<char>>
    decreases hs.len(),
{
    if hs.len() == 0 {
        Map::empty()
    } else {
        header_map(hs.drop_last()).insert(hs.last().0, hs.last().1)
    }
}

/// Law: looking a header up in the list is looking it up in the map the
/// headers build.
pub proof fn law_header_is_map_lookup(hs: Seq<(Seq<char>, Seq<char>)>, key: Seq<char>)
    ensures
        header(hs, key) == if header_map(hs).contains_key(key) {
            Some(header_map(hs)[key])
        } else {
            None
        },
    decreases hs.len(),
{
    if hs.len() > 0 {
        law_header_is_map_lookup(hs.drop_last(), key);
    }
}

/// The value of a header, or the empty string.
pub open spec fn header_or_empty(hs: Seq<(Seq<char>, Seq<char>)>, key: Seq<char>) -> Seq<char> {
    match header(hs, key) {
        Some(v) => v,
        None => Seq::empty(),
    }
}

/// The offset after the run of `\r` and `\n` bytes at `p`.
pub open spec fn crlf_end(data: Seq<u8>, p: int) -> int
    decreases data.len() - p,
{
    if 0 <= p < data.len() && (data[p] == 13 || data[p] == 10) {
        crlf_end(data, p + 1)
    } else {
        p
    }
}

pub proof fn lemma_crlf_end(data: Seq<u8>, p: int)
    requires
        0 <= p <= data.len(),
    ensures
        p <= crlf_end(data, p) <= data.len(),
    decreases data.len() - p,
{
    if p < data.len() && (data[p] == 13 || data[p] == 10) {
        lemma_crlf_end(data, p + 1);
    }
}

/// The message of a record whose body is over the limit.
pub open spec fn too_big_error(len: nat) -> Seq<char> {
    "enregistrement WARC trop gros ("@ + dec(len) + " octets, max "@ + dec(
        MAX_WARC_RECORD as nat,
    ) + ")."@
}

/// The payload kept of a record and whether it is an HTML page: the whole
/// body of a `resource`, the payload of a `response` with a 2xx status.
pub open spec fn record_payload(hs: Seq<(Seq<char>, Seq<char>)>, body: Seq<u8>) -> Option<
    (Seq<u8>, bool),
> {
    if header_or_empty(hs, "warc-type"@) == "resource"@ {
        Some((body, html_type(header_or_empty(hs, "content-type"@))))
    } else {
        match http_split(body) {
            Some((status, payload)) => if 200 <= status < 300 {
                Some((payload, html_type(http_ctype(body))))
            } else {
                None
            },
            None => None,
        }
    }
}

/// What a record with headers `hs` and body `body` stores: nothing for
/// other record types, targets without an `http(s)` URI or failed
/// responses; else its path, payload and, for HTML, origin.  A refused
/// URI is an error.
pub open spec fn record_of(hs: Seq<(Seq<char>, Seq<char>)>, body: Seq<u8>) -> Result<
    Option<RecordView>,
    Seq<char>,
> {
    let wt = header_or_empty(hs, "warc-type"@);
    if wt != "response"@ && wt != "resource"@ {
        Ok(None)
    } else {
        match header(hs, "warc-target-uri"@) {
            None => Ok(None),
            Some(uri) => if !http_uri(uri) {
                Ok(None)
            } else {
                match record_payload(hs, body) {
                    None => Ok(None),
                    Some((payload, as_html)) => match url_rel(uri, as_html) {
                        Err(e) => Err(e),
                        Ok(rel) => Ok(
                            Some(
                                (
                                    rel,
                                    payload,
                                    if as_html {
                                        origin(uri)
                                    } else {
                                        None
                                    },
                                ),
                            ),
                        ),
                    },
                }
            }
        }
    }
}

/// Law: of a `response` record, only a 2xx response is stored.  A
/// response whose status is below 200 or at least 300 (a redirect, an
/// error), or that is no HTTP response at all, stores nothing.
pub proof fn law_only_2xx_responses_stored(hs: Seq<(Seq<char>, Seq<char>)>, body: Seq<u8>)
    requires
        header_or_empty(hs, "warc-type"@) == "response"@,
    ensures
        http_split(body) matches Some((s, _)) && (s < 200 || s >= 300) ==> record_of(hs, body)
            == Ok::<Option<RecordView>, Seq<char>>(None),
        http_split(body) is None ==> record_of(hs, body) == Ok::<Option<RecordView>, Seq<char>>(
            None,
        ),
{
    reveal_strlit("response");
    reveal_strlit("resource");
    assert("response"@ != "resource"@) by {
        assert("response"@[3] != "resource"@[3]);
    }
}

/// Law: a `response` record with a 2xx status and an `http(s)` target URI
/// stores the HTTP payload (what follows the blank line) at the path of
/// its URI, with the URI's origin when it is an HTML page; or it refuses
/// that URI.
pub proof fn law_2xx_response_stored(
    hs: Seq<(Seq<char>, Seq<char>)>,
    body: Seq<u8>,
    uri: Seq<char>,
)
    requires
        header_or_empty(hs, "warc-type"@) == "response"@,
        header(hs, "warc-target-uri"@) == Some(uri),
        http_uri(uri),
        http_split(body) matches Some((s, _)) && 200 <= s < 300,
    ensures
        record_of(hs, body) == match url_rel(uri, html_type(http_ctype(body))) {
            Ok(rel) => Ok::<Option<RecordView>, Seq<char>>(
                Some(
                    (
                        rel,
                        (http_split(body)->0).1,
                        if html_type(http_ctype(body)) {
                            origin(uri)
                        } else {
                            None
                        },
                    ),
                ),
            ),
            Err(e) => Err(e),
        },
{
    reveal_strlit("response");
    reveal_strlit("resource");
    assert("response"@ != "resource"@) by {
        assert("response"@[3] != "resource"@[3]);
    }
}

/// Law: only `response` and `resource` records with an `http(s)` target
/// URI store anything; a `resource` stores its whole body at the path of
/// its URI, as an HTML page when its `Content-Type` names one, or refuses
/// that URI.
pub proof fn law_stored_record_kinds(hs: Seq<(Seq<char>, Seq<char>)>, body: Seq<u8>)
    ensures
        header_or_empty(hs, "warc-type"@) != "response"@ && header_or_empty(hs, "warc-type"@)
            != "resource"@ ==> record_of(hs, body) == Ok::<Option<RecordView>, Seq<char>>(None),
        header(hs, "warc-target-uri"@) is None ==> record_of(hs, body) == Ok::<
            Option<RecordView>,
            Seq<char>,
        >(None),
        header(hs, "warc-target-uri"@) matches Some(uri) && !http_uri(uri) ==> record_of(hs, body)
            == Ok::<Option<RecordView>, Seq<char>>(None),
        header_or_empty(hs, "warc-type"@) == "resource"@ && (header(hs, "warc-target-uri"@) matches Some(
            uri,
        ) && http_uri(uri)) ==> record_of(hs, body) == match url_rel(
            header(hs, "warc-target-uri"@)->0,
            html_type(header_or_empty(hs, "content-type"@)),
        ) {
            Ok(rel) => Ok::<Option<RecordView>, Seq<char>>(
                Some(
                    (
                        rel,
                        body,
                        if html_type(header_or_empty(hs, "content-type"@)) {
                            origin(header(hs, "warc-target-uri"@)->0)
                        } else {
                            None
                        },
                    ),
                ),
            ),
            Err(e) => Err(e),
        },
{
}

/// The rest of a record once its headers `hs` are read up to offset `q`:
/// its body length and body, the line ends after it, and what it stores.
pub open spec fn record_rest(
    data: Seq<u8>,
    tail: Option<Seq<char>>,
    hs: Seq<(Seq<char>, Seq<char>)>,
    q: int,
) -> Result<Option<(Option<RecordView>, int)>, Seq<char>> {
    match header(hs, "content-length"@) {
        None => Err("WARC sans Content-Length"@),
        Some(cl) => match parse_unsigned(cl, usize::MAX as nat) {
            None => Err("Content-Length WARC invalide"@),
            Some(len) => if len > MAX_WARC_RECORD {
                Err(too_big_error(len))
            } else if q + len > data.len() {
                Err(
                    "corps WARC: "@ + match tail {
                        Some(e) => e,
                        None => short_body_error(),
                    },
                )
            } else {
                let r = crlf_end(data, q + len);
                if r == data.len() && tail is Some {
                    Err(tail->0)
                } else {
                    match record_of(hs, data.subrange(q, q + len)) {
                        Err(e) => Err(e),
                        Ok(rec) => Ok(Some((rec, r))),
                    }
                }
            },
        },
    }
}

/// One turn of the reading loop at offset `p`: the end of the stream
/// (`Ok(None)`), an error, or what the record stores and where the next
/// one starts.  A blank line is skipped; a line that does not start with
/// `WARC/` (in any case) is an error.
pub open spec fn record_step(data: Seq<u8>, tail: Option<Seq<char>>, p: int) -> Result<
    Option<(Option<RecordView>, int)>,
    Seq<char>,
> {
    match read_line(data, tail, p) {
        Err(e) => Err(e),
        Ok(None) => Ok(None),
        Ok(Some((version, p1))) => if trim(version, Class::Space).len() == 0 {
            Ok(Some((None, p1)))
        } else if !(version.len() >= 5 && upper(version.take(5)) == "WARC/"@) {
            Err("en-tête WARC inattendu: "@ + trim(version, Class::Space))
        } else {
            match read_headers(data, tail, p1, Seq::empty()) {
                Err(e) => Err(e),
                Ok((hs, q)) => record_rest(data, tail, hs, q),
            }
        },
    }
}

pub proof fn lemma_record_step_advances(data: Seq<u8>, tail: Option<Seq<char>>, p: int)
    requires
        0 <= p <= data.len(),
    ensures
        record_step(data, tail, p) matches Ok(Some((_, next))) ==> p < next <= data.len(),
{
    lemma_read_line_advances(data, tail, p);
    match read_line(data, tail, p) {
        Ok(Some((version, p1))) => {
            lemma_read_headers_advances(data, tail, p1, Seq::empty());
            match read_headers(data, tail, p1, Seq::empty()) {
                Ok((hs, q)) => {
                    match header(hs, "content-length"@) {
                        Some(cl) => match parse_unsigned(cl, usize::MAX as nat) {
                            Some(len) => if q + len <= data.len() {
                                lemma_crlf_end(data, q + len);
                            },
                            None => {},
                        },
                        None => {},
                    }
                },
                _ => {},
            }
        },
        _ => {},
    }
}

/// The records that a stream made of `data` followed, when `tail` holds
/// one, by a read error stores, in order, and the error that stopped the
/// reading, if any: each step reads the stream from where the previous one
/// left it.
pub open spec fn scan(data: Seq<u8>, tail: Option<Seq<char>>) -> (
    Seq<RecordView>,
    Option<Seq<char>>,
)
    decreases data.len(),
{
    match record_step(data, tail, 0) {
        Err(e) => (Seq::empty(), Some(e)),
        Ok(None) => (Seq::empty(), None),
        Ok(Some((rec, next))) => {
            proof {
                lemma_record_step_advances(data, tail, 0);
            }
            let rest = scan(data.skip(next), tail);
            match rec {
                Some(r) => (seq![r] + rest.0, rest.1),
                None => rest,
            }
        },
    }
}


/// The view of a line read.
pub open spec fn line_view(r: Result<Option<(Vec<char>, usize)>, String>) -> Result<
    Option<(Seq<char>, int)>,
    Seq<char>,
> {
    match r {
        Err(e) => Err(e@),
        Ok(None) => Ok(None),
        Ok(Some((l, q))) => Ok(Some((l@, q as int))),
    }
}

/// Reads one line at offset `p` (see `read_line`).
fn read_line_at(data: &[u8], tail: &Option<String>, p: usize) -> (r: Result<
    Option<(Vec<char>, usize)>,
    String,
>)
    requires
        p <= data@.len(),
    ensures
        line_view(r) == read_line(data@, opt_text(*tail), p as int),
{
    let n = data.len();
    if p >= n {
        return match tail {
            Some(e) => Err(e.clone()),
            None => Ok(None),
        };
    }
    let mut k = p;
    while k < n && data[k] != 10
        invariant
            p <= k <= n == data@.len(),
            forall|j: int| p <= j < k ==> data@[j] != 10u8,
        decreases n - k,
    {
        k = k + 1;
    }
    proof {
        assert forall|j: int| p <= j < k implies !occurs_at(data@, seq![10u8], j) by {
            if occurs_at(data@, seq![10u8], j) {
                assert(data@.subrange(j, j + 1)[0] == data@[j]);
            }
        }
        if k < n {
            assert(data@.subrange(k as int, k + 1) == seq![10u8]);
            lemma_find_from_unique(data@, seq![10u8], p as int, k as int);
        } else {
            lemma_find_none(data@, seq![10u8], p as int);
        }
    }
    let q = if k < n {
        k + 1
    } else {
        match tail {
            Some(e) => {
                return Err(e.clone());
            },
            None => n,
        }
    };
    let bytes = vstd::slice::slice_subrange(data, p, q);
    match utf8_str(bytes) {
        Some(text) => Ok(Some((chars_of(text), q))),
        None => Err(String::from_str("stream did not contain valid UTF-8")),
    }
}


/// The view of header pairs.
pub open spec fn pairs_view(hs: Seq<(Vec<char>, Vec<char>)>) -> Seq<(Seq<char>, Seq<char>)> {
    hs.map_values(|h: (Vec<char>, Vec<char>)| (h.0@, h.1@))
}

/// Reads the header block at offset `p` (see `read_headers`).
fn read_headers_at(data: &[u8], tail: &Option<String>, p: usize) -> (r: Result<
    (Vec<(Vec<char>, Vec<char>)>, usize),
    String,
>)
    requires
        p <= data@.len(),
    ensures
        match r {
            Ok((hs, q)) => read_headers(data@, opt_text(*tail), p as int, Seq::empty()) == Ok::<
                (Seq<(Seq<char>, Seq<char>)>, int),
                Seq<char>,
            >((pairs_view(hs@), q as int)) && q <= data@.len(),
            Err(e) => read_headers(data@, opt_text(*tail), p as int, Seq::empty()) == Err::<
                (Seq<(Seq<char>, Seq<char>)>, int),
                Seq<char>,
            >(e@),
        },
{
    let ghost goal = read_headers(data@, opt_text(*tail), p as int, Seq::empty());
    let mut hs: Vec<(Vec<char>, Vec<char>)> = Vec::new();
    let mut pos = p;
    assert(pairs_view(hs@) == Seq::<(Seq<char>, Seq<char>)>::empty());
    let colon: Vec<char> = vec![':'];
    assert(colon@ == seq![':']);
    loop
        invariant
            pos <= data@.len(),
            colon@ == seq![':'],
            goal == read_headers(data@, opt_text(*tail), pos as int, pairs_view(hs@)),
            goal == read_headers(data@, opt_text(*tail), p as int, Seq::empty()),
        decreases data@.len() - pos,
    {
        proof {
            lemma_read_line_advances(data@, opt_text(*tail), pos as int);
        }
        match read_line_at(data, tail, pos) {
            Err(e) => {
                return Err(e);
            },
            Ok(None) => {
                return Ok((hs, pos));
            },
            Ok(Some((line, q))) => {
                let n = line.len();
                let te = drop_trail(&line, 0, n, Class::LineEnd);
                let ghost t = line@.subrange(0, te as int);
                assert(line@.subrange(0, n as int) == line@);
                if te == 0 {
                    return Ok((hs, q));
                }
                match find_in(&line, 0, te, &colon) {
                    Some(i) => {
                        proof {
                            lemma_find(t, seq![':']);
                        }
                        let (ka, kb) = trim_window(&line, 0, i, Class::Space);
                        let (va, vb) = trim_window(&line, i + 1, te, Class::Space);
                        assert(t.take(i as int) == line@.subrange(0, i as int));
                        assert(t.skip(i + 1) == line@.subrange(i + 1, te as int));
                        let key = lower_window(&line, ka, kb);
                        let value = copy_window(&line, va, vb);
                        let ghost before = pairs_view(hs@);
                        hs.push((key, value));
                        assert(pairs_view(hs@) == before.push((key@, value@)));
                    },
                    None => {},
                }
                pos = q;
            },
        }
    }
}


/// The position of the last header named `key`.
fn header_at(hs: &Vec<(Vec<char>, Vec<char>)>, key: &Vec<char>) -> (r: Option<usize>)
    ensures
        r matches Some(i) ==> i < hs@.len() && header(pairs_view(hs@), key@) == Some(hs@[i as int].1@),
        r is None ==> header(pairs_view(hs@), key@) is None,
{
    let ghost pv = pairs_view(hs@);
    let mut i = hs.len();
    assert(pv.take(i as int) == pv);
    while i > 0
        invariant
            i <= hs@.len(),
            pv == pairs_view(hs@),
            header(pv, key@) == header(pv.take(i as int), key@),
        decreases i,
    {
        let ghost t = pv.take(i as int);
        assert(t.last() == (hs@[i - 1].0@, hs@[i - 1].1@));
        assert(t.drop_last() == pv.take(i - 1));
        let n = hs[i - 1].0.len();
        if eq_window(&hs[i - 1].0, 0, n, key) {
            assert(hs@[i - 1].0@.subrange(0, n as int) == hs@[i - 1].0@);
            return Some(i - 1);
        }
        assert(hs@[i - 1].0@.subrange(0, n as int) == hs@[i - 1].0@);
        i = i - 1;
    }
    None
}

/// Whether the header `key` has exactly the value `want` (a missing header
/// counting as the empty string).
fn header_is(hs: &Vec<(Vec<char>, Vec<char>)>, key: &Vec<char>, want: &Vec<char>) -> (b: bool)
    ensures
        b == (header_or_empty(pairs_view(hs@), key@) == want@),
{
    match header_at(hs, key) {
        Some(i) => {
            let n = hs[i].1.len();
            assert(hs@[i as int].1@.subrange(0, n as int) == hs@[i as int].1@);
            eq_window(&hs[i].1, 0, n, want)
        },
        None => {
            assert(want@.len() == 0 ==> want@ == Seq::<char>::empty());
            want.len() == 0
        },
    }
}

/// The value of the header `key` as a string, or the empty string.
fn header_text(hs: &Vec<(Vec<char>, Vec<char>)>, key: &Vec<char>) -> (s: String)
    ensures
        s@ == header_or_empty(pairs_view(hs@), key@),
{
    match header_at(hs, key) {
        Some(i) => text_of(&hs[i].1),
        None => String::new(),
    }
}

/// A stored record: its path under the site, its payload and, for an HTML
/// page, its origin.
#[derive(Debug)]
pub struct WarcRecord {
    pub rel: String,
    pub payload: Vec<u8>,
    pub origin: Option<String>,
}

impl View for WarcRecord {
    type V = RecordView;

    open spec fn view(&self) -> RecordView {
        (self.rel@, self.payload@, opt_text(self.origin))
    }
}

/// The view of an optional record.
pub open spec fn opt_record(r: Option<WarcRecord>) -> Option<RecordView> {
    match r {
        Some(x) => Some(x@),
        None => None,
    }
}

/// What a record stores (see `record_of`).
fn record_of_exec(hs: &Vec<(Vec<char>, Vec<char>)>, body: &[u8]) -> (r: Result<
    Option<WarcRecord>,
    String,
>)
    ensures
        match r {
            Ok(x) => record_of(pairs_view(hs@), body@) == Ok::<Option<RecordView>, Seq<char>>(
                opt_record(x),
            ),
            Err(e) => record_of(pairs_view(hs@), body@) == Err::<Option<RecordView>, Seq<char>>(
                e@,
            ),
        },
{
    let ghost pv = pairs_view(hs@);
    let wt_key = chars_of("warc-type");
    let is_response = header_is(hs, &wt_key, &chars_of("response"));
    let is_resource = header_is(hs, &wt_key, &chars_of("resource"));
    if !is_response && !is_resource {
        return Ok(None);
    }
    let uri = match header_at(hs, &chars_of("warc-target-uri")) {
        Some(i) => text_of(&hs[i].1),
        None => return Ok(None),
    };
    if !is_http_uri(uri.as_str()) {
        return Ok(None);
    }
    let (payload, as_html) = if is_resource {
        let ct = header_text(hs, &chars_of("content-type"));
        (vstd::slice::slice_to_vec(body), is_html_type(ct.as_str()))
    } else {
        match split_http(body) {
            Some((status, payload)) => {
                if 200 <= status && status < 300 {
                    let ct = http_content_type(body);
                    (payload, is_html_type(ct.as_str()))
                } else {
                    return Ok(None);
                }
            },
            None => return Ok(None),
        }
    };
    assert(record_payload(pv, body@) == Some((payload@, as_html)));
    match url_to_rel_with(uri.as_str(), as_html) {
        Err(e) => Err(e),
        Ok(rel) => {
            let origin = if as_html {
                origin_of(uri.as_str())
            } else {
                None
            };
            Ok(Some(WarcRecord { rel, payload, origin }))
        },
    }
}


/// The view of one turn of the reading loop.
pub open spec fn step_view(r: Result<Option<(Option<WarcRecord>, usize)>, String>) -> Result<
    Option<(Option<RecordView>, int)>,
    Seq<char>,
> {
    match r {
        Err(e) => Err(e@),
        Ok(None) => Ok(None),
        Ok(Some((rec, next))) => Ok(Some((opt_record(rec), next as int))),
    }
}

/// The message of a record whose body is over the limit.
fn too_big_message(len: u64) -> (s: String)
    ensures
        s@ == too_big_error(len as nat),
{
    let mut s = String::from_str("enregistrement WARC trop gros (");
    push_decimal(&mut s, len);
    s.append(" octets, max ");
    push_decimal(&mut s, 536870912);
    s.append(").");
    s
}

/// The rest of a record once its headers are read (see `record_rest`).
fn record_rest_at(
    data: &[u8],
    tail: &Option<String>,
    hs: &Vec<(Vec<char>, Vec<char>)>,
    q: usize,
) -> (r: Result<Option<(Option<WarcRecord>, usize)>, String>)
    requires
        q <= data@.len(),
    ensures
        step_view(r) == record_rest(data@, opt_text(*tail), pairs_view(hs@), q as int),
        r matches Ok(Some((_, next))) ==> next <= data@.len(),
{
    let cl = match header_at(hs, &chars_of("content-length")) {
        Some(i) => i,
        None => return Err(String::from_str("WARC sans Content-Length")),
    };
    let v = &hs[cl].1;
    assert(v@.subrange(0, v@.len() as int) == v@);
    let len = match parse_unsigned_window(v, 0, v.len(), usize::MAX as u64) {
        Some(len) => len,
        None => return Err(String::from_str("Content-Length WARC invalide")),
    };
    if len > 536870912 {
        return Err(too_big_message(len));
    }
    let len = len as usize;
    let n = data.len();
    if len > n - q {
        let mut e = String::from_str("corps WARC: ");
        match tail {
            Some(t) => e.append(t.as_str()),
            None => e.append("failed to fill whole buffer"),
        }
        return Err(e);
    }
    let end = q + len;
    let mut r = end;
    while r < n && (data[r] == 13 || data[r] == 10)
        invariant
            end <= r <= n == data@.len(),
            crlf_end(data@, end as int) == crlf_end(data@, r as int),
        decreases n - r,
    {
        r = r + 1;
    }
    if r == n {
        match tail {
            Some(t) => {
                return Err(t.clone());
            },
            None => {},
        }
    }
    let body = vstd::slice::slice_subrange(data, q, end);
    match record_of_exec(hs, body) {
        Err(e) => Err(e),
        Ok(rec) => Ok(Some((rec, r))),
    }
}

/// One turn of the reading loop at offset `p` (see `record_step`).
fn record_step_at(data: &[u8], tail: &Option<String>, p: usize) -> (r: Result<
    Option<(Option<WarcRecord>, usize)>,
    String,
>)
    requires
        p <= data@.len(),
    ensures
        step_view(r) == record_step(data@, opt_text(*tail), p as int),
        r matches Ok(Some((_, next))) ==> next <= data@.len(),
{
    proof {
        lemma_read_line_advances(data@, opt_text(*tail), p as int);
    }
    let (version, p1) = match read_line_at(data, tail, p) {
        Err(e) => return Err(e),
        Ok(None) => return Ok(None),
        Ok(Some(x)) => x,
    };
    let n = version.len();
    assert(version@.subrange(0, n as int) == version@);
    let (a, b) = trim_window(&version, 0, n, Class::Space);
    if a == b {
        return Ok(Some((None, p1)));
    }
    let warc: Vec<char> = vec!['W', 'A', 'R', 'C', '/'];
    assert(warc@ == "WARC/"@) by {
        reveal_strlit("WARC/");
    }
    let mut ok = n >= 5;
    if ok {
        let mut i: usize = 0;
        while i < 5
            invariant
                i <= 5 <= version@.len(),
                warc@ == "WARC/"@,
                warc@.len() == 5,
                ok == forall|j: int| 0 <= j < i ==> upper_char(version@[j]) == warc@[j],
            decreases 5 - i,
        {
            ok = ok && upper_char_exec(version[i]) == warc[i];
            i = i + 1;
        }
        assert(ok == (upper(version@.take(5)) == "WARC/"@)) by {
            if ok {
                assert(upper(version@.take(5)) =~= warc@);
            } else {
                let j = choose|j: int| 0 <= j < 5 && upper_char(version@[j]) != warc@[j];
                assert(upper(version@.take(5))[j] != warc@[j]);
            }
        }
    }
    if !ok {
        let mut e = String::from_str("en-tête WARC inattendu: ");
        push_range(&mut e, &version, a, b);
        return Err(e);
    }
    match read_headers_at(data, tail, p1) {
        Err(e) => Err(e),
        Ok((hs, q)) => record_rest_at(data, tail, &hs, q),
    }
}

/// What a WARC stream stores: the records kept, in order, and the error
/// that stopped the reading, if any (records before it are kept).
#[derive(Debug)]
pub struct WarcScan {
    pub records: Vec<WarcRecord>,
    pub error: Option<String>,
}

/// The views of records.
pub open spec fn records_view(rs: Seq<WarcRecord>) -> Seq<RecordView> {
    rs.map_values(|r: WarcRecord| r@)
}

/// Reads the WARC records of a stream made of `data` followed, when `tail`
/// holds one, by a read error, and returns what they store.  Reading stops
/// at the first error: a line that is not a record header, a missing,
/// malformed or oversized `Content-Length`, a short body, a line that is
/// not UTF-8, a refused URI, or the error at the end of the data.
pub fn read_records(data: &[u8], tail: &Option<String>) -> (r: WarcScan)
    ensures
        (records_view(r.records@), opt_text(r.error)) == scan(data@, opt_text(*tail)),
{
    let ghost goal = scan(data@, opt_text(*tail));
    let n = data.len();
    let mut records: Vec<WarcRecord> = Vec::new();
    let mut p: usize = 0;
    assert(records_view(records@) == Seq::<RecordView>::empty());
    assert(data@.skip(0) == data@);
    loop
        invariant
            p <= n == data@.len(),
            goal == scan(data@, opt_text(*tail)),
            goal == (
                records_view(records@) + scan(data@.skip(p as int), opt_text(*tail)).0,
                scan(data@.skip(p as int), opt_text(*tail)).1,
            ),
        decreases n - p,
    {
        let rest = vstd::slice::slice_subrange(data, p, n);
        assert(rest@ == data@.skip(p as int));
        proof {
            lemma_record_step_advances(rest@, opt_text(*tail), 0);
        }
        let ghost before = records_view(records@);
        match record_step_at(rest, tail, 0) {
            Err(e) => {
                assert(before + Seq::<RecordView>::empty() == before);
                return WarcScan { records, error: Some(e) };
            },
            Ok(None) => {
                assert(before + Seq::<RecordView>::empty() == before);
                return WarcScan { records, error: None };
            },
            Ok(Some((rec, next))) => {
                assert(rest@.skip(next as int) == data@.skip(p + next));
                let ghost after = scan(rest@.skip(next as int), opt_text(*tail));
                match rec {
                    Some(x) => {
                        records.push(x);
                        assert(records_view(records@) == before.push(x@));
                        assert(before + (seq![x@] + after.0) == before.push(x@) + after.0);
                    },
                    None => {},
                }
                p = p + next;
            },
        }
    }
}


/// The read error that a step is probed with: when the step's result is
/// this error (or a short body with it), the step looked past its data.
pub open spec fn probe_error() -> Seq<char> {
    Seq::empty()
}

/// A step whose outcome on the bytes read so far is settled: it looked at
/// nothing past them (not even for more line ends after a record), so no
/// byte that follows can change it.
pub open spec fn step_settled(data: Seq<u8>) -> bool {
    let r = record_step(data, Some(probe_error()), 0);
    &&& r != Err::<Option<(Option<RecordView>, int)>, Seq<char>>(probe_error())
    &&& r != Err::<Option<(Option<RecordView>, int)>, Seq<char>>("corps WARC: "@)
}

proof fn lemma_find_from_extend(d: Seq<u8>, m: Seq<u8>, pat: Seq<u8>, p: int)
    requires
        0 <= p,
        find_from(d, pat, p) is Some,
    ensures
        find_from(d + m, pat, p) == find_from(d, pat, p),
{
    lemma_find_from(d, pat, p);
    let k = find_from(d, pat, p)->0;
    let e = d + m;
    assert(e.subrange(k, k + pat.len()) == d.subrange(k, k + pat.len()));
    assert forall|j: int| p <= j < k implies !occurs_at(e, pat, j) by {
        if occurs_at(e, pat, j) {
            assert(e.subrange(j, j + pat.len()) == d.subrange(j, j + pat.len()));
            assert(occurs_at(d, pat, j));
        }
    }
    lemma_find_from_unique(e, pat, p, k);
}

proof fn lemma_line_extend(d: Seq<u8>, m: Seq<u8>, t: Option<Seq<char>>, p: int)
    requires
        0 <= p,
        read_line(d, Some(probe_error()), p) != Err::<Option<(Seq<char>, int)>, Seq<char>>(
            probe_error(),
        ),
    ensures
        read_line(d + m, t, p) == read_line(d, Some(probe_error()), p),
{
    if p < d.len() {
        match find_from(d, seq![10u8], p) {
            Some(k) => {
                lemma_find_from(d, seq![10u8], p);
                lemma_find_from_extend(d, m, seq![10u8], p);
                assert((d + m).subrange(p, k + 1) == d.subrange(p, k + 1));
            },
            None => {},
        }
    }
}

proof fn lemma_headers_extend(
    d: Seq<u8>,
    m: Seq<u8>,
    t: Option<Seq<char>>,
    p: int,
    hs: Seq<(Seq<char>, Seq<char>)>,
)
    requires
        0 <= p <= d.len(),
        read_headers(d, Some(probe_error()), p, hs) != Err::<
            (Seq<(Seq<char>, Seq<char>)>, int),
            Seq<char>,
        >(probe_error()),
    ensures
        read_headers(d + m, t, p, hs) == read_headers(d, Some(probe_error()), p, hs),
    decreases d.len() - p,
{
    let mk = Some(probe_error());
    if read_line(d, mk, p) != Err::<Option<(Seq<char>, int)>, Seq<char>>(probe_error()) {
        lemma_line_extend(d, m, t, p);
        lemma_read_line_advances(d, mk, p);
        match read_line(d, mk, p) {
            Ok(Some((line, q))) => {
                let tl = trim_end(line, Class::LineEnd);
                if tl.len() != 0 {
                    let next = match find(tl, seq![':']) {
                        Some(i) => hs.push(
                            (lower(trim(tl.take(i), Class::Space)), trim(tl.skip(i + 1), Class::Space)),
                        ),
                        None => hs,
                    };
                    lemma_headers_extend(d, m, t, q, next);
                }
            },
            _ => {},
        }
    }
}

proof fn lemma_crlf_extend(d: Seq<u8>, m: Seq<u8>, x: int)
    requires
        0 <= x <= d.len(),
        crlf_end(d, x) < d.len(),
    ensures
        crlf_end(d + m, x) == crlf_end(d, x),
    decreases d.len() - x,
{
    assert((d + m)[x] == d[x]);
    if d[x] == 13 || d[x] == 10 {
        lemma_crlf_extend(d, m, x + 1);
    }
}

proof fn lemma_rest_extend(
    d: Seq<u8>,
    m: Seq<u8>,
    t: Option<Seq<char>>,
    hs: Seq<(Seq<char>, Seq<char>)>,
    q: int,
)
    requires
        0 <= q <= d.len(),
        record_rest(d, Some(probe_error()), hs, q) != Err::<
            Option<(Option<RecordView>, int)>,
            Seq<char>,
        >(probe_error()),
        record_rest(d, Some(probe_error()), hs, q) != Err::<
            Option<(Option<RecordView>, int)>,
            Seq<char>,
        >("corps WARC: "@),
    ensures
        record_rest(d + m, t, hs, q) == record_rest(d, Some(probe_error()), hs, q),
{
    assert("corps WARC: "@ + probe_error() == "corps WARC: "@);
    match header(hs, "content-length"@) {
        Some(cl) => match parse_unsigned(cl, usize::MAX as nat) {
            Some(len) => if len <= MAX_WARC_RECORD && q + len <= d.len() {
                lemma_crlf_end(d, q + len);
                if crlf_end(d, q + len) < d.len() {
                    lemma_crlf_extend(d, m, q + len);
                    assert((d + m).subrange(q, q + len) == d.subrange(q, q + len));
                }
            },
            None => {},
        },
        None => {},
    }
}

/// A settled step on `data` is the step on every stream that starts with
/// `data`, whatever its read error.
proof fn lemma_step_extend(data: Seq<u8>, m: Seq<u8>, t: Option<Seq<char>>)
    requires
        step_settled(data),
    ensures
        record_step(data + m, t, 0) == record_step(data, Some(probe_error()), 0),
{
    let mk = Some(probe_error());
    if read_line(data, mk, 0) != Err::<Option<(Seq<char>, int)>, Seq<char>>(probe_error()) {
        lemma_line_extend(data, m, t, 0);
        lemma_read_line_advances(data, mk, 0);
        match read_line(data, mk, 0) {
            Ok(Some((version, p1))) => {
                if trim(version, Class::Space).len() != 0 && version.len() >= 5 && upper(
                    version.take(5),
                ) == "WARC/"@ && read_headers(data, mk, p1, Seq::empty()) != Err::<
                    (Seq<(Seq<char>, Seq<char>)>, int),
                    Seq<char>,
                >(probe_error()) {
                    lemma_read_headers_advances(data, mk, p1, Seq::empty());
                    lemma_headers_extend(data, m, t, p1, Seq::empty());
                    match read_headers(data, mk, p1, Seq::empty()) {
                        Ok((hs, q)) => {
                            lemma_rest_extend(data, m, t, hs, q);
                        },
                        _ => {},
                    }
                }
            },
            _ => {},
        }
    }
}

/// Law: a settled step decides the stream's first record.  Whatever bytes
/// and read error follow `data`, the stream's first step is the settled
/// one, and what the stream stores is that step's record followed by what
/// the rest stores, read from where the step left off.
pub proof fn law_settled_step(data: Seq<u8>, more: Seq<u8>, tail: Option<Seq<char>>)
    requires
        step_settled(data),
    ensures
        record_step(data + more, tail, 0) == record_step(data, Some(probe_error()), 0),
        scan(data + more, tail) == match record_step(data, Some(probe_error()), 0) {
            Err(e) => (Seq::<RecordView>::empty(), Some(e)),
            Ok(None) => (Seq::<RecordView>::empty(), None),
            Ok(Some((rec, next))) => {
                let rest = scan(data.skip(next) + more, tail);
                match rec {
                    Some(r) => (seq![r] + rest.0, rest.1),
                    None => rest,
                }
            },
        },
{
    lemma_step_extend(data, more, tail);
    lemma_record_step_advances(data, Some(probe_error()), 0);
    match record_step(data, Some(probe_error()), 0) {
        Ok(Some((rec, next))) => {
            assert((data + more).skip(next) == data.skip(next) + more);
        },
        _ => {},
    }
}

/// One step of reading a stream whose bytes arrive in pieces: `buf` holds
/// the bytes not yet consumed; `at_end` tells that the stream has ended
/// (with the read error `tail`, if any).  At the end the step is taken on
/// what is left; before it, the step is returned only once it is settled
/// (else `None`: more bytes are needed), and it is then the step of the
/// stream whatever follows.  A record over the size limit is refused as
/// soon as its headers are in `buf`, without waiting for its body.
pub fn next_record(buf: &[u8], at_end: bool, tail: &Option<String>) -> (r: Option<
    Result<Option<(Option<WarcRecord>, usize)>, String>,
>)
    ensures
        at_end ==> (r matches Some(s) && step_view(s) == record_step(buf@, opt_text(*tail), 0)),
        !at_end ==> (r is Some <==> step_settled(buf@)),
        !at_end ==> (r matches Some(s) ==> step_view(s) == record_step(
            buf@,
            Some(probe_error()),
            0,
        ) && forall|more: Seq<u8>, t: Option<Seq<char>>|
            #[trigger] record_step(buf@ + more, t, 0) == step_view(s)),
        r matches Some(Ok(Some((_, next)))) ==> 0 < next <= buf@.len(),
{
    proof {
        lemma_record_step_advances(buf@, opt_text(*tail), 0);
        lemma_record_step_advances(buf@, Some(probe_error()), 0);
    }
    if at_end {
        return Some(record_step_at(buf, tail, 0));
    }
    let probe: Option<String> = Some(String::new());
    assert(opt_text(probe) == Some(probe_error()));
    let s = record_step_at(buf, &probe, 0);
    let ghost sv = step_view(s);
    assert(sv == record_step(buf@, Some(probe_error()), 0));
    proof {
        reveal_strlit("");
        assert(""@ == probe_error());
    }
    let settled = match &s {
        Err(e) => {
            let empty = str_eq(e.as_str(), "");
            let short = str_eq(e.as_str(), "corps WARC: ");
            assert(sv == Err::<Option<(Option<RecordView>, int)>, Seq<char>>(e@));
            !(empty || short)
        },
        Ok(_) => true,
    };
    assert(settled == step_settled(buf@));
    if !settled {
        return None;
    }
    proof {
        assert forall|more: Seq<u8>, t: Option<Seq<char>>|
            #[trigger] record_step(buf@ + more, t, 0) == step_view(s) by {
            lemma_step_extend(buf@, more, t);
        }
    }
    Some(s)
}

/// What `flate2` decodes from a (multi-member) gzip stream: the bytes read
/// before the first error, and that error's message.
pub uninterp spec fn gunzip_stream(data: Seq<u8>) -> (Seq<u8>, Option<Seq<char>>);

/// `flate2::read::MultiGzDecoder` over `data`, read with
/// `Read::read_to_end`: the decoded bytes (all of them, or those before the
/// first error) and the error's message, if one stopped the reading.  How
/// gzip decodes is not restated: the result is named `gunzip_stream`.
#[verifier::external_body]
fn gunzip(data: &[u8]) -> (r: (Vec<u8>, Option<String>))
    ensures
        (r.0@, opt_text(r.1)) == gunzip_stream(data@),
{
    let mut out = Vec::new();
    let err = flate2::read::MultiGzDecoder::new(data).read_to_end(&mut out).err();
    (out, err.map(|e| e.to_string()))
}

/// A gzipped file name (`.gz`, any ASCII case).
pub open spec fn gz_name(name: Seq<char>) -> bool {
    ends_with(lower(name), ".gz"@)
}

/// Whether a WARC file named `name` is gzipped.
pub fn is_gz_name(name: &str) -> (b: bool)
    ensures
        b == gz_name(name@),
{
    lower_ends_with(name, ".gz")
}

/// The byte stream of a WARC file named `name` whose content is `raw`:
/// decoded when the name ends in `.gz`, as is otherwise; with the error
/// that ended the decoding, if any.
pub fn warc_stream(name: &str, raw: &[u8]) -> (r: (Vec<u8>, Option<String>))
    ensures
        gz_name(name@) ==> (r.0@, opt_text(r.1)) == gunzip_stream(raw@),
        !gz_name(name@) ==> r.0@ == raw@ && r.1 is None,
{
    if is_gz_name(name) {
        gunzip(raw)
    } else {
        (vstd::slice::slice_to_vec(raw), None)
    }
}

/// The stream of a WARC file named `name` whose content is `raw`.
pub open spec fn warc_data(name: Seq<char>, raw: Seq<u8>) -> (Seq<u8>, Option<Seq<char>>) {
    if gz_name(name) {
        gunzip_stream(raw)
    } else {
        (raw, None)
    }
}

/// What a WARC file named `name` whose content is `raw` stores (see
/// `read_records`).
pub fn extract_warc(name: &str, raw: &[u8]) -> (r: WarcScan)
    ensures
        (records_view(r.records@), opt_text(r.error)) == scan(
            warc_data(name@, raw@).0,
            warc_data(name@, raw@).1,
        ),
{
    let (data, tail) = warc_stream(name, raw);
    read_records(data.as_slice(), &tail)
}


/// The record a record step stores lies within the site and its payload
/// is no longer than the limit.
proof fn lemma_step_record(data: Seq<u8>, tail: Option<Seq<char>>, p: int)
    requires
        0 <= p <= data.len(),
    ensures
        record_step(data, tail, p) matches Ok(Some((Some(r), _))) ==> site_relative(r.0) && r.1.len()
            <= MAX_WARC_RECORD,
{
    match record_step(data, tail, p) {
        Ok(Some((Some(r), _))) => {
            let (version, p1) = read_line(data, tail, p)->Ok_0->0;
            lemma_read_line_advances(data, tail, p);
            let (hs, q) = read_headers(data, tail, p1, Seq::empty())->Ok_0;
            lemma_read_headers_advances(data, tail, p1, Seq::empty());
            let cl = header(hs, "content-length"@)->0;
            let len = parse_unsigned(cl, usize::MAX as nat)->0;
            let body = data.subrange(q, q + len);
            assert(record_of(hs, body) == Ok::<Option<RecordView>, Seq<char>>(Some(r)));
            let uri = header(hs, "warc-target-uri"@)->0;
            let (payload, as_html) = record_payload(hs, body)->0;
            law_url_rel_within_site(uri, as_html);
            assert(url_rel(uri, as_html) == Ok::<Seq<char>, Seq<char>>(r.0));
            assert(r.1 == payload);
            assert(len <= MAX_WARC_RECORD);
            assert(body.len() == len);
            match http_split(body) {
                Some((status, pl)) => {
                    lemma_find(body, blank_line());
                },
                None => {},
            }
            assert(payload.len() <= body.len());
        },
        _ => {},
    }
}

/// Law: no record read from a WARC stream is stored outside the site (its
/// path is site-relative), and none carries a payload over `MAX_WARC_RECORD` bytes, whatever the bytes
/// of the stream.
pub proof fn law_scan_within_site(data: Seq<u8>, tail: Option<Seq<char>>)
    ensures
        forall|i: int|
            0 <= i < scan(data, tail).0.len() ==> site_relative((#[trigger] scan(data, tail).0[i]).0)
                && scan(data, tail).0[i].1.len() <= MAX_WARC_RECORD,
    decreases data.len(),
{
    lemma_step_record(data, tail, 0);
    match record_step(data, tail, 0) {
        Ok(Some((rec, next))) => {
            lemma_record_step_advances(data, tail, 0);
            law_scan_within_site(data.skip(next), tail);
            let rest = scan(data.skip(next), tail);
            match rec {
                Some(r) => {
                    let all = scan(data, tail).0;
                    assert(all == seq![r] + rest.0);
                    assert forall|i: int| 0 <= i < all.len() implies site_relative((#[trigger] all[i]).0)
                        && all[i].1.len() <= MAX_WARC_RECORD by {
                        if i > 0 {
                            assert(all[i] == rest.0[i - 1]);
                        }
                    }
                },
                None => {},
            }
        },
        _ => {},
    }
}

} // verus!
