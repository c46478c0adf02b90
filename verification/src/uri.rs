//! Archive URLs: which are web pages, their origin, and the path under the
//! extracted site at which a record is stored.

use vstd::prelude::*;
use vstd::string::StringExecFns;

use crate::text::{
    chars_of, eq_ic, eq_ic_window, eq_window, find, find_in, in_class, lemma_find,
    lemma_pieces_append, lemma_pieces_shape, lemma_pieces_single, lower, pieces, push_char,
    push_lower_range, push_range, run, scan_until, skip_lead, skip_run, split_pieces, starts_with,
    text_result, trim, trim_end, trim_start, trim_window, until, window_has, windows, Class,
};

verus! {

/// A target URI with surrounding white space and angle brackets removed.
pub open spec fn clean_uri(uri: Seq<char>) -> Seq<char> {
    trim(trim(uri, Class::Space), Class::Angle)
}

/// The scheme separator `://`.
pub open spec fn scheme_sep() -> Seq<char> {
    seq![':', '/', '/']
}

/// The path part of a cleaned URI: what follows the first `/` after the
/// authority, or, without a scheme, the URI without its leading slashes.
pub open spec fn uri_path(u: Seq<char>) -> Seq<char> {
    match find(u, scheme_sep()) {
        Some(i) => {
            let rest = u.skip(i + 3);
            match find(rest, seq!['/']) {
                Some(j) => rest.skip(j + 1),
                None => Seq::empty(),
            }
        },
        None => trim_start(u, Class::Slash),
    }
}

/// The path of a target URI, up to its query or fragment.
pub open spec fn target_path(uri: Seq<char>) -> Seq<char> {
    let p = uri_path(clean_uri(uri));
    p.take(until(p, seq!['?', '#']) as int)
}

/// The pieces joined by `/`.
pub open spec fn join(parts: Seq<Seq<char>>) -> Seq<char>
    decreases parts.len(),
{
    if parts.len() == 0 {
        Seq::empty()
    } else if parts.len() == 1 {
        parts[0]
    } else {
        join(parts.drop_last()) + seq!['/'] + parts.last()
    }
}

/// The relative path at which the record of `uri` is stored, or the refusal
/// of a URI that climbs out of the site with `..`.  A URI without a path
/// (or whose path is only slashes) is the site's `index.html`; a path that ends with
/// `/`, or an HTML page whose last piece has no extension, becomes a
/// directory index; a file under a `figures` directory lands in `figures/`.
pub open spec fn url_rel(uri: Seq<char>, as_html: bool) -> Result<Seq<char>, Seq<char>> {
    let path = target_path(uri);
    let parts = pieces(path, Class::Slash);
    if path.len() == 0 || parts.len() == 0 {
        Ok("index.html"@)
    } else if parts.contains(seq!['.', '.']) {
        Err("URL refusée: "@ + clean_uri(uri))
    } else if parts.len() >= 2 && eq_ic(parts[parts.len() - 2], "figures"@) {
        Ok("figures/"@ + parts.last())
    } else {
        let last = parts.last();
        if path.last() == '/' || (as_html && !last.contains('.')) {
            Ok(join(parts) + "/index.html"@)
        } else {
            Ok(join(parts))
        }
    }
}

/// The pieces `v[rs[t].0..rs[t].1]` joined by `/`.
fn join_windows(v: &Vec<char>, rs: &Vec<(usize, usize)>) -> (s: String)
    requires
        forall|t: int| 0 <= t < rs@.len() ==> (#[trigger] rs@[t]).0 <= rs@[t].1 <= v@.len(),
    ensures
        s@ == join(windows(v@, rs@)),
{
    let ghost ws = windows(v@, rs@);
    let mut s = String::new();
    let mut t: usize = 0;
    while t < rs.len()
        invariant
            t <= rs@.len(),
            ws == windows(v@, rs@),
            forall|t: int| 0 <= t < rs@.len() ==> (#[trigger] rs@[t]).0 <= rs@[t].1 <= v@.len(),
            s@ == join(ws.take(t as int)),
        decreases rs@.len() - t,
    {
        let (a, b) = rs[t];
        if t > 0 {
            push_char(&mut s, '/');
        }
        push_range(&mut s, v, a, b);
        proof {
            let next = ws.take(t + 1);
            assert(next.drop_last() == ws.take(t as int));
            assert(next.last() == v@.subrange(a as int, b as int));
            if t == 0 {
                assert(ws.take(0) == Seq::<Seq<char>>::empty());
            }
        }
        t = t + 1;
    }
    assert(ws.take(rs@.len() as int) == ws);
    s
}

/// The windows of `uri`'s characters `v` that hold the cleaned URI and the
/// target path.
fn path_window(v: &Vec<char>, uri: &str) -> (r: (usize, usize, usize, usize))
    requires
        v@ == uri@,
    ensures
        r.0 <= r.1 <= v@.len(),
        r.2 <= r.3 <= v@.len(),
        v@.subrange(r.0 as int, r.1 as int) == clean_uri(uri@),
        v@.subrange(r.2 as int, r.3 as int) == target_path(uri@),
{
    let (c, d, f) = clean_and_split(v, uri);
    let ghost u = clean_uri(uri@);
    let mut plo = d;
    match f {
        Some(i) => {
            let r0 = c + i + 3;
            let ghost rest = u.skip(i + 3);
            assert(rest == v@.subrange(r0 as int, d as int));
            let slash: Vec<char> = vec!['/'];
            assert(slash@ == seq!['/']);
            match find_in(v, r0, d, &slash) {
                Some(j) => {
                    proof {
                        lemma_find(rest, seq!['/']);
                    }
                    plo = r0 + j + 1;
                    assert(rest.skip(j + 1) == v@.subrange(plo as int, d as int));
                },
                None => {
                    assert(v@.subrange(d as int, d as int) == Seq::<char>::empty());
                },
            }
        },
        None => {
            plo = skip_lead(v, c, d, Class::Slash);
        },
    }
    assert(v@.subrange(plo as int, d as int) == uri_path(u));
    let stops: Vec<char> = vec!['?', '#'];
    let q = scan_until(v, plo, d, &stops);
    (c, d, plo, q)
}

/// Whether one of the windows `rs` of `v` is `..`.
fn has_dotdot(v: &Vec<char>, rs: &Vec<(usize, usize)>) -> (b: bool)
    requires
        forall|t: int| 0 <= t < rs@.len() ==> (#[trigger] rs@[t]).0 <= rs@[t].1 <= v@.len(),
    ensures
        b == windows(v@, rs@).contains(seq!['.', '.']),
{
    let ghost parts = windows(v@, rs@);
    let dots: Vec<char> = vec!['.', '.'];
    let mut t: usize = 0;
    while t < rs.len()
        invariant
            t <= rs@.len(),
            parts == windows(v@, rs@),
            dots@ == seq!['.', '.'],
            forall|t: int| 0 <= t < rs@.len() ==> (#[trigger] rs@[t]).0 <= rs@[t].1 <= v@.len(),
            forall|j: int| 0 <= j < t ==> parts[j] != seq!['.', '.'],
        decreases rs@.len() - t,
    {
        if eq_window(v, rs[t].0, rs[t].1, &dots) {
            assert(parts[t as int] == seq!['.', '.']);
            return true;
        }
        t = t + 1;
    }
    false
}

/// Maps an archive URL to the relative path at which its record is stored;
/// an extension-less HTML page becomes `…/index.html`.
pub fn url_to_rel_with(uri: &str, as_html: bool) -> (r: Result<String, String>)
    ensures
        text_result(r) == url_rel(uri@, as_html),
{
    let v = chars_of(uri);
    let (c, d, plo, q) = path_window(&v, uri);
    let ghost path = v@.subrange(plo as int, q as int);
    if q == plo {
        return Ok(String::from_str("index.html"));
    }
    let rs = split_pieces(&v, plo, q, Class::Slash);
    let ghost parts = pieces(path, Class::Slash);
    if rs.len() == 0 {
        return Ok(String::from_str("index.html"));
    }
    if has_dotdot(&v, &rs) {
        let mut e = String::from_str("URL refusée: ");
        push_range(&mut e, &v, c, d);
        return Err(e);
    }
    let m = rs.len();
    let figures: Vec<char> = vec!['f', 'i', 'g', 'u', 'r', 'e', 's'];
    assert(figures@ == "figures"@) by {
        reveal_strlit("figures");
    }
    if m >= 2 && eq_ic_window(&v, rs[m - 2].0, rs[m - 2].1, &figures) {
        let mut out = String::from_str("figures/");
        push_range(&mut out, &v, rs[m - 1].0, rs[m - 1].1);
        return Ok(out);
    }
    let has_ext = window_has(&v, rs[m - 1].0, rs[m - 1].1, '.');
    let mut out = join_windows(&v, &rs);
    if v[q - 1] == '/' || (as_html && !has_ext) {
        out.append("/index.html");
    }
    Ok(out)
}

/// Maps an archive URL to the relative path at which its record is stored.
pub fn url_to_rel(uri: &str) -> (r: Result<String, String>)
    ensures
        text_result(r) == url_rel(uri@, false),
{
    url_to_rel_with(uri, false)
}


/// The scheme of a cleaned URI, when it has one.
pub open spec fn scheme_of(u: Seq<char>) -> Option<Seq<char>> {
    match find(u, scheme_sep()) {
        Some(i) => Some(u.take(i)),
        None => None,
    }
}

/// The scheme is `http` or `https`, in any ASCII case.
pub open spec fn is_web_scheme(scheme: Seq<char>) -> bool {
    eq_ic(scheme, "http"@) || eq_ic(scheme, "https"@)
}

/// The URI names an `http` or `https` resource.
pub open spec fn http_uri(uri: Seq<char>) -> bool {
    match scheme_of(clean_uri(uri)) {
        Some(scheme) => is_web_scheme(scheme),
        None => false,
    }
}

/// `scheme://host` of an `http(s)` URI with a non-empty host, the scheme
/// lower-cased.
pub open spec fn origin(uri: Seq<char>) -> Option<Seq<char>> {
    let u = clean_uri(uri);
    match find(u, scheme_sep()) {
        Some(i) => {
            let scheme = u.take(i);
            let rest = u.skip(i + 3);
            let host = rest.take(run(rest, Class::Slash) as int);
            if is_web_scheme(scheme) && host.len() > 0 {
                Some(lower(scheme) + scheme_sep() + host)
            } else {
                None
            }
        },
        None => None,
    }
}

/// The window of `uri`'s characters `v` that holds the cleaned URI, and the
/// position of its scheme separator.
fn clean_and_split(v: &Vec<char>, uri: &str) -> (r: (usize, usize, Option<usize>))
    requires
        v@ == uri@,
    ensures
        r.0 <= r.1 <= v@.len(),
        v@.subrange(r.0 as int, r.1 as int) == clean_uri(uri@),
        r.2 matches Some(i) ==> find(clean_uri(uri@), scheme_sep()) == Some(i as int) && r.0 + i
            + 3 <= r.1,
        r.2 is None ==> find(clean_uri(uri@), scheme_sep()) is None,
{
    let n = v.len();
    let (a, b) = trim_window(v, 0, n, Class::Space);
    let (c, d) = trim_window(v, a, b, Class::Angle);
    assert(v@.subrange(0, n as int) == uri@);
    let sep: Vec<char> = vec![':', '/', '/'];
    assert(sep@ == scheme_sep());
    let f = find_in(v, c, d, &sep);
    proof {
        lemma_find(v@.subrange(c as int, d as int), scheme_sep());
    }
    (c, d, f)
}

/// Whether the target URI is an `http(s)` URL (and not, say, a
/// `urn:pageinfo:` record).
pub fn is_http_uri(uri: &str) -> (b: bool)
    ensures
        b == http_uri(uri@),
{
    let v = chars_of(uri);
    let (c, d, f) = clean_and_split(&v, uri);
    match f {
        Some(i) => {
            assert(v@.subrange(c as int, (c + i) as int) == clean_uri(uri@).take(i as int));
            let http: Vec<char> = vec!['h', 't', 't', 'p'];
            let https: Vec<char> = vec!['h', 't', 't', 'p', 's'];
            assert(http@ == "http"@) by {
                reveal_strlit("http");
            }
            assert(https@ == "https"@) by {
                reveal_strlit("https");
            }
            eq_ic_window(&v, c, c + i, &http) || eq_ic_window(&v, c, c + i, &https)
        },
        None => false,
    }
}

/// The origin (`scheme://host`) of an `http(s)` target URI.
pub fn origin_of(uri: &str) -> (r: Option<String>)
    ensures
        r matches Some(o) ==> origin(uri@) == Some(o@),
        r is None ==> origin(uri@) is None,
{
    let v = chars_of(uri);
    let (c, d, f) = clean_and_split(&v, uri);
    let ghost u = clean_uri(uri@);
    match f {
        Some(i) => {
            let r0 = c + i + 3;
            let h = skip_run(&v, r0, d, Class::Slash);
            let ghost rest = u.skip(i + 3);
            assert(rest == v@.subrange(r0 as int, d as int));
            assert(rest.take((h - r0) as int) == v@.subrange(r0 as int, h as int));
            assert(v@.subrange(c as int, (c + i) as int) == u.take(i as int));
            let http: Vec<char> = vec!['h', 't', 't', 'p'];
            let https: Vec<char> = vec!['h', 't', 't', 'p', 's'];
            assert(http@ == "http"@) by {
                reveal_strlit("http");
            }
            assert(https@ == "https"@) by {
                reveal_strlit("https");
            }
            let web = eq_ic_window(&v, c, c + i, &http) || eq_ic_window(&v, c, c + i, &https);
            if !web || h == r0 {
                return None;
            }
            let mut o = String::new();
            push_lower_range(&mut o, &v, c, c + i);
            push_char(&mut o, ':');
            push_char(&mut o, '/');
            push_char(&mut o, '/');
            push_range(&mut o, &v, r0, h);
            assert(o@ == lower(u.take(i as int)) + scheme_sep() + rest.take((h - r0) as int));
            Some(o)
        },
        None => None,
    }
}


/// Joining pieces that are non-empty and slash-free, then splitting again,
/// gives the pieces back.
pub proof fn lemma_join_pieces(parts: Seq<Seq<char>>)
    requires
        forall|i: int|
            0 <= i < parts.len() ==> (#[trigger] parts[i]).len() > 0 && forall|j: int|
                0 <= j < parts[i].len() ==> !in_class(Class::Slash, parts[i][j]),
    ensures
        pieces(join(parts), Class::Slash) == parts,
    decreases parts.len(),
{
    if parts.len() == 0 {
        assert(pieces(Seq::<char>::empty(), Class::Slash) == Seq::<Seq<char>>::empty());
        assert(parts == Seq::<Seq<char>>::empty());
    } else if parts.len() == 1 {
        lemma_pieces_single(parts[0], Class::Slash);
        assert(parts == seq![parts[0]]);
    } else {
        let init = parts.drop_last();
        assert forall|i: int|
            0 <= i < init.len() implies (#[trigger] init[i]).len() > 0 && forall|j: int|
                0 <= j < init[i].len() ==> !in_class(Class::Slash, init[i][j]) by {
            assert(init[i] == parts[i]);
        }
        lemma_join_pieces(init);
        lemma_pieces_single(parts.last(), Class::Slash);
        lemma_pieces_append(join(init), '/', parts.last(), Class::Slash);
        assert(parts == init.push(parts.last()));
    }
}

/// A path that stays inside the directory it is joined to: non-empty, not
/// starting with `/`, and with no empty piece (no leading, trailing or
/// doubled `/`) and no `..` piece.
pub open spec fn site_relative(rel: Seq<char>) -> bool {
    &&& rel.len() > 0
    &&& rel[0] != '/'
    &&& rel.last() != '/'
    &&& forall|i: int| 0 <= i < rel.len() - 1 ==> !(#[trigger] rel[i] == '/' && rel[i + 1] == '/')
    &&& !pieces(rel, Class::Slash).contains(seq!['.', '.'])
}

/// Pieces that are non-empty and slash-free.
pub open spec fn plain_pieces(parts: Seq<Seq<char>>) -> bool {
    forall|i: int|
        0 <= i < parts.len() ==> (#[trigger] parts[i]).len() > 0 && forall|j: int|
            0 <= j < parts[i].len() ==> !in_class(Class::Slash, parts[i][j])
}

/// Joining at least one non-empty, slash-free piece gives a path that
/// neither starts nor ends with `/` and has no doubled `/`.
proof fn lemma_join_shape(parts: Seq<Seq<char>>)
    requires
        parts.len() >= 1,
        plain_pieces(parts),
    ensures
        join(parts).len() > 0,
        join(parts)[0] != '/',
        join(parts).last() != '/',
        forall|i: int|
            0 <= i < join(parts).len() - 1 ==> !(#[trigger] join(parts)[i] == '/' && join(
                parts,
            )[i + 1] == '/'),
    decreases parts.len(),
{
    if parts.len() == 1 {
        let p = parts[0];
        assert(!in_class(Class::Slash, p[0]));
        assert(!in_class(Class::Slash, p[p.len() - 1]));
    } else {
        let init = parts.drop_last();
        let l = parts.last();
        assert(plain_pieces(init)) by {
            assert forall|i: int| 0 <= i < init.len() implies (#[trigger] init[i]).len() > 0
                && forall|j: int| 0 <= j < init[i].len() ==> !in_class(Class::Slash, init[i][j]) by {
                assert(init[i] == parts[i]);
            }
        }
        lemma_join_shape(init);
        let j = join(init);
        let w = join(parts);
        assert(w == j + seq!['/'] + l);
        assert(l.len() > 0 && parts[parts.len() - 1] == l);
        assert(!in_class(Class::Slash, l[0]));
        assert(!in_class(Class::Slash, l[l.len() - 1]));
        assert(w[0] == j[0]);
        assert(w.last() == l[l.len() - 1]);
        assert forall|i: int| 0 <= i < w.len() - 1 implies !(#[trigger] w[i] == '/' && w[i + 1]
            == '/') by {
            if i < j.len() - 1 {
                assert(w[i] == j[i] && w[i + 1] == j[i + 1]);
            } else if i == j.len() - 1 {
                assert(w[i] == j.last());
            } else if i == j.len() {
                assert(w[i + 1] == l[0]);
            } else {
                assert(w[i] == l[i - j.len() - 1]);
                assert(!in_class(Class::Slash, l[i - j.len() - 1]));
            }
        }
    }
}

/// At least one non-empty, slash-free piece, none of them `..`, joined by
/// `/`, make a site-relative path.
proof fn lemma_join_relative(parts: Seq<Seq<char>>)
    requires
        parts.len() >= 1,
        plain_pieces(parts),
        !parts.contains(seq!['.', '.']),
    ensures
        site_relative(join(parts)),
{
    lemma_join_shape(parts);
    lemma_join_pieces(parts);
}

/// `join` of one more piece.
proof fn lemma_join_push(parts: Seq<Seq<char>>, p: Seq<char>)
    requires
        parts.len() >= 1,
    ensures
        join(parts.push(p)) == join(parts) + seq!['/'] + p,
{
    assert(parts.push(p).drop_last() == parts);
}

/// Law: a record is never stored outside the site.  Whatever the URI, the
/// path it maps to is non-empty, relative, and made of pieces that are
/// neither empty nor `..`.
pub proof fn law_url_rel_within_site(uri: Seq<char>, as_html: bool)
    ensures
        url_rel(uri, as_html) matches Ok(rel) ==> site_relative(rel),
{
    let path = target_path(uri);
    let parts = pieces(path, Class::Slash);
    lemma_pieces_shape(path, Class::Slash);
    let dots = seq!['.', '.'];
    reveal_strlit("index.html");
    reveal_strlit("figures");
    reveal_strlit("figures/");
    reveal_strlit("/index.html");
    let index = "index.html"@;
    assert(index != dots) by {
        assert(index.len() != dots.len());
    }
    assert(plain_pieces(seq![index])) by {
        assert forall|j: int| 0 <= j < index.len() implies !in_class(Class::Slash, index[j]) by {}
    }
    assert(!seq![index].contains(dots)) by {
        if seq![index].contains(dots) {
            let i = choose|i: int| 0 <= i < 1 && seq![index][i] == dots;
        }
    }
    match url_rel(uri, as_html) {
        Ok(rel) => {
            if path.len() == 0 || parts.len() == 0 {
                assert(rel == join(seq![index]));
                lemma_join_relative(seq![index]);
            } else if parts.len() >= 2 && eq_ic(parts[parts.len() - 2], "figures"@) {
                let last = parts.last();
                let fig = "figures"@;
                let two = seq![fig, last];
                assert(rel == join(two)) by {
                    assert(two.drop_last() == seq![fig]);
                    assert("figures/"@ == fig + seq!['/']);
                    assert(join(seq![fig]) == fig);
                    assert(join(two) == join(seq![fig]) + seq!['/'] + last);
                }
                assert(fig != dots) by {
                    assert(fig.len() != dots.len());
                }
                assert(parts.contains(last));
                assert(parts[parts.len() - 1] == last);
                assert(plain_pieces(two)) by {
                    assert forall|i: int| 0 <= i < two.len() implies (#[trigger] two[i]).len() > 0
                        && forall|j: int| 0 <= j < two[i].len() ==> !in_class(Class::Slash, two[i][j]) by {
                        if i == 1 {
                            assert(two[i] == parts[parts.len() - 1]);
                        }
                    }
                }
                assert(!two.contains(dots)) by {
                    if two.contains(dots) {
                        let i = choose|i: int| 0 <= i < 2 && two[i] == dots;
                    }
                }
                lemma_join_relative(two);
            } else {
                assert(plain_pieces(parts));
                if rel == join(parts) {
                    lemma_join_relative(parts);
                } else {
                    let more = parts.push(index);
                    lemma_join_push(parts, index);
                    assert(rel == join(more));
                    assert(plain_pieces(more)) by {
                        assert forall|i: int| 0 <= i < more.len() implies (#[trigger] more[i]).len()
                            > 0 && forall|j: int| 0 <= j < more[i].len() ==> !in_class(Class::Slash, more[i][j]) by {
                            if i < parts.len() {
                                assert(more[i] == parts[i]);
                            }
                        }
                    }
                    assert(!more.contains(dots)) by {
                        if more.contains(dots) {
                            let i = choose|i: int| 0 <= i < more.len() && more[i] == dots;
                            if i < parts.len() {
                                assert(parts[i] == dots);
                            }
                        }
                    }
                    lemma_join_relative(more);
                }
            }
        },
        Err(_) => {},
    }
}

/// A URI without surrounding white space or angle brackets is its own
/// cleaned form.
proof fn lemma_clean_plain(s: Seq<char>)
    requires
        s.len() > 0,
        !in_class(Class::Space, s[0]) && !in_class(Class::Angle, s[0]),
        !in_class(Class::Space, s.last()) && !in_class(Class::Angle, s.last()),
    ensures
        clean_uri(s) == s,
{
    assert(crate::text::lead(s, Class::Space) == 0);
    assert(s.skip(0) == s);
    assert(crate::text::trail(s, Class::Space) == 0);
    assert(s.take(s.len() as int) == s);
    assert(trim(s, Class::Space) == s);
    assert(crate::text::lead(s, Class::Angle) == 0);
    assert(crate::text::trail(s, Class::Angle) == 0);
}

/// The first occurrence of a pattern in `u` stays the first once more is
/// appended.
proof fn lemma_find_extend(u: Seq<char>, ext: Seq<char>, pat: Seq<char>)
    requires
        find(u, pat) is Some,
    ensures
        find(u + ext, pat) == find(u, pat),
{
    lemma_find(u, pat);
    let i = find(u, pat)->0;
    let w = u + ext;
    assert(w.subrange(i, i + pat.len()) == u.subrange(i, i + pat.len()));
    assert forall|j: int| 0 <= j < i implies !crate::text::occurs_at(w, pat, j) by {
        if crate::text::occurs_at(w, pat, j) {
            assert(w.subrange(j, j + pat.len()) == u.subrange(j, j + pat.len()));
            assert(crate::text::occurs_at(u, pat, j));
        }
    }
    crate::text::lemma_find_from_unique(w, pat, 0, i);
}

/// Trailing characters of a class are trimmed off `q` alone when `a`
/// before it does not end with one.
proof fn lemma_trim_end_after(a: Seq<char>, q: Seq<char>, k: Class)
    requires
        a.len() > 0,
        !in_class(k, a.last()),
    ensures
        trim_end(a + q, k) == a + trim_end(q, k),
    decreases q.len(),
{
    let w = a + q;
    if q.len() == 0 {
        assert(w == a);
        assert(crate::text::trail(a, k) == 0);
        assert(a.take(a.len() as int) == a);
        assert(q.take(0) == q);
    } else if in_class(k, q.last()) {
        lemma_trim_end_after(a, q.drop_last(), k);
        assert(w.drop_last() == a + q.drop_last());
        assert(w.last() == q.last());
        assert(crate::text::trail(w, k) == 1 + crate::text::trail(a + q.drop_last(), k));
        assert(crate::text::trail(q, k) == 1 + crate::text::trail(q.drop_last(), k));
        crate::text::lemma_trail_bound(a + q.drop_last(), k);
        crate::text::lemma_trail_bound(q.drop_last(), k);
        assert(w.take(w.len() - crate::text::trail(w, k)) == (a + q.drop_last()).take(
            (a + q.drop_last()).len() - crate::text::trail(a + q.drop_last(), k),
        ));
        assert(q.take(q.len() - crate::text::trail(q, k)) == q.drop_last().take(
            q.drop_last().len() - crate::text::trail(q.drop_last(), k),
        ));
    } else {
        assert(w.last() == q.last());
        assert(w.take(w.len() as int) == w);
        assert(q.take(q.len() as int) == q);
    }
}

/// Cleaning a URI whose start is kept and whose `?` or `#` follows `u`
/// trims only what comes after that character.
proof fn lemma_clean_after(u: Seq<char>, c: char, q: Seq<char>) -> (q2: Seq<char>)
    requires
        u.len() > 0,
        !in_class(Class::Space, u[0]) && !in_class(Class::Angle, u[0]),
        c == '?' || c == '#',
    ensures
        clean_uri(u + seq![c] + q) == u + seq![c] + q2,
{
    let a = u + seq![c];
    let w = a + q;
    assert(w == u + seq![c] + q);
    assert(w[0] == u[0]);
    assert(a.last() == c);
    assert(crate::text::lead(w, Class::Space) == 0);
    assert(w.skip(0) == w);
    lemma_trim_end_after(a, q, Class::Space);
    let q1 = trim_end(q, Class::Space);
    let w1 = a + q1;
    assert(trim(w, Class::Space) == w1);
    assert(w1[0] == u[0]);
    assert(crate::text::lead(w1, Class::Angle) == 0);
    assert(w1.skip(0) == w1);
    lemma_trim_end_after(a, q1, Class::Angle);
    let q2 = trim_end(q1, Class::Angle);
    assert(clean_uri(w) == a + q2);
    q2
}

/// Law: the query or fragment of a URL does not change where its record
/// is stored.  For a URL `u` that has a path after its authority, holds no
/// `?` or `#`, and is written without surrounding white space or angle
/// brackets, `u?q` and `u#q` map as `u` does, whatever `q`.
pub proof fn law_query_ignored(u: Seq<char>, c: char, q: Seq<char>, as_html: bool)
    requires
        c == '?' || c == '#',
        !u.contains('?'),
        !u.contains('#'),
        u.len() > 0,
        !in_class(Class::Space, u[0]) && !in_class(Class::Angle, u[0]),
        !in_class(Class::Space, u.last()) && !in_class(Class::Angle, u.last()),
        find(u, scheme_sep()) matches Some(i) && find(u.skip(i + 3), seq!['/']) is Some,
    ensures
        target_path(u + seq![c] + q) == target_path(u),
        url_rel(u + seq![c] + q, as_html) is Ok <==> url_rel(u, as_html) is Ok,
        url_rel(u + seq![c] + q, as_html) is Ok ==> url_rel(u + seq![c] + q, as_html) == url_rel(
            u,
            as_html,
        ),
{
    lemma_clean_plain(u);
    let q2 = lemma_clean_after(u, c, q);
    let tail = seq![c] + q2;
    let w = u + tail;
    assert(w == u + seq![c] + q2);
    assert(clean_uri(u + seq![c] + q) == w);
    lemma_find_extend(u, tail, scheme_sep());
    let i = find(u, scheme_sep())->0;
    lemma_find(u, scheme_sep());
    let ru = u.skip(i + 3);
    let rw = w.skip(i + 3);
    assert(rw == ru + tail);
    lemma_find_extend(ru, tail, seq!['/']);
    let j = find(ru, seq!['/'])->0;
    lemma_find(ru, seq!['/']);
    let p = ru.skip(j + 1);
    assert(uri_path(u) == p);
    assert(uri_path(w) == p + tail);
    let stops = seq!['?', '#'];
    assert forall|k: int| 0 <= k < p.len() implies !stops.contains(#[trigger] p[k]) by {
        assert(p[k] == u[i + 3 + j + 1 + k]);
        if p[k] == '?' {
            assert(u.contains('?'));
        }
        if p[k] == '#' {
            assert(u.contains('#'));
        }
        if stops.contains(p[k]) {
            let t = choose|t: int| 0 <= t < 2 && stops[t] == p[k];
        }
    }
    assert((p + tail)[p.len() as int] == c);
    assert(stops.contains(c)) by {
        if c == '?' {
            assert(stops[0] == c);
        } else {
            assert(stops[1] == c);
        }
    }
    assert forall|k: int| 0 <= k < p.len() implies !stops.contains(#[trigger] (p + tail)[k]) by {
        assert((p + tail)[k] == p[k]);
    }
    crate::text::lemma_until(p + tail, stops, p.len() as int);
    crate::text::lemma_until(p, stops, p.len() as int);
    assert((p + tail).take(p.len() as int) == p);
    assert(p.take(p.len() as int) == p);
}

/// Law: telling that a record is an HTML page only ever turns its path
/// into a directory index: the result is the same as without the flag, or
/// that path followed by `/index.html`.
pub proof fn law_html_flag_adds_index(uri: Seq<char>)
    ensures
        url_rel(uri, true) == url_rel(uri, false) || (url_rel(uri, false) matches Ok(rel)
            && url_rel(uri, true) == Ok::<Seq<char>, Seq<char>>(rel + "/index.html"@)),
{
}


/// Law: an HTML page is stored as a file with an extension (a page
/// without one becomes `…/index.html`), so that a page never takes the
/// place of the directory of another one; only figures, which land in
/// `figures/`, are kept as named.
pub proof fn law_html_page_is_a_file(uri: Seq<char>)
    ensures
        url_rel(uri, true) matches Ok(rel) ==> starts_with(rel, "figures/"@) || (pieces(
            rel,
            Class::Slash,
        ).len() > 0 && pieces(rel, Class::Slash).last().contains('.')),
{
    let path = target_path(uri);
    let parts = pieces(path, Class::Slash);
    lemma_pieces_shape(path, Class::Slash);
    reveal_strlit("index.html");
    reveal_strlit("figures/");
    reveal_strlit("/index.html");
    let index = "index.html"@;
    lemma_pieces_single(index, Class::Slash);
    assert(index[5] == '.');
    match url_rel(uri, true) {
        Ok(rel) => {
            if path.len() == 0 || parts.len() == 0 {
                assert(pieces(rel, Class::Slash) == seq![index]);
            } else if parts.len() >= 2 && eq_ic(parts[parts.len() - 2], "figures"@) {
                assert(rel.take(8) == "figures/"@);
            } else {
                lemma_join_pieces(parts);
                if rel == join(parts) {
                    assert(pieces(rel, Class::Slash) == parts);
                } else {
                    assert(rel == join(parts) + seq!['/'] + index);
                    lemma_pieces_append(join(parts), '/', index, Class::Slash);
                    assert(pieces(rel, Class::Slash) == parts + seq![index]);
                }
            }
        },
        Err(_) => {},
    }
}


/// Law: only an `http(s)` URI has an origin, and that origin starts with its
/// scheme, lower-cased, followed by `://`.
pub proof fn law_origin_of_web_uri(uri: Seq<char>)
    ensures
        origin(uri) matches Some(o) ==> http_uri(uri) && o.take(
            scheme_of(clean_uri(uri))->0.len() + 3int,
        ) == lower(scheme_of(clean_uri(uri))->0) + scheme_sep(),
{
    match origin(uri) {
        Some(o) => {
            let u = clean_uri(uri);
            let i = find(u, scheme_sep())->0;
            let scheme = u.take(i);
            assert(lower(scheme).len() == scheme.len());
            assert(o.take(scheme.len() + 3int) == lower(scheme) + scheme_sep());
        },
        None => {},
    }
}

} // verus!
