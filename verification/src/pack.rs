//! The pack server: which files are packs, where a pack's site and entry
//! page are, and how the local server answers a request.

use std::sync::atomic::AtomicBool;
use std::sync::Arc;

use vstd::prelude::*;
use vstd::string::StringExecFns;

use crate::order::{lemma_lex_antisymmetric, lemma_lex_transitive, lex_sign, lex_sign_exec};
use crate::text::{
    chars_of, dec, ends_with, ends_with_exec, eq_ic, eq_ic_window, lemma_rfind, lower,
    lower_ends_with, lower_window, opt_text, push_char, push_decimal, rfind, rfind_in, scan_until,
    skip_lead, starts_with, starts_with_exec, str_eq, string_of, text_of, texts, trim, trim_start,
    trim_window, until, Class,
};

verus! {

/// `Path::extension` of a file name: what follows its last `.`, unless it
/// has none, or only a leading one, or is `..`.
pub open spec fn path_extension(name: Seq<char>) -> Option<Seq<char>> {
    if name == ".."@ {
        None
    } else {
        match rfind(name, seq!['.']) {
            Some(k) => if k == 0 {
                None
            } else {
                Some(name.skip(k + 1))
            },
            None => None,
        }
    }
}

/// `Path::file_stem` of a file name: what precedes its last `.`, or the
/// whole name when it has no `.` but a leading one, or is `..`.
pub open spec fn path_stem(name: Seq<char>) -> Seq<char> {
    if name == ".."@ {
        name
    } else {
        match rfind(name, seq!['.']) {
            Some(k) => if k == 0 {
                name
            } else {
                name.take(k)
            },
            None => name,
        }
    }
}

/// The position of the last `.` of a file name that starts an extension.
fn extension_dot(name: &str) -> (r: Option<usize>)
    ensures
        r matches Some(k) ==> k < name@.len() && path_extension(name@) == Some(name@.skip(k + 1))
            && path_stem(name@) == name@.take(k as int),
        r is None ==> path_extension(name@) is None && path_stem(name@) == name@,
{
    if str_eq(name, "..") {
        return None;
    }
    let v = chars_of(name);
    let dot: Vec<char> = vec!['.'];
    assert(dot@ == seq!['.']);
    let n = v.len();
    assert(v@.subrange(0, n as int) == name@);
    match rfind_in(&v, 0, n, &dot) {
        Some(k) => {
            proof {
                lemma_rfind(name@, seq!['.']);
            }
            if k == 0 {
                None
            } else {
                Some(k)
            }
        },
        None => None,
    }
}

/// The extension of a file name, if it has one.
pub fn file_extension(name: &str) -> (r: Option<String>)
    ensures
        opt_text(r) == path_extension(name@),
{
    match extension_dot(name) {
        Some(k) => {
            let v = chars_of(name);
            let n = v.len();
            assert(k < n);
            Some(string_of(&v, k + 1, n))
        },
        None => None,
    }
}

/// The file stem of a file name.
pub fn file_stem(name: &str) -> (r: String)
    ensures
        r@ == path_stem(name@),
{
    let v = chars_of(name);
    match extension_dot(name) {
        Some(k) => string_of(&v, 0, k),
        None => text_of(&v),
    }
}

/// A WACZ or WARC file name (`.wacz`, `.warc`, `.warc.gz`, any ASCII case).
pub open spec fn web_archive_name(name: Seq<char>) -> bool {
    ends_with(lower(name), ".wacz"@) || ends_with(lower(name), ".warc"@) || ends_with(
        lower(name),
        ".warc.gz"@,
    )
}

/// A file name that can be opened as a pack: a web archive or a `.zip`.
pub open spec fn pack_file_name(name: Seq<char>) -> bool {
    web_archive_name(name) || match path_extension(name) {
        Some(e) => eq_ic(e, "zip"@),
        None => false,
    }
}

/// Whether a file name is a WACZ or WARC archive.
pub fn is_web_archive(name: &str) -> (b: bool)
    ensures
        b == web_archive_name(name@),
{
    lower_ends_with(name, ".wacz") || lower_ends_with(name, ".warc") || lower_ends_with(
        name,
        ".warc.gz",
    )
}

/// Whether a file name is a pack (web archive or zip).
pub fn is_pack_file(name: &str) -> (b: bool)
    ensures
        b == pack_file_name(name@),
{
    if is_web_archive(name) {
        return true;
    }
    match file_extension(name) {
        Some(e) => {
            let v = chars_of(e.as_str());
            let zip: Vec<char> = vec!['z', 'i', 'p'];
            assert(zip@ == "zip"@) by {
                reveal_strlit("zip");
            }
            assert(v@.subrange(0, v@.len() as int) == v@);
            eq_ic_window(&v, 0, v.len(), &zip)
        },
        None => false,
    }
}

/// Whether a path can be opened as a pack: a directory when an archive
/// was found in it (`dir_has_archive`), otherwise a file with a pack name.
pub fn is_pack(name: &str, is_dir: bool, dir_has_archive: bool) -> (b: bool)
    ensures
        b == if is_dir {
            dir_has_archive
        } else {
            pack_file_name(name@)
        },
{
    if is_dir {
        dir_has_archive
    } else {
        is_pack_file(name)
    }
}


/// The media type essence that `mime_guess` gives a file extension.
pub uninterp spec fn mime_essence(ext: Seq<char>) -> Seq<char>;

/// `mime_guess::from_ext(ext).first_or_octet_stream()`, its essence
/// (`type/subtype`): the media type that `mime_guess`'s table lists first
/// for the extension; `application/octet-stream` for an empty extension
/// (the crate returns an empty guess for it) or an unknown one.  The table
/// itself is not restated: the result is named `mime_essence`.
#[verifier::external_body]
fn guess_essence(ext: &str) -> (r: String)
    ensures
        r@ == mime_essence(ext@),
        ext@.len() == 0 ==> r@ == "application/octet-stream"@,
{
    mime_guess::from_ext(ext).first_or_octet_stream().essence_str().to_string()
}

/// Extensions served as UTF-8 text whatever their media type.
pub open spec fn text_extension(ext: Seq<char>) -> bool {
    ||| ext == "c"@
    ||| ext == "h"@
    ||| ext == "cc"@
    ||| ext == "hh"@
    ||| ext == "cpp"@
    ||| ext == "hpp"@
    ||| ext == "cxx"@
    ||| ext == "hxx"@
    ||| ext == "md"@
    ||| ext == "csv"@
    ||| ext == "svg"@
    ||| ext == "mjs"@
}

/// A media type served as UTF-8 text.
pub open spec fn textual(essence: Seq<char>, ext: Seq<char>) -> bool {
    ||| starts_with(essence, "text/"@)
    ||| essence == "application/javascript"@
    ||| essence == "application/json"@
    ||| essence == "application/xml"@
    ||| ends_with(essence, "+xml"@)
    ||| text_extension(lower(ext))
}

/// The extension of a file name, or the empty string.
pub open spec fn extension_or_empty(name: Seq<char>) -> Seq<char> {
    match path_extension(name) {
        Some(e) => e,
        None => Seq::empty(),
    }
}

/// The `Content-Type` served for a file name: the guessed media type, with
/// `; charset=utf-8` for textual ones.
pub open spec fn served_type(name: Seq<char>) -> Seq<char> {
    let ext = extension_or_empty(name);
    let essence = mime_essence(ext);
    if textual(essence, ext) {
        essence + "; charset=utf-8"@
    } else {
        essence
    }
}

/// Whether `ext`, lower-cased, is one of the extensions served as text.
fn is_text_extension(ext: &str) -> (b: bool)
    ensures
        b == text_extension(lower(ext@)),
{
    let v = chars_of(ext);
    let low = text_of(&lower_window(&v, 0, v.len()));
    assert(v@.subrange(0, v@.len() as int) == v@);
    let e = low.as_str();
    str_eq(e, "c") || str_eq(e, "h") || str_eq(e, "cc") || str_eq(e, "hh") || str_eq(e, "cpp")
        || str_eq(e, "hpp") || str_eq(e, "cxx") || str_eq(e, "hxx") || str_eq(e, "md") || str_eq(
        e,
        "csv",
    ) || str_eq(e, "svg") || str_eq(e, "mjs")
}

/// The `Content-Type` header value for a served file.
pub fn content_type(name: &str) -> (r: String)
    ensures
        r@ == served_type(name@),
{
    let ext = match file_extension(name) {
        Some(e) => e,
        None => String::new(),
    };
    let essence = guess_essence(ext.as_str());
    let e = essence.as_str();
    let textual = starts_with_exec(e, "text/") || str_eq(e, "application/javascript") || str_eq(
        e,
        "application/json",
    ) || str_eq(e, "application/xml") || ends_with_exec(e, "+xml") || is_text_extension(
        ext.as_str(),
    );
    if textual {
        let mut r = essence.clone();
        r.append("; charset=utf-8");
        r
    } else {
        essence
    }
}


/// An open pack: the loopback port it is served on, its entry page, its
/// title, and the flag that tells the serving thread to stop.
#[derive(Debug)]
pub struct PackServer {
    pub port: u16,
    pub entry: String,
    pub title: String,
    pub stop: Arc<AtomicBool>,
}

/// The address of a pack's entry page on the loopback interface.
pub open spec fn entry_url(port: u16, entry: Seq<char>) -> Seq<char> {
    "http://127.0.0.1:"@ + dec(port as nat) + seq!['/'] + entry
}

impl PackServer {
    /// A pack served on `port`, whose serving thread watches `stop`.
    pub fn new(port: u16, entry: String, title: String, stop: Arc<AtomicBool>) -> (s: PackServer)
        ensures
            s.port == port,
            s.entry@ == entry@,
            s.title@ == title@,
            s.stop == stop,
    {
        PackServer { port, entry, title, stop }
    }

    /// The URL of the entry page, on `127.0.0.1`.
    pub fn url(&self) -> (u: String)
        ensures
            u@ == entry_url(self.port, self.entry@),
    {
        let mut u = String::from_str("http://127.0.0.1:");
        push_decimal(&mut u, self.port as u64);
        push_char(&mut u, '/');
        u.append(self.entry.as_str());
        u
    }

    /// Asks the serving thread to stop (it checks the flag between requests).
    pub fn stop(&self) {
        self.stop.store(true, std::sync::atomic::Ordering::SeqCst);
    }
}

/// The path of a request's URL relative to the site root: without its
/// query and its leading slashes.
pub open spec fn request_rel(url: Seq<char>) -> Seq<char> {
    trim_start(url.take(until(url, seq!['?']) as int), Class::Slash)
}

/// The relative path of a request.
pub fn request_path(url: &str) -> (r: String)
    ensures
        r@ == request_rel(url@),
{
    let v = chars_of(url);
    let n = v.len();
    let q: Vec<char> = vec!['?'];
    assert(q@ == seq!['?']);
    let e = scan_until(&v, 0, n, &q);
    let a = skip_lead(&v, 0, e, Class::Slash);
    assert(v@.subrange(0, n as int) == url@);
    assert(v@.subrange(0, e as int) == url@.take(e as int));
    string_of(&v, a, e)
}

/// The file a relative path names: the path without its surrounding
/// slashes, or `index.html` for the root.
pub open spec fn served_target(rel: Seq<char>) -> Seq<char> {
    let t = trim(rel, Class::Slash);
    if t.len() == 0 {
        "index.html"@
    } else {
        t
    }
}

/// The file that a relative path names (see `served_target`).
pub fn served_file(rel: &str) -> (r: String)
    ensures
        r@ == served_target(rel@),
{
    let v = chars_of(rel);
    let n = v.len();
    assert(v@.subrange(0, n as int) == rel@);
    let (a, b) = trim_window(&v, 0, n, Class::Slash);
    if a == b {
        String::from_str("index.html")
    } else {
        string_of(&v, a, b)
    }
}

/// The file served for a relative path, given whether its target is a file
/// and whether the target's `index.html` is one: the target itself, else
/// its directory index, else nothing.
pub fn resolve_served_path(rel: &str, target_is_file: bool, index_is_file: bool) -> (r: Option<
    String,
>)
    ensures
        target_is_file ==> opt_text(r) == Some(served_target(rel@)),
        !target_is_file && index_is_file ==> opt_text(r) == Some(
            served_target(rel@) + "/index.html"@,
        ),
        !target_is_file && !index_is_file ==> r is None,
{
    let t = served_file(rel);
    if target_is_file {
        Some(t)
    } else if index_is_file {
        let mut r = t;
        r.append("/index.html");
        Some(r)
    } else {
        None
    }
}

/// How the server answers a request that it does not serve a file for.
#[derive(Clone, Copy, Debug, PartialEq, Eq, Structural)]
pub enum Refusal {
    /// 404 `introuvable`: nothing at that path.
    NotFound,
    /// 403 `interdit`: the path leaves the site or is not a file.
    Forbidden,
    /// 500 `erreur`: the site root cannot be resolved.
    Failure,
}

/// The status code and body of a refusal.
pub fn refusal_reply(r: Refusal) -> (out: (u16, String))
    ensures
        r == Refusal::NotFound ==> out.0 == 404 && out.1@ == "introuvable"@,
        r == Refusal::Forbidden ==> out.0 == 403 && out.1@ == "interdit"@,
        r == Refusal::Failure ==> out.0 == 500 && out.1@ == "erreur"@,
{
    match r {
        Refusal::NotFound => (404, String::from_str("introuvable")),
        Refusal::Forbidden => (403, String::from_str("interdit")),
        Refusal::Failure => (500, String::from_str("erreur")),
    }
}

/// Whether a request is served, given what resolving it found: a file for
/// the path, its canonical form, the root's canonical form, and whether the
/// canonical file lies under the canonical root and is a file.  Only a
/// file inside the site is served.
pub fn request_verdict(found: bool, canonical: bool, root_canonical: bool, inside_file: bool) -> (r:
    Option<Refusal>)
    ensures
        r is None <==> found && canonical && root_canonical && inside_file,
        !found || !canonical ==> r == Some(Refusal::NotFound),
        found && canonical && !root_canonical ==> r == Some(Refusal::Failure),
        found && canonical && root_canonical && !inside_file ==> r == Some(Refusal::Forbidden),
{
    if !found || !canonical {
        Some(Refusal::NotFound)
    } else if !root_canonical {
        Some(Refusal::Failure)
    } else if !inside_file {
        Some(Refusal::Forbidden)
    } else {
        None
    }
}

/// The headers of a served file: its type, no sniffing, no caching.
pub fn file_headers(mime: String) -> (h: Vec<(String, String)>)
    ensures
        h@.len() == 3,
        h@[0].0@ == "Content-Type"@ && h@[0].1@ == mime@,
        h@[1].0@ == "X-Content-Type-Options"@ && h@[1].1@ == "nosniff"@,
        h@[2].0@ == "Cache-Control"@ && h@[2].1@ == "no-store"@,
{
    let mut h: Vec<(String, String)> = Vec::new();
    h.push((String::from_str("Content-Type"), mime));
    h.push((String::from_str("X-Content-Type-Options"), String::from_str("nosniff")));
    h.push((String::from_str("Cache-Control"), String::from_str("no-store")));
    h
}


/// The kinds of archive file names, by their ending (any ASCII case).
pub open spec fn archive_rank(name: Seq<char>) -> int {
    if ends_with(lower(name), ".wacz"@) {
        0
    } else if ends_with(lower(name), ".warc.gz"@) || ends_with(lower(name), ".warc"@) {
        1
    } else if ends_with(lower(name), ".zip"@) {
        2
    } else {
        3
    }
}

/// A WARC file name (`.warc` or `.warc.gz`, any ASCII case).
pub open spec fn warc_name(name: Seq<char>) -> bool {
    ends_with(lower(name), ".warc.gz"@) || ends_with(lower(name), ".warc"@)
}

/// Directory entries as names and a flag.
pub open spec fn entry_views(es: Seq<(String, bool)>) -> Seq<(Seq<char>, bool)> {
    es.map_values(|e: (String, bool)| (e.0@, e.1))
}

/// `x` is the name of a file among `es` whose archive kind is `rank`.
pub open spec fn top_candidate(es: Seq<(Seq<char>, bool)>, rank: int, x: Seq<char>) -> bool {
    exists|i: int| 0 <= i < es.len() && es[i].1 && es[i].0 == x && archive_rank(x) == rank
}

/// There is a file of archive kind `rank` among `es`.
pub open spec fn has_top(es: Seq<(Seq<char>, bool)>, rank: int) -> bool {
    exists|x: Seq<char>| top_candidate(es, rank, x)
}

/// `x` is the least (in name order) file of kind `rank` among `es`.
pub open spec fn least_top(es: Seq<(Seq<char>, bool)>, rank: int, x: Seq<char>) -> bool {
    top_candidate(es, rank, x) && forall|y: Seq<char>|
        top_candidate(es, rank, y) ==> lex_sign(x, y) <= 0
}

/// `x` is a WARC name among `ns`.
pub open spec fn nested_candidate(ns: Seq<Seq<char>>, x: Seq<char>) -> bool {
    ns.contains(x) && warc_name(x)
}

/// `x` is the least WARC name among `ns`.
pub open spec fn least_nested(ns: Seq<Seq<char>>, x: Seq<char>) -> bool {
    nested_candidate(ns, x) && forall|y: Seq<char>| nested_candidate(ns, y) ==> lex_sign(x, y) <= 0
}

/// The archive chosen in a collection directory.
#[derive(Debug)]
pub enum ArchivePick {
    /// The WACZ named after the directory, `<dir>/<dir>.wacz`.
    Named,
    /// A file of the directory, by name.
    Top(String),
    /// A file of the directory's `archive/` subdirectory, by name.
    Nested(String),
}

/// Whether the name of the entry `e` has archive kind `rank`.
fn has_rank(name: &str, rank: u8) -> (b: bool)
    requires
        rank < 3,
    ensures
        b == (archive_rank(name@) == rank),
{
    let r: u8 = if lower_ends_with(name, ".wacz") {
        0
    } else if lower_ends_with(name, ".warc.gz") || lower_ends_with(name, ".warc") {
        1
    } else if lower_ends_with(name, ".zip") {
        2
    } else {
        3
    };
    r == rank
}

/// The position of the least file of kind `rank` among `es`.
fn least_top_at(es: &Vec<(String, bool)>, rank: u8) -> (r: Option<usize>)
    requires
        rank < 3,
    ensures
        r matches Some(b) ==> b < es@.len() && least_top(entry_views(es@), rank as int, es@[b as int].0@),
        r is None ==> !has_top(entry_views(es@), rank as int),
{
    let ghost ev = entry_views(es@);
    let mut best: Option<usize> = None;
    let mut i: usize = 0;
    while i < es.len()
        invariant
            i <= es@.len(),
            ev == entry_views(es@),
            rank < 3,
            best matches Some(b) ==> b < i && ev[b as int].1 && archive_rank(ev[b as int].0)
                == rank && forall|j: int|
                0 <= j < i && ev[j].1 && archive_rank(ev[j].0) == rank ==> lex_sign(
                    ev[b as int].0,
                    #[trigger] ev[j].0,
                ) <= 0,
            best is None ==> forall|j: int|
                0 <= j < i ==> !(#[trigger] ev[j].1 && archive_rank(ev[j].0) == rank),
        decreases es@.len() - i,
    {
        if es[i].1 && has_rank(es[i].0.as_str(), rank) {
            let better = match best {
                None => true,
                Some(b) => lex_sign_exec(&chars_of(es[i].0.as_str()), &chars_of(es[b].0.as_str()))
                    < 0,
            };
            proof {
                match best {
                    Some(b) => {
                        lemma_lex_antisymmetric(ev[i as int].0, ev[b as int].0);
                        if better {
                            assert forall|j: int|
                                0 <= j < i && ev[j].1 && archive_rank(ev[j].0) == rank implies lex_sign(
                                ev[i as int].0,
                                #[trigger] ev[j].0,
                            ) <= 0 by {
                                lemma_lex_transitive(ev[i as int].0, ev[b as int].0, ev[j].0);
                            }
                        }
                    },
                    None => {},
                }
                lemma_lex_antisymmetric(ev[i as int].0, ev[i as int].0);
            }
            if better {
                best = Some(i);
            }
        }
        i = i + 1;
    }
    proof {
        match best {
            Some(b) => {
                assert(top_candidate(ev, rank as int, ev[b as int].0));
                assert forall|y: Seq<char>| top_candidate(ev, rank as int, y) implies lex_sign(
                    ev[b as int].0,
                    y,
                ) <= 0 by {
                    let j = choose|j: int|
                        0 <= j < ev.len() && ev[j].1 && ev[j].0 == y && archive_rank(y) == rank;
                    assert(ev[j].1 && archive_rank(ev[j].0) == rank);
                }
            },
            None => {
                assert forall|y: Seq<char>| !top_candidate(ev, rank as int, y) by {
                    if top_candidate(ev, rank as int, y) {
                        let j = choose|j: int|
                            0 <= j < ev.len() && ev[j].1 && ev[j].0 == y && archive_rank(y) == rank;
                        assert(!(ev[j].1 && archive_rank(ev[j].0) == rank));
                    }
                }
            },
        }
    }
    best
}


/// Whether a file name is a WARC (`.warc` or `.warc.gz`, any ASCII case).
pub fn is_warc_name(name: &str) -> (b: bool)
    ensures
        b == warc_name(name@),
{
    lower_ends_with(name, ".warc.gz") || lower_ends_with(name, ".warc")
}

/// The position of the least WARC name among `ns`.
fn least_nested_at(ns: &Vec<String>) -> (r: Option<usize>)
    ensures
        r matches Some(b) ==> b < ns@.len() && least_nested(texts(ns@), ns@[b as int]@),
        r is None ==> forall|x: Seq<char>| !nested_candidate(texts(ns@), x),
{
    let ghost nv = texts(ns@);
    let mut best: Option<usize> = None;
    let mut i: usize = 0;
    while i < ns.len()
        invariant
            i <= ns@.len(),
            nv == texts(ns@),
            best matches Some(b) ==> b < i && warc_name(nv[b as int]) && forall|j: int|
                0 <= j < i && warc_name(nv[j]) ==> lex_sign(nv[b as int], #[trigger] nv[j]) <= 0,
            best is None ==> forall|j: int| 0 <= j < i ==> !warc_name(#[trigger] nv[j]),
        decreases ns@.len() - i,
    {
        if is_warc_name(ns[i].as_str()) {
            let better = match best {
                None => true,
                Some(b) => lex_sign_exec(&chars_of(ns[i].as_str()), &chars_of(ns[b].as_str())) < 0,
            };
            proof {
                match best {
                    Some(b) => {
                        lemma_lex_antisymmetric(nv[i as int], nv[b as int]);
                        if better {
                            assert forall|j: int| 0 <= j < i && warc_name(nv[j]) implies lex_sign(
                                nv[i as int],
                                #[trigger] nv[j],
                            ) <= 0 by {
                                lemma_lex_transitive(nv[i as int], nv[b as int], nv[j]);
                            }
                        }
                    },
                    None => {},
                }
                lemma_lex_antisymmetric(nv[i as int], nv[i as int]);
            }
            if better {
                best = Some(i);
            }
        }
        i = i + 1;
    }
    proof {
        match best {
            Some(b) => {
                assert(nv.contains(nv[b as int]));
                assert forall|y: Seq<char>| nested_candidate(nv, y) implies lex_sign(
                    nv[b as int],
                    y,
                ) <= 0 by {
                    let j = choose|j: int| 0 <= j < nv.len() && nv[j] == y;
                    assert(warc_name(nv[j]));
                }
            },
            None => {
                assert forall|y: Seq<char>| !nested_candidate(nv, y) by {
                    if nested_candidate(nv, y) {
                        let j = choose|j: int| 0 <= j < nv.len() && nv[j] == y;
                        assert(!warc_name(nv[j]));
                    }
                }
            },
        }
    }
    best
}

/// The view of a chosen archive: 0 for the named WACZ, 1 for a file of the
/// directory, 2 for a file of `archive/`, with its name.
pub open spec fn pick_view(r: Option<ArchivePick>) -> Option<(int, Seq<char>)> {
    match r {
        Some(ArchivePick::Named) => Some((0, Seq::empty())),
        Some(ArchivePick::Top(x)) => Some((1, x@)),
        Some(ArchivePick::Nested(x)) => Some((2, x@)),
        None => None,
    }
}

/// `archive/` is a directory holding a WARC.
pub open spec fn has_nested(archive: Option<Seq<Seq<char>>>) -> bool {
    archive is Some && exists|x: Seq<char>| nested_candidate(archive->0, x)
}

proof fn lemma_has_nested(a: Option<Seq<Seq<char>>>, x: Seq<char>)
    requires
        a is Some,
        nested_candidate(a->0, x),
    ensures
        has_nested(a),
{
}

/// The choice of archive in a collection directory, in order of
/// preference: the WACZ named after the directory, the least WACZ file,
/// the least WARC of `archive/`, the least WARC file, the least zip file.
pub open spec fn archive_choice(
    named_is_file: bool,
    es: Seq<(Seq<char>, bool)>,
    archive: Option<Seq<Seq<char>>>,
    r: Option<(int, Seq<char>)>,
) -> bool {
    if named_is_file {
        r == Some((0int, Seq::<char>::empty()))
    } else if has_top(es, 0) {
        match r {
            Some((k, x)) => k == 1 && least_top(es, 0, x),
            _ => false,
        }
    } else if has_nested(archive) {
        match r {
            Some((k, x)) => k == 2 && least_nested(archive->0, x),
            _ => false,
        }
    } else if has_top(es, 1) {
        match r {
            Some((k, x)) => k == 1 && least_top(es, 1, x),
            _ => false,
        }
    } else if has_top(es, 2) {
        match r {
            Some((k, x)) => k == 1 && least_top(es, 2, x),
            _ => false,
        }
    } else {
        r is None
    }
}

/// The view of the listing of `archive/`.
pub open spec fn listing_view(archive: Option<Vec<String>>) -> Option<Seq<Seq<char>>> {
    match archive {
        Some(ns) => Some(texts(ns@)),
        None => None,
    }
}

/// The archive opened for a collection directory (see `archive_choice`):
/// `named_is_file` tells whether `<dir>/<dir>.wacz` is a file, `entries`
/// lists the directory (names, and whether each is a file), `archive`
/// lists `archive/` when it is a directory.
pub fn choose_archive(
    named_is_file: bool,
    entries: &Vec<(String, bool)>,
    archive: &Option<Vec<String>>,
) -> (r: Option<ArchivePick>)
    ensures
        archive_choice(named_is_file, entry_views(entries@), listing_view(*archive), pick_view(r)),
{
    if named_is_file {
        return Some(ArchivePick::Named);
    }
    if let Some(b) = least_top_at(entries, 0) {
        return Some(ArchivePick::Top(entries[b].0.clone()));
    }
    match archive {
        Some(ns) => {
            if let Some(b) = least_nested_at(ns) {
                assert(*archive == Some(*ns));
                assert(listing_view(*archive) == Some(texts(ns@)));
                assert(nested_candidate(texts(ns@), ns@[b as int]@));
                proof {
                    lemma_has_nested(listing_view(*archive), ns@[b as int]@);
                }
                return Some(ArchivePick::Nested(ns[b].clone()));
            }
        },
        None => {},
    }
    if let Some(b) = least_top_at(entries, 1) {
        return Some(ArchivePick::Top(entries[b].0.clone()));
    }
    if let Some(b) = least_top_at(entries, 2) {
        return Some(ArchivePick::Top(entries[b].0.clone()));
    }
    None
}

/// The name of the WACZ that a collection directory named `dir` holds.
pub fn collection_archive_name(dir: &str) -> (r: String)
    ensures
        r@ == dir@ + ".wacz"@,
{
    let mut r = String::from_str(dir);
    r.append(".wacz");
    r
}


/// An entry of an unpacked zip that does not count when looking for the
/// site: macOS metadata and hidden files.
pub open spec fn skipped_name(name: Seq<char>) -> bool {
    name == "__MACOSX"@ || name == ".DS_Store"@ || starts_with(name, "."@)
}

/// Whether an entry of an unpacked zip is ignored when looking for the site.
pub fn skip_name(name: &str) -> (b: bool)
    ensures
        b == skipped_name(name@),
{
    str_eq(name, "__MACOSX") || str_eq(name, ".DS_Store") || starts_with_exec(name, ".")
}

/// The entry pages of a site, in order of preference.
pub open spec fn entry_names() -> Seq<Seq<char>> {
    seq!["OUVRIR.html"@, "ouvrir.html"@, "index.html"@, "index.htm"@]
}

/// The first entry page present, by its position in `entry_names`.
pub open spec fn first_present(present: Seq<bool>, i: int) -> Option<int>
    decreases 4 - i,
{
    if i >= 4 || i < 0 {
        None
    } else if i < present.len() && present[i] {
        Some(i)
    } else {
        first_present(present, i + 1)
    }
}

/// The subdirectories among the entries that count (name, is a directory).
pub open spec fn counted_dirs(es: Seq<(Seq<char>, bool)>) -> Seq<Seq<char>>
    decreases es.len(),
{
    if es.len() == 0 {
        Seq::empty()
    } else if !skipped_name(es.last().0) && es.last().1 {
        counted_dirs(es.drop_last()).push(es.last().0)
    } else {
        counted_dirs(es.drop_last())
    }
}

/// The number of other entries that count.
pub open spec fn counted_files(es: Seq<(Seq<char>, bool)>) -> nat
    decreases es.len(),
{
    if es.len() == 0 {
        0
    } else if !skipped_name(es.last().0) && !es.last().1 {
        counted_files(es.drop_last()) + 1
    } else {
        counted_files(es.drop_last())
    }
}

/// Where the site of an unpacked pack is.
#[derive(Debug)]
pub enum SiteRoot {
    /// Here, with this entry page.
    Entry(String),
    /// In the single subdirectory that counts (a wrapper folder), given by
    /// its position among the entries.
    Descend(usize),
}

/// The view of a site root decision over the entries `es`.
pub open spec fn site_root_view(r: Result<SiteRoot, String>, es: Seq<(Seq<char>, bool)>) -> Result<
    (bool, Seq<char>),
    Seq<char>,
> {
    match r {
        Ok(SiteRoot::Entry(e)) => Ok((true, e@)),
        Ok(SiteRoot::Descend(i)) => Ok((false, es[i as int].0)),
        Err(e) => Err(e@),
    }
}

/// The entry pages of a site, in order of preference.
pub fn entry_pages() -> (r: Vec<String>)
    ensures
        r@.len() == 4,
        forall|j: int| 0 <= j < 4 ==> #[trigger] r@[j]@ == entry_names()[j],
{
    let mut r: Vec<String> = Vec::new();
    r.push(String::from_str("OUVRIR.html"));
    r.push(String::from_str("ouvrir.html"));
    r.push(String::from_str("index.html"));
    r.push(String::from_str("index.htm"));
    r
}

/// The site of an unpacked pack, given which entry pages are files here
/// (`present[i]` for `entry_names()[i]`) and the entries of the directory
/// (name, is a directory): the first entry page present; else, when the
/// only entry that counts is a directory, that directory; else an error.
pub open spec fn site_root_of(present: Seq<bool>, es: Seq<(Seq<char>, bool)>) -> Result<
    (bool, Seq<char>),
    Seq<char>,
> {
    match first_present(present, 0) {
        Some(i) => Ok((true, entry_names()[i])),
        None => if counted_dirs(es).len() == 1 && counted_files(es) == 0 {
            Ok((false, counted_dirs(es)[0]))
        } else {
            Err("Pas de OUVRIR.html ni index.html dans le zip."@)
        },
    }
}

/// Where the site of an unpacked pack is (see `site_root_of`).
pub fn site_root_step(present: &Vec<bool>, entries: &Vec<(String, bool)>) -> (r: Result<
    SiteRoot,
    String,
>)
    ensures
        site_root_view(r, entry_views(entries@)) == site_root_of(present@, entry_views(entries@)),
        r matches Ok(SiteRoot::Descend(i)) ==> i < entries@.len() && entries@[i as int].1
            && !skipped_name(entries@[i as int].0@),
{
    let names = entry_pages();
    let mut i: usize = 0;
    while i < 4
        invariant
            i <= 4,
            first_present(present@, 0) == first_present(present@, i as int),
            names@.len() == 4,
            forall|j: int| 0 <= j < 4 ==> #[trigger] names@[j]@ == entry_names()[j],
        decreases 4 - i,
    {
        if i < present.len() && present[i] {
            return Ok(SiteRoot::Entry(names[i].clone()));
        }
        i = i + 1;
    }
    let ghost ev = entry_views(entries@);
    let mut dirs: Vec<usize> = Vec::new();
    let mut files: usize = 0;
    let mut k: usize = 0;
    assert(ev.take(0) == Seq::<(Seq<char>, bool)>::empty());
    while k < entries.len()
        invariant
            k <= entries@.len(),
            ev == entry_views(entries@),
            files == counted_files(ev.take(k as int)),
            files <= k,
            dirs@.len() == counted_dirs(ev.take(k as int)).len(),
            forall|j: int|
                0 <= j < dirs@.len() ==> #[trigger] dirs@[j] < entries@.len() && entries@[dirs@[j] as int].0@
                    == counted_dirs(ev.take(k as int))[j] && entries@[dirs@[j] as int].1
                    && !skipped_name(entries@[dirs@[j] as int].0@),
        decreases entries@.len() - k,
    {
        proof {
            assert(ev.take(k + 1).drop_last() == ev.take(k as int));
            assert(ev.take(k + 1).last() == (entries@[k as int].0@, entries@[k as int].1));
        }
        if !skip_name(entries[k].0.as_str()) {
            if entries[k].1 {
                dirs.push(k);
            } else {
                files = files + 1;
            }
        }
        k = k + 1;
    }
    assert(ev.take(entries@.len() as int) == ev);
    if dirs.len() == 1 && files == 0 {
        Ok(SiteRoot::Descend(dirs[0]))
    } else {
        Err(String::from_str("Pas de OUVRIR.html ni index.html dans le zip."))
    }
}

/// What a path given to the player turned out to be.
#[derive(Clone, Copy, Debug, PartialEq, Eq, Structural)]
pub enum PathKind {
    File,
    Dir,
    Missing,
}

/// The archive a path stands for.
#[derive(Clone, Copy, Debug, PartialEq, Eq, Structural)]
pub enum Resolved {
    /// The path itself (a file).
    Given,
    /// The archive found in the directory.
    Found,
}

/// The archive that a path stands for: a file is itself; a directory
/// stands for the archive found in it (`found_in_dir`), if any; anything
/// else is missing.  `shown` is how the path is displayed in messages.
pub fn resolve_input(shown: &str, kind: PathKind, found_in_dir: bool) -> (r: Result<
    Resolved,
    String,
>)
    ensures
        kind == PathKind::File ==> r == Ok::<Resolved, String>(Resolved::Given),
        kind == PathKind::Dir && found_in_dir ==> r == Ok::<Resolved, String>(Resolved::Found),
        kind == PathKind::Dir && !found_in_dir ==> (r matches Err(e) && e@
            == "Pas de .wacz / .warc / .zip dans le dossier."@),
        kind == PathKind::Missing ==> (r matches Err(e) && e@ == shown@ + " introuvable."@),
{
    match kind {
        PathKind::File => Ok(Resolved::Given),
        PathKind::Dir => if found_in_dir {
            Ok(Resolved::Found)
        } else {
            Err(String::from_str("Pas de .wacz / .warc / .zip dans le dossier."))
        },
        PathKind::Missing => {
            let mut e = String::from_str(shown);
            e.append(" introuvable.");
            Err(e)
        },
    }
}


/// The kinds of web archive that can be unfolded into a site.
#[derive(Clone, Copy, Debug, PartialEq, Eq, Structural)]
pub enum ArchiveKind {
    /// A zipped collection holding WARC files.
    Wacz,
    /// A WARC file, possibly gzipped.
    Warc,
}

/// How a web archive is unfolded, by its name; other names are refused.
pub fn archive_kind(name: &str) -> (r: Result<ArchiveKind, String>)
    ensures
        ends_with(lower(name@), ".wacz"@) ==> r == Ok::<ArchiveKind, String>(ArchiveKind::Wacz),
        !ends_with(lower(name@), ".wacz"@) && warc_name(name@) ==> r == Ok::<ArchiveKind, String>(
            ArchiveKind::Warc,
        ),
        !ends_with(lower(name@), ".wacz"@) && !warc_name(name@) ==> (r matches Err(e) && e@
            == "Fichier .wacz ou .warc attendu."@),
{
    if lower_ends_with(name, ".wacz") {
        Ok(ArchiveKind::Wacz)
    } else if is_warc_name(name) {
        Ok(ArchiveKind::Warc)
    } else {
        Err(String::from_str("Fichier .wacz ou .warc attendu."))
    }
}

/// A page or style sheet whose links are rewritten: extension `html`,
/// `htm` or `css`, in any ASCII case.
pub open spec fn rewritable_name(name: Seq<char>) -> bool {
    match path_extension(name) {
        Some(e) => lower(e) == "html"@ || lower(e) == "htm"@ || lower(e) == "css"@,
        None => false,
    }
}

/// Whether the links of a file are rewritten, by its name.
pub fn is_rewritable(name: &str) -> (b: bool)
    ensures
        b == rewritable_name(name@),
{
    match file_extension(name) {
        Some(e) => {
            let v = chars_of(e.as_str());
            let low = text_of(&lower_window(&v, 0, v.len()));
            assert(v@.subrange(0, v@.len() as int) == v@);
            let l = low.as_str();
            str_eq(l, "html") || str_eq(l, "htm") || str_eq(l, "css")
        },
        None => false,
    }
}

/// The title of a pack: the stem of its file name, or `pack`.
pub fn pack_title(name: Option<&str>) -> (t: String)
    ensures
        name matches Some(n) ==> t@ == path_stem(n@),
        name is None ==> t@ == "pack"@,
{
    match name {
        Some(n) => file_stem(n),
        None => String::from_str("pack"),
    }
}

/// The title of a pack's window.
pub fn window_title(title: &str) -> (t: String)
    ensures
        t@ == "Taurus — "@ + title@,
{
    let mut t = String::from_str("Taurus — ");
    t.append(title);
    t
}

/// The label of the window of the pack opened as number `id`.
pub fn window_label(id: u64) -> (l: String)
    ensures
        l@ == "pack-"@ + dec(id as nat),
{
    let mut l = String::from_str("pack-");
    push_decimal(&mut l, id);
    l
}

/// The message shown for a dropped file that is not a pack.
pub fn not_a_pack_message(shown: &str) -> (m: String)
    ensures
        m@ == shown@ + " n’est pas un .zip / .wacz / .warc"@,
{
    let mut m = String::from_str(shown);
    m.append(" n’est pas un .zip / .wacz / .warc");
    m
}


/// Law: the choice of archive in a collection directory is determined: two
/// answers that both meet `archive_choice` are the same archive.
pub proof fn law_archive_choice_unique(
    named_is_file: bool,
    es: Seq<(Seq<char>, bool)>,
    archive: Option<Seq<Seq<char>>>,
    r1: Option<(int, Seq<char>)>,
    r2: Option<(int, Seq<char>)>,
)
    requires
        archive_choice(named_is_file, es, archive, r1),
        archive_choice(named_is_file, es, archive, r2),
    ensures
        r1 == r2,
{
    match (r1, r2) {
        (Some((k1, x1)), Some((k2, x2))) => {
            lemma_lex_antisymmetric(x1, x2);
        },
        _ => {},
    }
}

/// Law: every web archive name is a pack name.
pub proof fn law_web_archives_are_packs(name: Seq<char>)
    requires
        web_archive_name(name),
    ensures
        pack_file_name(name),
{
}


/// The positions of the WARC files among the files of an unpacked WACZ
/// (`names`), in order; an error when there is none.
pub fn warc_members(names: &Vec<String>) -> (r: Result<Vec<usize>, String>)
    ensures
        r is Err <==> forall|i: int| 0 <= i < names@.len() ==> !warc_name(#[trigger] names@[i]@),
        r matches Err(e) ==> e@ == "Pas de .warc dans le WACZ."@,
        r matches Ok(ix) ==> {
            &&& forall|t: int| 0 <= t < ix@.len() ==> (#[trigger] ix@[t]) < names@.len() && warc_name(
                names@[ix@[t] as int]@,
            )
            &&& forall|t: int, u: int| 0 <= t < u < ix@.len() ==> ix@[t] < ix@[u]
            &&& forall|i: int| 0 <= i < names@.len() && warc_name(#[trigger] names@[i]@) ==> ix@.contains(
                i as usize,
            )
        },
{
    let mut ix: Vec<usize> = Vec::new();
    let mut i: usize = 0;
    while i < names.len()
        invariant
            i <= names@.len(),
            forall|t: int| 0 <= t < ix@.len() ==> (#[trigger] ix@[t]) < i && warc_name(
                names@[ix@[t] as int]@,
            ),
            forall|t: int, u: int| 0 <= t < u < ix@.len() ==> ix@[t] < ix@[u],
            forall|j: int| 0 <= j < i && warc_name(#[trigger] names@[j]@) ==> ix@.contains(j as usize),
        decreases names@.len() - i,
    {
        if is_warc_name(names[i].as_str()) {
            let ghost old_ix = ix@;
            ix.push(i);
            assert forall|j: int| 0 <= j < i + 1 && warc_name(#[trigger] names@[j]@) implies ix@.contains(
                j as usize,
            ) by {
                if j < i {
                    let t = choose|t: int| 0 <= t < old_ix.len() && old_ix[t] == j as usize;
                    assert(ix@[t] == j as usize);
                } else {
                    assert(ix@[old_ix.len() as int] == j as usize);
                }
            }
        }
        i = i + 1;
    }
    if ix.len() == 0 {
        assert forall|j: int| 0 <= j < names@.len() implies !warc_name(#[trigger] names@[j]@) by {
            if warc_name(names@[j]@) {
                assert(ix@.contains(j as usize));
            }
        }
        return Err(String::from_str("Pas de .warc dans le WACZ."));
    }
    assert(warc_name(names@[ix@[0] as int]@));
    Ok(ix)
}


/// Law: the entry page of a site is the first one present in the order
/// `OUVRIR.html`, `ouvrir.html`, `index.html`, `index.htm`; only without
/// any of them is a wrapper folder looked for.
pub proof fn law_entry_page_order(present: Seq<bool>, es: Seq<(Seq<char>, bool)>)
    ensures
        present.len() > 0 && present[0] ==> site_root_of(present, es) == Ok::<
            (bool, Seq<char>),
            Seq<char>,
        >((true, "OUVRIR.html"@)),
        present.len() > 1 && !present[0] && present[1] ==> site_root_of(present, es) == Ok::<
            (bool, Seq<char>),
            Seq<char>,
        >((true, "ouvrir.html"@)),
        present.len() > 2 && !present[0] && !present[1] && present[2] ==> site_root_of(present, es)
            == Ok::<(bool, Seq<char>), Seq<char>>((true, "index.html"@)),
        present.len() > 3 && !present[0] && !present[1] && !present[2] && present[3]
            ==> site_root_of(present, es) == Ok::<(bool, Seq<char>), Seq<char>>(
            (true, "index.htm"@),
        ),
        (forall|i: int| 0 <= i < 4 && i < present.len() ==> !present[i]) ==> !(site_root_of(
            present,
            es,
        ) matches Ok((true, _))),
{
    reveal_with_fuel(first_present, 5);
    let f = first_present(present, 0);
    assert(f == first_present(present, 0));
}

/// Law: the extension of a name `stem.ext`, where `stem` is not empty and
/// `ext` is not empty and holds no `.`, is `ext`, and its stem is `stem`
/// (the last `.` splits a name).
pub proof fn law_extension_of(stem: Seq<char>, ext: Seq<char>)
    requires
        stem.len() > 0,
        ext.len() > 0,
        !ext.contains('.'),
    ensures
        path_extension(stem + seq!['.'] + ext) == Some(ext),
        path_stem(stem + seq!['.'] + ext) == stem,
{
    let name = stem + seq!['.'] + ext;
    let k = stem.len() as int;
    assert(name.subrange(k, k + 1) == seq!['.']);
    assert forall|j: int| k < j implies !crate::text::occurs_at(name, seq!['.'], j) by {
        if crate::text::occurs_at(name, seq!['.'], j) {
            assert(name.subrange(j, j + 1)[0] == name[j]);
            assert(name[j] == ext[j - k - 1]);
            assert(ext.contains('.'));
        }
    }
    crate::text::lemma_rfind_unique(name, seq!['.'], k);
    assert(name.skip(k + 1) == ext);
    assert(name.take(k) == stem);
    reveal_strlit("..");
    assert(name.len() != ".."@.len());
}

/// Law: the files whose links are rewritten are exactly those whose
/// extension, ASCII lower-cased, is `html`, `htm` or `css`; so every page
/// `NAME.html`, `NAME.htm` (any case) and style sheet `NAME.css` is, and a
/// `NAME.txt` is not.
pub proof fn law_rewritable_names(name: Seq<char>, stem: Seq<char>)
    ensures
        rewritable_name(name) <==> (path_extension(name) matches Some(e) && (lower(e) == "html"@
            || lower(e) == "htm"@ || lower(e) == "css"@)),
        stem.len() > 0 ==> rewritable_name(stem + ".html"@),
        stem.len() > 0 ==> rewritable_name(stem + ".HTML"@),
        stem.len() > 0 ==> rewritable_name(stem + ".htm"@),
        stem.len() > 0 ==> rewritable_name(stem + ".css"@),
        stem.len() > 0 ==> !rewritable_name(stem + ".txt"@),
{
    reveal_strlit("html");
    reveal_strlit("htm");
    reveal_strlit("css");
    reveal_strlit(".html");
    reveal_strlit(".HTML");
    reveal_strlit(".htm");
    reveal_strlit(".css");
    reveal_strlit(".txt");
    if stem.len() > 0 {
        let exts = seq!["html"@, "HTML"@, "htm"@, "css"@, "txt"@];
        reveal_strlit("HTML");
        reveal_strlit("txt");
        assert forall|t: int| 0 <= t < 5 implies path_extension(stem + seq!['.'] + #[trigger] exts[t])
            == Some(exts[t]) by {
            let e = exts[t];
            assert(!e.contains('.')) by {
                if e.contains('.') {
                    let j = choose|j: int| 0 <= j < e.len() && e[j] == '.';
                }
            }
            law_extension_of(stem, e);
        }
        assert(stem + ".html"@ == stem + seq!['.'] + exts[0]);
        assert(stem + ".HTML"@ == stem + seq!['.'] + exts[1]);
        assert(stem + ".htm"@ == stem + seq!['.'] + exts[2]);
        assert(stem + ".css"@ == stem + seq!['.'] + exts[3]);
        assert(stem + ".txt"@ == stem + seq!['.'] + exts[4]);
        assert(lower("HTML"@) == "html"@);
        assert(lower("html"@) == "html"@);
        assert(lower("htm"@) == "htm"@);
        assert(lower("css"@) == "css"@);
        assert(lower("txt"@).len() == 3 && lower("txt"@)[0] == 't');
    }
}

/// A WACZ name (`.wacz`, any ASCII case).
pub open spec fn wacz_name(name: Seq<char>) -> bool {
    ends_with(lower(name), ".wacz"@)
}

/// A zip name (`.zip`, any ASCII case).
pub open spec fn zip_name(name: Seq<char>) -> bool {
    ends_with(lower(name), ".zip"@)
}

/// The kinds of archive, by their ending: 0 a WACZ, 1 a WARC, 2 a zip.
pub open spec fn of_kind(name: Seq<char>, kind: int) -> bool {
    if kind == 0 {
        wacz_name(name)
    } else if kind == 1 {
        warc_name(name)
    } else {
        kind == 2 && zip_name(name)
    }
}

/// `x` is the name of a file among `es` of kind `kind`.
pub open spec fn kind_file(es: Seq<(Seq<char>, bool)>, x: Seq<char>, kind: int) -> bool {
    exists|i: int| 0 <= i < es.len() && es[i].1 && es[i].0 == x && of_kind(x, kind)
}

/// `x` is the least (in name order) file of kind `kind` among `es`.
pub open spec fn least_kind_file(es: Seq<(Seq<char>, bool)>, x: Seq<char>, kind: int) -> bool {
    kind_file(es, x, kind) && forall|y: Seq<char>| #[trigger] kind_file(es, y, kind) ==> lex_sign(x, y) <= 0
}

/// `archive/` lists a WARC.
pub open spec fn nested_warc(archive: Option<Seq<Seq<char>>>) -> bool {
    archive matches Some(ns) && exists|w: Seq<char>| ns.contains(w) && #[trigger] warc_name(w)
}

/// The characters at the end of a string that ends with `suffix`.
proof fn lemma_ending_char(s: Seq<char>, suffix: Seq<char>, i: int)
    requires
        ends_with(s, suffix),
        0 <= i < suffix.len(),
    ensures
        s[s.len() - suffix.len() + i] == suffix[i],
{
    assert(s.skip(s.len() - suffix.len())[i] == s[s.len() - suffix.len() + i]);
}

/// The kinds of archive names are told apart by their endings alone.
proof fn lemma_rank_by_ending(x: Seq<char>)
    ensures
        archive_rank(x) == 0 <==> of_kind(x, 0),
        archive_rank(x) == 1 <==> of_kind(x, 1),
        archive_rank(x) == 2 <==> of_kind(x, 2),
{
    let l = lower(x);
    reveal_strlit(".wacz");
    reveal_strlit(".warc");
    reveal_strlit(".warc.gz");
    reveal_strlit(".zip");
    if ends_with(l, ".wacz"@) {
        lemma_ending_char(l, ".wacz"@, 4);
        lemma_ending_char(l, ".wacz"@, 3);
        if ends_with(l, ".warc"@) {
            lemma_ending_char(l, ".warc"@, 4);
        }
        if ends_with(l, ".warc.gz"@) {
            lemma_ending_char(l, ".warc.gz"@, 6);
        }
    }
    if ends_with(l, ".zip"@) {
        lemma_ending_char(l, ".zip"@, 3);
        if ends_with(l, ".warc"@) {
            lemma_ending_char(l, ".warc"@, 4);
        }
        if ends_with(l, ".warc.gz"@) {
            lemma_ending_char(l, ".warc.gz"@, 7);
        }
    }
}

/// A file of a kind is a top candidate of the matching rank.
proof fn lemma_kind_file_rank(es: Seq<(Seq<char>, bool)>, k: int)
    requires
        0 <= k <= 2,
    ensures
        forall|x: Seq<char>| #[trigger] kind_file(es, x, k) <==> top_candidate(es, k, x),
        has_top(es, k) <==> exists|x: Seq<char>| #[trigger] kind_file(es, x, k),
        forall|x: Seq<char>| #[trigger] least_kind_file(es, x, k) <==> least_top(es, k, x),
{
    assert forall|x: Seq<char>| #[trigger] kind_file(es, x, k) <==> top_candidate(es, k, x) by {
        lemma_rank_by_ending(x);
        if kind_file(es, x, k) {
            let i = choose|i: int| 0 <= i < es.len() && es[i].1 && es[i].0 == x && of_kind(x, k);
            assert(top_candidate(es, k, x));
        }
        if top_candidate(es, k, x) {
            let i = choose|i: int| 0 <= i < es.len() && es[i].1 && es[i].0 == x && archive_rank(x) == k;
            assert(kind_file(es, x, k));
        }
    }
    if has_top(es, k) {
        let x = choose|x: Seq<char>| top_candidate(es, k, x);
        assert(kind_file(es, x, k));
    }
    if exists|x: Seq<char>| #[trigger] kind_file(es, x, k) {
        let x = choose|x: Seq<char>| #[trigger] kind_file(es, x, k);
        assert(top_candidate(es, k, x));
    }
    assert forall|x: Seq<char>| #[trigger] least_kind_file(es, x, k) <==> least_top(es, k, x) by {
        if least_kind_file(es, x, k) {
            assert forall|y: Seq<char>| top_candidate(es, k, y) implies lex_sign(x, y) <= 0 by {
                assert(kind_file(es, y, k));
            }
        }
        if least_top(es, k, x) {
            assert forall|y: Seq<char>| #[trigger] kind_file(es, y, k) implies lex_sign(x, y) <= 0 by {
                assert(top_candidate(es, k, y));
            }
        }
    }
}

/// Law: the archive opened in a collection directory, in order of
/// preference: the WACZ named after the directory; else the least `.wacz`
/// file; else the least `.warc`/`.warc.gz` of `archive/`; else the least
/// `.warc`/`.warc.gz` file; else the least `.zip` file; else none (names in
/// any ASCII case, least in name order).
pub proof fn law_archive_preference(
    named_is_file: bool,
    es: Seq<(Seq<char>, bool)>,
    archive: Option<Seq<Seq<char>>>,
    r: Option<(int, Seq<char>)>,
)
    requires
        archive_choice(named_is_file, es, archive, r),
    ensures
        named_is_file ==> r == Some((0int, Seq::<char>::empty())),
        !named_is_file && (exists|w: Seq<char>| #[trigger] kind_file(es, w, 0)) ==> (r matches Some(
            (k, x),
        ) && k == 1 && least_kind_file(es, x, 0)),
        !named_is_file && !(exists|w: Seq<char>| #[trigger] kind_file(es, w, 0)) && nested_warc(
            archive,
        ) ==> (r matches Some((k, x)) && k == 2 && archive->0.contains(x) && warc_name(x) && forall|
            y: Seq<char>,
        | archive->0.contains(y) && #[trigger] warc_name(y) ==> lex_sign(x, y) <= 0),
        !named_is_file && !(exists|w: Seq<char>| #[trigger] kind_file(es, w, 0)) && !nested_warc(
            archive,
        ) && (exists|w: Seq<char>| #[trigger] kind_file(es, w, 1)) ==> (r matches Some((k, x)) && k
            == 1 && least_kind_file(es, x, 1)),
        !named_is_file && !(exists|w: Seq<char>| #[trigger] kind_file(es, w, 0)) && !nested_warc(
            archive,
        ) && !(exists|w: Seq<char>| #[trigger] kind_file(es, w, 1)) && (exists|w: Seq<char>|
            #[trigger] kind_file(es, w, 2)) ==> (r matches Some((k, x)) && k == 1 && least_kind_file(
            es,
            x,
            2,
        )),
        !named_is_file && !(exists|w: Seq<char>| #[trigger] kind_file(es, w, 0)) && !nested_warc(
            archive,
        ) && !(exists|w: Seq<char>| #[trigger] kind_file(es, w, 1)) && !(exists|w: Seq<char>|
            #[trigger] kind_file(es, w, 2)) ==> r is None,
{
    lemma_kind_file_rank(es, 0);
    lemma_kind_file_rank(es, 1);
    lemma_kind_file_rank(es, 2);
    if archive is Some {
        let ns = archive->0;
        if nested_warc(archive) {
            let w = choose|w: Seq<char>| ns.contains(w) && #[trigger] warc_name(w);
            assert(nested_candidate(ns, w));
        }
        if has_nested(archive) {
            let w = choose|w: Seq<char>| nested_candidate(ns, w);
            assert(ns.contains(w) && warc_name(w));
        }
        if !named_is_file && !(exists|w: Seq<char>| #[trigger] kind_file(es, w, 0)) && nested_warc(
            archive,
        ) {
            let pr = r->0;
            let x = pr.1;
            assert forall|y: Seq<char>| ns.contains(y) && #[trigger] warc_name(y) implies lex_sign(
                x,
                y,
            ) <= 0 by {
                assert(nested_candidate(ns, y));
            }
        }
    }
}


/// No entry counts when every entry is a skipped name.
proof fn lemma_none_counted(es: Seq<(Seq<char>, bool)>)
    ensures
        (counted_dirs(es).len() == 0 && counted_files(es) == 0) <==> forall|j: int|
            0 <= j < es.len() ==> skipped_name(#[trigger] es[j].0),
    decreases es.len(),
{
    if es.len() > 0 {
        let init = es.drop_last();
        lemma_none_counted(init);
        assert forall|j: int| 0 <= j < init.len() implies #[trigger] init[j] == es[j] by {}
        if forall|j: int| 0 <= j < es.len() ==> skipped_name(#[trigger] es[j].0) {
            assert forall|j: int| 0 <= j < init.len() implies skipped_name(#[trigger] init[j].0) by {
                assert(init[j] == es[j]);
            }
            assert(skipped_name(es[es.len() - 1].0));
        }
        if counted_dirs(es).len() == 0 && counted_files(es) == 0 {
            assert(skipped_name(es.last().0));
            assert forall|j: int| 0 <= j < es.len() implies skipped_name(#[trigger] es[j].0) by {
                if j < init.len() {
                    assert(init[j] == es[j]);
                }
            }
        }
    }
}

/// The entries hold exactly one that counts, a directory.
pub open spec fn single_dir(es: Seq<(Seq<char>, bool)>, i: int) -> bool {
    &&& 0 <= i < es.len()
    &&& es[i].1
    &&& !skipped_name(es[i].0)
    &&& forall|j: int| 0 <= j < es.len() && j != i ==> skipped_name(#[trigger] es[j].0)
}

proof fn lemma_single_dir(es: Seq<(Seq<char>, bool)>)
    ensures
        (counted_dirs(es).len() == 1 && counted_files(es) == 0) <==> exists|i: int|
            #[trigger] single_dir(es, i),
        forall|i: int| #[trigger] single_dir(es, i) ==> counted_dirs(es) == seq![es[i].0],
    decreases es.len(),
{
    if es.len() > 0 {
        let init = es.drop_last();
        let n = es.len() - 1;
        lemma_single_dir(init);
        lemma_none_counted(init);
        let l = es.last();
        if skipped_name(l.0) {
            assert(counted_dirs(es) == counted_dirs(init));
            assert(counted_files(es) == counted_files(init));
            assert forall|i: int| #[trigger] single_dir(es, i) <==> single_dir(init, i) by {
                if single_dir(es, i) {
                    assert(i != n);
                    assert forall|j: int| 0 <= j < init.len() && j != i implies skipped_name(
                        #[trigger] init[j].0,
                    ) by {
                        assert(init[j] == es[j]);
                    }
                }
                if single_dir(init, i) {
                    assert(init[i] == es[i]);
                    assert forall|j: int| 0 <= j < es.len() && j != i implies skipped_name(
                        #[trigger] es[j].0,
                    ) by {
                        if j < n {
                            assert(init[j] == es[j]);
                        }
                    }
                }
            }
            if exists|i: int| #[trigger] single_dir(init, i) {
                let i = choose|i: int| #[trigger] single_dir(init, i);
                assert(single_dir(es, i));
            }
            if exists|i: int| #[trigger] single_dir(es, i) {
                let i = choose|i: int| #[trigger] single_dir(es, i);
                assert(single_dir(init, i));
            }
        } else if !l.1 {
            assert(counted_files(es) > 0);
            assert forall|i: int| !#[trigger] single_dir(es, i) by {
                if single_dir(es, i) {
                    if i != n {
                        assert(skipped_name(es[n].0));
                    }
                }
            }
        } else {
            assert(counted_dirs(es) == counted_dirs(init).push(l.0));
            assert(counted_files(es) == counted_files(init));
            assert forall|i: int| #[trigger] single_dir(es, i) <==> (i == n && forall|j: int|
                0 <= j < init.len() ==> skipped_name(#[trigger] init[j].0)) by {
                if single_dir(es, i) {
                    if i != n {
                        assert(skipped_name(es[n].0));
                    }
                    assert forall|j: int| 0 <= j < init.len() implies skipped_name(#[trigger] init[j].0) by {
                        assert(init[j] == es[j]);
                    }
                }
                if i == n && forall|j: int| 0 <= j < init.len() ==> skipped_name(#[trigger] init[j].0) {
                    assert forall|j: int| 0 <= j < es.len() && j != i implies skipped_name(
                        #[trigger] es[j].0,
                    ) by {
                        assert(init[j] == es[j]);
                    }
                }
            }
            if counted_dirs(es).len() == 1 && counted_files(es) == 0 {
                assert(single_dir(es, n));
            }
            if exists|i: int| #[trigger] single_dir(es, i) {
                let i = choose|i: int| #[trigger] single_dir(es, i);
                assert(i == n);
                assert(counted_dirs(init).len() == 0);
                assert(counted_dirs(es) == seq![es[i].0]);
            }
        }
    }
}

/// Law: with no entry page, the site is the one directory that counts
/// when it is the only entry that counts (a wrapper folder; macOS metadata
/// and hidden entries do not count); in every other case the pack is
/// refused.
pub proof fn law_wrapper_folder(present: Seq<bool>, es: Seq<(Seq<char>, bool)>)
    requires
        forall|i: int| 0 <= i < 4 && i < present.len() ==> !present[i],
    ensures
        forall|i: int| #[trigger] single_dir(es, i) ==> site_root_of(present, es) == Ok::<
            (bool, Seq<char>),
            Seq<char>,
        >((false, es[i].0)),
        !(exists|i: int| #[trigger] single_dir(es, i)) ==> site_root_of(present, es) == Err::<
            (bool, Seq<char>),
            Seq<char>,
        >("Pas de OUVRIR.html ni index.html dans le zip."@),
{
    reveal_with_fuel(first_present, 5);
    assert(first_present(present, 0) is None);
    lemma_single_dir(es);
}

} // verus!
