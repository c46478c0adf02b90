//! Rewriting of extracted pages so that they work offline: links to the
//! archived origins become site-relative, and figure URLs point into the
//! local `figures/` directory.

use vstd::prelude::*;
use vstd::string::StringExecFns;

use vstd::utf8::encode_utf8;

use crate::text::{
    chars_of, copy_window, find, find_in, in_class, lemma_find, lemma_rfind, occurs_at, occurs_at_exec,
    push_range, rfind, rfind_in, str_eq, rrun, run, skip_run, skip_run_back, text_of, texts, Class,
};

verus! {

/// The marker of a figure URL, `/Figures/`.
pub open spec fn figures_marker() -> Seq<char> {
    seq!['/', 'F', 'i', 'g', 'u', 'r', 'e', 's', '/']
}

/// Where the URL that ends `before` starts: after the last quote, white
/// space, `<` or `>`.
pub open spec fn url_start(before: Seq<char>) -> int {
    before.len() - rrun(before, Class::UrlBreak)
}

/// The later of two positions, where there is one.
pub open spec fn later(a: Option<int>, b: Option<int>) -> Option<int> {
    match (a, b) {
        (Some(x), Some(y)) => Some(if x < y { y } else { x }),
        (Some(x), None) => Some(x),
        (None, _) => b,
    }
}

/// The position of the scheme that a figure URL ending in `before` starts
/// with: the nearest `http://` or `https://` before the end, with no quote,
/// white space, `<` or `>` in between.
#[verifier::opaque]
pub open spec fn figure_scheme(before: Seq<char>) -> Option<int> {
    let s = url_start(before);
    let token = before.skip(s);
    match later(rfind(token, "https://"@), rfind(token, "http://"@)) {
        Some(k) => Some(s + k),
        None => None,
    }
}

/// `html` with every URL `http(s)://…/Figures/NAME` replaced by
/// `figures/NAME`, where NAME runs up to a quote, space, `)`, `<`, `>`, `?`
/// or `#`.  A `/Figures/` that no URL scheme leads up to (since the
/// previous replacement, with no quote, white space, `<` or `>` in between)
/// is kept.
pub open spec fn rewrite_figures(html: Seq<char>) -> Seq<char>
    decreases html.len(),
{
    match find(html, figures_marker()) {
        None => html,
        Some(idx) => {
            proof {
                lemma_find(html, figures_marker());
            }
            let before = html.take(idx);
            let after = html.skip(idx + 9);
            match figure_scheme(before) {
                Some(k) => {
                    let end = run(after, Class::UrlEnd);
                    proof {
                        crate::text::lemma_run_bound(after, Class::UrlEnd);
                    }
                    before.take(k) + "figures/"@ + after.take(end as int) + rewrite_figures(
                        after.skip(end as int),
                    )
                },
                None => html.take(idx + 9) + rewrite_figures(after),
            }
        },
    }
}

/// `figure_scheme` of the window `v[lo..hi]`.
fn figure_scheme_at(v: &Vec<char>, lo: usize, hi: usize) -> (r: Option<usize>)
    requires
        lo <= hi <= v@.len(),
    ensures
        r matches Some(k) ==> k <= hi - lo && figure_scheme(v@.subrange(lo as int, hi as int))
            == Some(k as int),
        r is None ==> figure_scheme(v@.subrange(lo as int, hi as int)) is None,
{
    let ghost before = v@.subrange(lo as int, hi as int);
    reveal(figure_scheme);
    let https = chars_of("https://");
    let http = chars_of("http://");
    let ts = skip_run_back(v, lo, hi, Class::UrlBreak);
    let ghost token = before.skip(ts - lo);
    assert(token == v@.subrange(ts as int, hi as int));
    let hs = rfind_in(v, ts, hi, &https);
    let h = rfind_in(v, ts, hi, &http);
    proof {
        lemma_rfind(token, "https://"@);
        lemma_rfind(token, "http://"@);
    }
    match (hs, h) {
        (Some(a), Some(b)) => Some(ts - lo + if a < b { b } else { a }),
        (Some(a), None) => Some(ts - lo + a),
        (None, Some(b)) => Some(ts - lo + b),
        (None, None) => None,
    }
}

/// Law: the figure rewrite keeps the text before a figure URL.  For the
/// first `/Figures/` of `html`, all of `html` up to the last quote, white
/// space, `<` or `>` before it starts the result unchanged; a URL that is
/// replaced starts after that point and holds none of those characters.
pub proof fn law_figure_keeps_text_before(html: Seq<char>)
    ensures
        find(html, figures_marker()) matches Some(idx) ==> {
            let before = html.take(idx);
            &&& html.take(url_start(before)).is_prefix_of(rewrite_figures(html))
            &&& figure_scheme(before) matches Some(k) ==> url_start(before) <= k <= idx && forall|
                j: int,
            | k <= j < idx ==> !in_class(Class::UrlBreak, #[trigger] html[j])
        },
{
    lemma_find(html, figures_marker());
    match find(html, figures_marker()) {
        Some(idx) => {
            let before = html.take(idx);
            let st = url_start(before);
            crate::text::lemma_rrun(before, Class::UrlBreak);
            let out = rewrite_figures(html);
            reveal(figure_scheme);
            let token = before.skip(st);
            lemma_rfind(token, "https://"@);
            lemma_rfind(token, "http://"@);
            match figure_scheme(before) {
                Some(k) => {
                    assert(st <= k <= idx);
                    assert(out.subrange(0, st) == html.take(st)) by {
                        assert(out.subrange(0, st) == before.take(k).subrange(0, st));
                    }
                    assert forall|j: int| k <= j < idx implies !in_class(
                        Class::UrlBreak,
                        #[trigger] html[j],
                    ) by {
                        assert(html[j] == before[j]);
                    }
                },
                None => {
                    assert(out.subrange(0, st) == html.take(st)) by {
                        assert(out.subrange(0, st) == html.take(idx + 9).subrange(0, st));
                    }
                },
            }
        },
        None => {},
    }
}

/// Replaces CloudFront figure URLs `…/Figures/NAME` by `figures/NAME`.
pub fn rewrite_cloudfront_src(html: &str) -> (out: String)
    ensures
        out@ == rewrite_figures(html@),
{
    let v = chars_of(html);
    let n = v.len();
    let marker: Vec<char> = vec!['/', 'F', 'i', 'g', 'u', 'r', 'e', 's', '/'];
    assert(marker@ == figures_marker());
    let mut out = String::new();
    let mut pos: usize = 0;
    assert(v@.subrange(0, n as int) == html@);
    loop
        invariant
            pos <= n == v@.len(),
            marker@ == figures_marker(),
            rewrite_figures(html@) == out@ + rewrite_figures(v@.subrange(pos as int, n as int)),
        decreases n - pos,
    {
        let ghost rest = v@.subrange(pos as int, n as int);
        match find_in(&v, pos, n, &marker) {
            None => {
                push_range(&mut out, &v, pos, n);
                return out;
            },
            Some(i) => {
                proof {
                    lemma_find(rest, figures_marker());
                }
                let idx = pos + i;
                let ghost before = rest.take(i as int);
                let ghost after = rest.skip(i + 9);
                assert(before == v@.subrange(pos as int, idx as int));
                assert(after == v@.subrange(idx + 9, n as int));
                let scheme = figure_scheme_at(&v, pos, idx);
                assert(scheme matches Some(k) ==> k <= i && figure_scheme(before) == Some(k as int));
                assert(scheme is None ==> figure_scheme(before) is None);
                match scheme {
                    Some(k) => {
                        let a = idx + 9;
                        let e = skip_run(&v, a, n, Class::UrlEnd);
                        push_range(&mut out, &v, pos, pos + k);
                        out.append("figures/");
                        push_range(&mut out, &v, a, e);
                        assert(before.take(k as int) == v@.subrange(pos as int, pos + k));
                        assert(after.take(e - a) == v@.subrange(a as int, e as int));
                        assert(after.skip(e - a) == v@.subrange(e as int, n as int));
                        pos = e;
                    },
                    None => {
                        push_range(&mut out, &v, pos, idx + 9);
                        assert(rest.take(i + 9) == v@.subrange(pos as int, idx + 9));
                        pos = idx + 9;
                    },
                }
            },
        }
    }
}


/// `s` with every occurrence of `pat` removed, left to right and without
/// overlap (`str::replace(pat, "")`); an empty `pat` changes nothing.
pub open spec fn remove_all(s: Seq<char>, pat: Seq<char>) -> Seq<char>
    decreases s.len(),
{
    if pat.len() == 0 || s.len() < pat.len() {
        s
    } else if s.take(pat.len() as int) == pat {
        remove_all(s.skip(pat.len() as int), pat)
    } else {
        seq![s[0]] + remove_all(s.drop_first(), pat)
    }
}

/// The host part of an origin `scheme://host`.
pub open spec fn host_of(origin: Seq<char>) -> Option<Seq<char>> {
    match find(origin, crate::uri::scheme_sep()) {
        Some(i) => Some(origin.skip(i + 3)),
        None => None,
    }
}

/// `s` without the origin `o` and without its scheme-relative form `//host`.
pub open spec fn strip_origin(s: Seq<char>, o: Seq<char>) -> Seq<char> {
    let s1 = remove_all(s, o);
    match host_of(o) {
        Some(h) => remove_all(s1, seq!['/', '/'] + h),
        None => s1,
    }
}

/// The length of a string in UTF-8 bytes, as `str::len` reports it.
pub open spec fn byte_len(o: Seq<char>) -> usize {
    encode_utf8(o).len() as usize
}

/// The position before which `x` goes in `sorted` when ordering by
/// decreasing byte length: before the first element no longer than `x`.
pub open spec fn slot(sorted: Seq<Seq<char>>, x: Seq<char>) -> int
    decreases sorted.len(),
{
    if sorted.len() == 0 || byte_len(sorted[0]) <= byte_len(x) {
        0
    } else {
        1 + slot(sorted.drop_first(), x)
    }
}

/// The origins ordered by decreasing byte length, equally long ones in
/// their given order (a stable `sort_by_key(Reverse(len))`).
pub open spec fn by_len_desc(os: Seq<Seq<char>>) -> Seq<Seq<char>>
    decreases os.len(),
{
    if os.len() == 0 {
        Seq::empty()
    } else {
        let rest = by_len_desc(os.drop_first());
        rest.insert(slot(rest, os[0]), os[0])
    }
}

/// `s` with each origin of `os` stripped in turn.
pub open spec fn strip_all(s: Seq<char>, os: Seq<Seq<char>>) -> Seq<char>
    decreases os.len(),
{
    if os.len() == 0 {
        s
    } else {
        strip_all(strip_origin(s, os[0]), os.drop_first())
    }
}

/// A page with the absolute links into its archived origins made
/// site-relative: longer origins first, so that no origin is cut by a
/// shorter one that is its prefix.
pub open spec fn rewrite_links(html: Seq<char>, origins: Seq<Seq<char>>) -> Seq<char> {
    strip_all(html, by_len_desc(origins))
}

pub proof fn lemma_slot_bound(sorted: Seq<Seq<char>>, x: Seq<char>)
    ensures
        0 <= slot(sorted, x) <= sorted.len(),
    decreases sorted.len(),
{
    if sorted.len() > 0 && byte_len(sorted[0]) > byte_len(x) {
        lemma_slot_bound(sorted.drop_first(), x);
    }
}

/// `s` with every occurrence of `pat` removed.
fn remove_all_exec(s: &Vec<char>, pat: &Vec<char>) -> (r: Vec<char>)
    ensures
        r@ == remove_all(s@, pat@),
{
    let n = s.len();
    let m = pat.len();
    let mut out: Vec<char> = Vec::new();
    if m == 0 {
        return copy_window(s, 0, n);
    }
    let mut i: usize = 0;
    assert(s@.skip(0) == s@);
    while i < n
        invariant
            i <= n == s@.len(),
            m == pat@.len(),
            m > 0,
            remove_all(s@, pat@) == out@ + remove_all(s@.skip(i as int), pat@),
        decreases n - i,
    {
        let ghost rest = s@.skip(i as int);
        if occurs_at_exec(s, pat, i) {
            assert(rest.take(m as int) == s@.subrange(i as int, i + m));
            assert(rest.skip(m as int) == s@.skip(i + m));
            i = i + m;
        } else {
            proof {
                if rest.len() >= m {
                    assert(rest.take(m as int) == s@.subrange(i as int, i + m));
                }
            }
            assert(rest.drop_first() == s@.skip(i + 1));
            let ghost before = out@;
            out.push(s[i]);
            assert(out@ == before + seq![rest[0]]);
            assert(rest == seq![rest[0]] + rest.drop_first());
            assert(before + (seq![rest[0]] + remove_all(rest.drop_first(), pat@)) == out@ + remove_all(
                rest.drop_first(),
                pat@,
            ));
            i = i + 1;
        }
    }
    assert(s@.skip(n as int) == Seq::<char>::empty());
    out
}


proof fn lemma_slot(sorted: Seq<Seq<char>>, x: Seq<char>, p: int)
    requires
        0 <= p <= sorted.len(),
        forall|j: int| 0 <= j < p ==> byte_len(#[trigger] sorted[j]) > byte_len(x),
        p == sorted.len() || byte_len(sorted[p]) <= byte_len(x),
    ensures
        slot(sorted, x) == p,
    decreases p,
{
    if p > 0 {
        let t = sorted.drop_first();
        assert forall|j: int| 0 <= j < p - 1 implies byte_len(#[trigger] t[j]) > byte_len(x) by {
            assert(t[j] == sorted[j + 1]);
        }
        if p - 1 < t.len() {
            assert(t[p - 1] == sorted[p]);
        }
        lemma_slot(t, x, p - 1);
        assert(byte_len(sorted[0]) > byte_len(x));
    }
}

/// The origins ordered by decreasing byte length (see `by_len_desc`).
fn sort_by_len_desc(os: &Vec<String>) -> (r: Vec<String>)
    ensures
        texts(r@) == by_len_desc(texts(os@)),
{
    let ghost all = texts(os@);
    let mut acc: Vec<String> = Vec::new();
    let mut i = os.len();
    assert(all.skip(i as int) == Seq::<Seq<char>>::empty());
    assert(texts(acc@) == Seq::<Seq<char>>::empty());
    while i > 0
        invariant
            i <= os@.len(),
            all == texts(os@),
            texts(acc@) == by_len_desc(all.skip(i as int)),
        decreases i,
    {
        i = i - 1;
        let x = os[i].clone();
        let k = x.as_str().len();
        let ghost sorted = texts(acc@);
        let mut p: usize = 0;
        while p < acc.len() && acc[p].as_str().len() > k
            invariant
                p <= acc@.len(),
                sorted == texts(acc@),
                k == byte_len(x@),
                forall|j: int| 0 <= j < p ==> byte_len(#[trigger] sorted[j]) > byte_len(x@),
            decreases acc@.len() - p,
        {
            p = p + 1;
        }
        proof {
            lemma_slot(sorted, x@, p as int);
            assert(all.skip(i as int).drop_first() == all.skip(i + 1));
            assert(all.skip(i as int)[0] == x@);
        }
        acc.insert(p, x);
        assert(texts(acc@) == sorted.insert(p as int, x@));
    }
    assert(all.skip(0) == all);
    acc
}

/// `s` without the origin `o` and its scheme-relative form.
fn strip_origin_exec(s: &Vec<char>, o: &String) -> (r: Vec<char>)
    ensures
        r@ == strip_origin(s@, o@),
{
    let ov = chars_of(o.as_str());
    let s1 = remove_all_exec(s, &ov);
    let sep: Vec<char> = vec![':', '/', '/'];
    assert(sep@ == crate::uri::scheme_sep());
    let n = ov.len();
    assert(ov@.subrange(0, n as int) == ov@);
    match find_in(&ov, 0, n, &sep) {
        Some(i) => {
            proof {
                lemma_find(ov@, crate::uri::scheme_sep());
            }
            let host = copy_window(&ov, i + 3, n);
            let mut pat: Vec<char> = vec!['/', '/'];
            let mut j: usize = 0;
            while j < host.len()
                invariant
                    j <= host@.len(),
                    pat@ == seq!['/', '/'] + host@.take(j as int),
                decreases host@.len() - j,
            {
                pat.push(host[j]);
                j = j + 1;
                assert(host@.take(j as int) == host@.take(j - 1).push(host@[j - 1]));
            }
            assert(host@.take(host@.len() as int) == host@);
            assert(host@ == ov@.skip(i + 3));
            remove_all_exec(&s1, &pat)
        },
        None => s1,
    }
}

/// The origins of an archive: a set, kept as the list of its members in
/// the order they were first added, with no origin twice.
pub struct OriginSet {
    items: Vec<String>,
}

impl View for OriginSet {
    type V = Seq<Seq<char>>;

    /// The members, in the order they were first added.
    closed spec fn view(&self) -> Seq<Seq<char>> {
        texts(self.items@)
    }
}

impl OriginSet {
    #[verifier::type_invariant]
    spec fn members_unique(self) -> bool {
        texts(self.items@).no_duplicates()
    }

    /// The empty set.
    pub fn new() -> (s: OriginSet)
        ensures
            s@ == Seq::<Seq<char>>::empty(),
    {
        let s = OriginSet { items: Vec::new() };
        assert(texts(s.items@) == Seq::<Seq<char>>::empty());
        s
    }

    /// Adds `o`, unless it is a member already.  No origin ever occurs
    /// twice.
    pub fn insert(&mut self, o: String)
        ensures
            final(self)@ == if old(self)@.contains(o@) {
                old(self)@
            } else {
                old(self)@.push(o@)
            },
            final(self)@.no_duplicates(),
    {
        proof {
            use_type_invariant(&*self);
        }
        let ghost before = texts(self.items@);
        let mut i: usize = 0;
        while i < self.items.len()
            invariant
                i <= self.items@.len(),
                before == texts(self.items@),
                before.no_duplicates(),
                forall|j: int| 0 <= j < i ==> before[j] != o@,
            decreases self.items@.len() - i,
        {
            if str_eq(self.items[i].as_str(), o.as_str()) {
                assert(before[i as int] == o@);
                return;
            }
            i = i + 1;
        }
        assert(!before.contains(o@));
        let mut items: Vec<String> = Vec::new();
        std::mem::swap(&mut items, &mut self.items);
        items.push(o);
        assert(texts(items@) == before.push(o@));
        self.items = items;
    }

    /// Whether `o` is a member.
    pub fn contains(&self, o: &str) -> (b: bool)
        ensures
            b == self@.contains(o@),
    {
        let mut i: usize = 0;
        while i < self.items.len()
            invariant
                i <= self.items@.len(),
                forall|j: int| 0 <= j < i ==> texts(self.items@)[j] != o@,
            decreases self.items@.len() - i,
        {
            if str_eq(self.items[i].as_str(), o) {
                assert(texts(self.items@)[i as int] == o@);
                return true;
            }
            i = i + 1;
        }
        false
    }

    /// The number of members.
    pub fn len(&self) -> (n: usize)
        ensures
            n == self@.len(),
    {
        self.items.len()
    }
}

/// Makes links into the archived origins site-relative: removes each
/// origin `scheme://host` and its form `//host`, longer origins first.
pub fn rewrite_origins(html: &str, origins: &OriginSet) -> (out: String)
    ensures
        out@ == rewrite_links(html@, origins@),
{
    let sorted = sort_by_len_desc(&origins.items);
    let ghost sv = texts(sorted@);
    let mut cur = chars_of(html);
    let mut t: usize = 0;
    assert(sv.skip(0) == sv);
    while t < sorted.len()
        invariant
            t <= sorted@.len(),
            sv == texts(sorted@),
            sv == by_len_desc(origins@),
            strip_all(html@, sv) == strip_all(cur@, sv.skip(t as int)),
        decreases sorted@.len() - t,
    {
        let next = strip_origin_exec(&cur, &sorted[t]);
        assert(sv.skip(t as int).drop_first() == sv.skip(t + 1));
        assert(sv.skip(t as int)[0] == sorted@[t as int]@);
        cur = next;
        t = t + 1;
    }
    assert(sv.skip(sorted@.len() as int) == Seq::<Seq<char>>::empty());
    text_of(&cur)
}

/// A page rewritten for offline use: links into the archived origins made
/// site-relative, then figure URLs pointed at `figures/`.
pub fn rewrite_page(html: &str, origins: &OriginSet) -> (out: String)
    ensures
        out@ == rewrite_figures(rewrite_links(html@, origins@)),
{
    let linked = rewrite_origins(html, origins);
    rewrite_cloudfront_src(linked.as_str())
}


/// Law: a page without any `/Figures/` is left as it is by the figure
/// rewriting.
pub proof fn law_figures_untouched(html: Seq<char>)
    requires
        find(html, figures_marker()) is None,
    ensures
        rewrite_figures(html) == html,
{
}

/// Law: with no origin to strip, links are left as they are.
pub proof fn law_no_origins_untouched(html: Seq<char>)
    ensures
        rewrite_links(html, Seq::empty()) == html,
{
}

/// Law: a page holding no occurrence of a pattern is left as it is when
/// that pattern is removed.
pub proof fn law_remove_absent(s: Seq<char>, pat: Seq<char>)
    requires
        forall|i: int| !occurs_at(s, pat, i),
    ensures
        remove_all(s, pat) == s,
    decreases s.len(),
{
    if pat.len() > 0 && s.len() >= pat.len() {
        assert(!occurs_at(s, pat, 0));
        assert(s.take(pat.len() as int) == s.subrange(0, pat.len() as int));
        assert forall|i: int| !occurs_at(s.drop_first(), pat, i) by {
            if occurs_at(s.drop_first(), pat, i) {
                assert(s.drop_first().subrange(i, i + pat.len()) == s.subrange(i + 1, i + 1 + pat.len()));
                assert(occurs_at(s, pat, i + 1));
            }
        }
        law_remove_absent(s.drop_first(), pat);
        assert(s == seq![s[0]] + s.drop_first());
    }
}

} // verus!
