//! "Natural" ordering of page names (a leading number compares by value)
//! and the index page listing the pages of an archive in that order.

use std::cmp::Ordering;

use vstd::prelude::*;
use vstd::string::StringExecFns;

use crate::text::{
    chars_of, ends_with, in_class, is_digit, lead, lower, lower_ends_with, parse_unsigned, parse_unsigned_window,
    skip_lead, texts, Class,
};

verus! {

/// Lexicographic comparison of character sequences by code point, as a
/// sign (-1, 0, 1).  For strings this is `str::cmp`, since UTF-8 keeps the
/// order of code points.
pub open spec fn lex_sign(a: Seq<char>, b: Seq<char>) -> int
    decreases a.len(),
{
    if a.len() == 0 && b.len() == 0 {
        0
    } else if a.len() == 0 {
        -1
    } else if b.len() == 0 {
        1
    } else if a[0] < b[0] {
        -1
    } else if a[0] > b[0] {
        1
    } else {
        lex_sign(a.drop_first(), b.drop_first())
    }
}

/// The number that a name starts with, when its leading digits form a
/// `u32`.
pub open spec fn leading_number(s: Seq<char>) -> Option<nat> {
    parse_unsigned(s.take(lead(s, Class::Digit) as int), 4294967295)
}

/// The natural order of two names, as a sign: by their leading numbers
/// when both have one and they differ, else lexicographically.
pub open spec fn nat_sign(a: Seq<char>, b: Seq<char>) -> int {
    match (leading_number(a), leading_number(b)) {
        (Some(x), Some(y)) => if x < y {
            -1
        } else if x > y {
            1
        } else {
            lex_sign(a, b)
        },
        _ => lex_sign(a, b),
    }
}

/// The sign of an `Ordering`.
pub open spec fn ordering_sign(o: Ordering) -> int {
    match o {
        Ordering::Less => -1,
        Ordering::Equal => 0,
        Ordering::Greater => 1,
    }
}

pub proof fn lemma_lex_antisymmetric(a: Seq<char>, b: Seq<char>)
    ensures
        lex_sign(a, b) == -lex_sign(b, a),
        lex_sign(a, b) == 0 <==> a == b,
    decreases a.len(),
{
    if a.len() > 0 && b.len() > 0 && a[0] == b[0] {
        lemma_lex_antisymmetric(a.drop_first(), b.drop_first());
        if a.drop_first() == b.drop_first() {
            assert(a == seq![a[0]] + a.drop_first());
            assert(b == seq![b[0]] + b.drop_first());
        }
    }
    if a.len() > 0 && b.len() > 0 && a[0] != b[0] {
        assert(a[0] != b[0]);
    }
    if a.len() == 0 && b.len() == 0 {
        assert(a == b);
    }
}

pub proof fn lemma_lex_range(a: Seq<char>, b: Seq<char>)
    ensures
        -1 <= lex_sign(a, b) <= 1,
    decreases a.len(),
{
    if a.len() > 0 && b.len() > 0 && a[0] == b[0] {
        lemma_lex_range(a.drop_first(), b.drop_first());
    }
}

/// The leading number of the characters `v`.
fn leading_number_exec(v: &Vec<char>) -> (r: Option<u64>)
    ensures
        r matches Some(x) ==> leading_number(v@) == Some(x as nat),
        r is None ==> leading_number(v@) is None,
{
    let n = v.len();
    assert(v@.subrange(0, n as int) == v@);
    let d = skip_lead(v, 0, n, Class::Digit);
    assert(v@.subrange(0, d as int) == v@.take(d as int));
    parse_unsigned_window(v, 0, d, 4294967295)
}

pub proof fn lemma_lex_transitive(a: Seq<char>, b: Seq<char>, c: Seq<char>)
    requires
        lex_sign(a, b) <= 0,
        lex_sign(b, c) <= 0,
    ensures
        lex_sign(a, c) <= 0,
    decreases a.len(),
{
    if a.len() > 0 && b.len() > 0 && c.len() > 0 && a[0] == b[0] && b[0] == c[0] {
        lemma_lex_transitive(a.drop_first(), b.drop_first(), c.drop_first());
    }
}

/// Lexicographic comparison of `a` and `b`, as a sign.
pub fn lex_sign_exec(a: &Vec<char>, b: &Vec<char>) -> (r: i8)
    ensures
        r == lex_sign(a@, b@),
{
    let mut i: usize = 0;
    assert(a@.skip(0) == a@);
    assert(b@.skip(0) == b@);
    while i < a.len() && i < b.len() && a[i] == b[i]
        invariant
            i <= a@.len(),
            i <= b@.len(),
            lex_sign(a@, b@) == lex_sign(a@.skip(i as int), b@.skip(i as int)),
        decreases a@.len() - i,
    {
        assert(a@.skip(i as int).drop_first() == a@.skip(i + 1));
        assert(b@.skip(i as int).drop_first() == b@.skip(i + 1));
        assert(a@.skip(i as int)[0] == a@[i as int]);
        assert(b@.skip(i as int)[0] == b@[i as int]);
        i = i + 1;
    }
    if i < a.len() {
        assert(a@.skip(i as int)[0] == a@[i as int]);
    }
    if i < b.len() {
        assert(b@.skip(i as int)[0] == b@[i as int]);
    }
    if i == a.len() && i == b.len() {
        0
    } else if i == a.len() {
        -1
    } else if i == b.len() {
        1
    } else if a[i] < b[i] {
        -1
    } else {
        1
    }
}

/// The natural order of `a` and `b`, as a sign.
fn nat_sign_exec(a: &Vec<char>, b: &Vec<char>) -> (r: i8)
    ensures
        r == nat_sign(a@, b@),
{
    match (leading_number_exec(a), leading_number_exec(b)) {
        (Some(x), Some(y)) => {
            if x < y {
                -1
            } else if x > y {
                1
            } else {
                lex_sign_exec(a, b)
            }
        },
        _ => lex_sign_exec(a, b),
    }
}

/// Natural order of page names: by leading number when both names start
/// with different numbers, else as strings.
pub fn nat_cmp(a: &str, b: &str) -> (r: Ordering)
    ensures
        ordering_sign(r) == nat_sign(a@, b@),
{
    let s = nat_sign_exec(&chars_of(a), &chars_of(b));
    proof {
        lemma_lex_range(a@, b@);
    }
    if s < 0 {
        Ordering::Less
    } else if s > 0 {
        Ordering::Greater
    } else {
        Ordering::Equal
    }
}


/// Law: the natural order is antisymmetric, and two names compare equal
/// only when they are the same name.  (It is transitive only where the
/// leading numbers fit a `u32`, see `law_nat_order_transitive`: with `9`,
/// `10` and `3999999999999`, `9 < 10 < 3999999999999 < 9`.)
pub proof fn law_nat_order_antisymmetric(a: Seq<char>, b: Seq<char>)
    ensures
        nat_sign(a, b) == -nat_sign(b, a),
        nat_sign(a, b) == 0 <==> a == b,
{
    lemma_lex_antisymmetric(a, b);
}

/// A name whose leading digits, if it starts with one, form a `u32`.
pub open spec fn number_fits(s: Seq<char>) -> bool {
    s.len() > 0 && is_digit(s[0]) ==> leading_number(s) is Some
}

/// Where a name falls by its first character: before the digits (or
/// empty), a digit, or after the digits.
spec fn name_class(s: Seq<char>) -> int {
    if s.len() == 0 || '0' > s[0] {
        0
    } else if '9' >= s[0] {
        1
    } else {
        2
    }
}

/// Names of a lower class come first lexicographically.
proof fn lemma_lex_class(a: Seq<char>, b: Seq<char>)
    requires
        name_class(a) < name_class(b),
    ensures
        lex_sign(a, b) == -1,
{
}

/// A name that does not start with a digit has no leading number; one that
/// does has one when its number fits.
proof fn lemma_number_class(s: Seq<char>)
    requires
        number_fits(s),
    ensures
        leading_number(s) is Some <==> name_class(s) == 1,
{
    if name_class(s) != 1 {
        assert(lead(s, Class::Digit) == 0);
        assert(s.take(0) == Seq::<char>::empty());
    }
}

/// Law: on names whose leading numbers fit a `u32`, the natural order is
/// transitive, so that sorting by it is well defined.
pub proof fn law_nat_order_transitive(a: Seq<char>, b: Seq<char>, c: Seq<char>)
    requires
        number_fits(a),
        number_fits(b),
        number_fits(c),
        nat_sign(a, b) <= 0,
        nat_sign(b, c) <= 0,
    ensures
        nat_sign(a, c) <= 0,
{
    lemma_number_class(a);
    lemma_number_class(b);
    lemma_number_class(c);
    lemma_lex_antisymmetric(a, b);
    lemma_lex_antisymmetric(b, c);
    lemma_lex_antisymmetric(a, c);
    lemma_lex_range(a, b);
    lemma_lex_range(b, c);
    lemma_lex_range(a, c);
    if name_class(a) < name_class(b) {
        lemma_lex_class(a, b);
    }
    if name_class(b) < name_class(a) {
        lemma_lex_class(b, a);
    }
    if name_class(b) < name_class(c) {
        lemma_lex_class(b, c);
    }
    if name_class(c) < name_class(b) {
        lemma_lex_class(c, b);
    }
    if name_class(a) < name_class(c) {
        lemma_lex_class(a, c);
    }
    if name_class(c) < name_class(a) {
        lemma_lex_class(c, a);
    }
    if lex_sign(a, b) <= 0 && lex_sign(b, c) <= 0 {
        lemma_lex_transitive(a, b, c);
    }
}

/// Law: a name that starts with the decimal number `x` (at most
/// `u32::MAX`, written without leading zeros) followed by anything but a
/// digit has the leading number `x`.
pub proof fn law_leading_number_of_decimal(x: nat, rest: Seq<char>)
    requires
        x <= 4294967295,
        rest.len() == 0 || !is_digit(rest[0]),
    ensures
        leading_number(crate::text::dec(x) + rest) == Some(x),
{
    let d = crate::text::dec(x);
    let s = d + rest;
    crate::text::lemma_dec(x);
    assert forall|j: int| 0 <= j < d.len() implies in_class(Class::Digit, #[trigger] s[j]) by {
        assert(s[j] == d[j]);
        assert(is_digit(d[j]));
    }
    if d.len() < s.len() {
        assert(s[d.len() as int] == rest[0]);
    }
    crate::text::lemma_lead(s, Class::Digit, d.len() as int);
    assert(s.take(d.len() as int) == d);
    crate::text::lemma_parse_dec(x, 4294967295);
}

/// Law: names that start with different numbers that fit a `u32` are in
/// the order of those numbers, whatever follows them.
pub proof fn law_smaller_number_first(x: nat, y: nat, ra: Seq<char>, rb: Seq<char>)
    requires
        x < y <= 4294967295,
        ra.len() == 0 || !is_digit(ra[0]),
        rb.len() == 0 || !is_digit(rb[0]),
    ensures
        nat_sign(crate::text::dec(x) + ra, crate::text::dec(y) + rb) == -1,
        nat_sign(crate::text::dec(y) + rb, crate::text::dec(x) + ra) == 1,
{
    law_leading_number_of_decimal(x, ra);
    law_leading_number_of_decimal(y, rb);
}

/// The names are in natural order, each no greater than the next.
pub open spec fn nat_sorted(s: Seq<Seq<char>>) -> bool {
    forall|i: int, j: int|
        0 <= i && j == i + 1 && j < s.len() ==> #[trigger] nat_sign(s[i], s[j]) <= 0
}

/// The page names in natural order (an insertion sort, stable).
pub fn sort_pages(pages: &Vec<String>) -> (r: Vec<String>)
    ensures
        nat_sorted(texts(r@)),
        texts(r@).to_multiset() == texts(pages@).to_multiset(),
{
    broadcast use vstd::seq_lib::group_to_multiset_ensures;

    let mut acc: Vec<String> = Vec::new();
    let mut i: usize = 0;
    assert(pages@.take(0) == Seq::<String>::empty());
    while i < pages.len()
        invariant
            i <= pages@.len(),
            nat_sorted(texts(acc@)),
            texts(acc@).to_multiset() == texts(pages@.take(i as int)).to_multiset(),
        decreases pages@.len() - i,
    {
        let x = pages[i].clone();
        let xc = chars_of(x.as_str());
        let ghost old_names = texts(acc@);
        let mut p: usize = 0;
        while p < acc.len() && nat_sign_exec(&xc, &chars_of(acc[p].as_str())) > 0
            invariant
                p <= acc@.len(),
                old_names == texts(acc@),
                xc@ == x@,
                forall|j: int| 0 <= j < p ==> nat_sign(x@, #[trigger] old_names[j]) > 0,
            decreases acc@.len() - p,
        {
            p = p + 1;
        }
        let ghost before = acc@;
        acc.insert(p, x);
        proof {
            let t = texts(acc@);
            assert(t == old_names.insert(p as int, x@));
            assert forall|a: int, b: int|
                0 <= a && b == a + 1 && b < t.len() implies #[trigger] nat_sign(t[a], t[b]) <= 0 by {
                if b < p {
                    assert(t[a] == old_names[a] && t[b] == old_names[b]);
                } else if b == p {
                    law_nat_order_antisymmetric(old_names[a], x@);
                } else if a == p {
                    assert(t[b] == old_names[p as int]);
                } else {
                    assert(t[a] == old_names[a - 1] && t[b] == old_names[b - 1]);
                }
            }
            assert(texts(pages@.take(i + 1)) == texts(pages@.take(i as int)).push(pages@[i as int]@));
            vstd::seq_lib::to_multiset_insert(old_names, p as int, x@);
            vstd::seq_lib::to_multiset_build(texts(pages@.take(i as int)), pages@[i as int]@);
        }
        i = i + 1;
    }
    assert(pages@.take(pages@.len() as int) == pages@);
    acc
}

/// The start of the generated index page.
pub open spec fn index_head() -> Seq<char> {
    "<!doctype html><meta charset=utf-8><title>Archive</title><style>body{font:16px/1.4 system-ui;max-width:40rem;margin:2rem auto;padding:0 1rem}a{display:block;padding:.35rem 0}</style><h1>Archive</h1>\n"@
}

/// The line of the index page that links to `page`.
pub open spec fn page_link(page: Seq<char>) -> Seq<char> {
    "<a href=\""@ + page + "\">"@ + page + "</a>\n"@
}

/// The links to `pages`, one per line, in order.
pub open spec fn page_links(pages: Seq<Seq<char>>) -> Seq<char>
    decreases pages.len(),
{
    if pages.len() == 0 {
        Seq::empty()
    } else {
        page_links(pages.drop_last()) + page_link(pages.last())
    }
}

/// An index page listing `pages` in the given order.
pub fn index_html(pages: &Vec<String>) -> (r: String)
    ensures
        r@ == index_head() + page_links(texts(pages@)),
{
    let mut body = String::from_str(
        "<!doctype html><meta charset=utf-8><title>Archive</title><style>body{font:16px/1.4 system-ui;max-width:40rem;margin:2rem auto;padding:0 1rem}a{display:block;padding:.35rem 0}</style><h1>Archive</h1>\n",
    );
    let ghost ns = texts(pages@);
    let mut i: usize = 0;
    assert(ns.take(0) == Seq::<Seq<char>>::empty());
    while i < pages.len()
        invariant
            i <= pages@.len(),
            ns == texts(pages@),
            body@ == index_head() + page_links(ns.take(i as int)),
        decreases pages@.len() - i,
    {
        body.append("<a href=\"");
        body.append(pages[i].as_str());
        body.append("\">");
        body.append(pages[i].as_str());
        body.append("</a>\n");
        proof {
            assert(ns.take(i + 1).drop_last() == ns.take(i as int));
            assert(ns.take(i + 1).last() == pages@[i as int]@);
        }
        i = i + 1;
    }
    assert(ns.take(pages@.len() as int) == ns);
    body
}

/// A name of an HTML page (`.html`, in any ASCII case).
pub open spec fn is_html_name(n: Seq<char>) -> bool {
    ends_with(lower(n), ".html"@)
}

/// The HTML pages among `ns`, in order.
pub open spec fn html_pages(ns: Seq<Seq<char>>) -> Seq<Seq<char>>
    decreases ns.len(),
{
    if ns.len() == 0 {
        Seq::empty()
    } else {
        html_pages(ns.drop_last()) + if is_html_name(ns.last()) {
            seq![ns.last()]
        } else {
            Seq::empty()
        }
    }
}

/// The index page of a site whose top-level files are named `files`: the
/// HTML pages among them in natural order, or an error when there is none.
pub fn index_page(files: &Vec<String>) -> (r: Result<String, String>)
    ensures
        r is Err <==> html_pages(texts(files@)).len() == 0,
        r matches Err(e) ==> e@ == "Aucune page HTML extraite du WARC."@,
        r matches Ok(body) ==> exists|sorted: Seq<String>|
            nat_sorted(texts(sorted)) && texts(sorted).to_multiset() == html_pages(
                texts(files@),
            ).to_multiset() && body@ == index_head() + page_links(texts(sorted)),
{
    let mut pages: Vec<String> = Vec::new();
    let mut i: usize = 0;
    let ghost ns = texts(files@);
    assert(ns.take(0) == Seq::<Seq<char>>::empty());
    while i < files.len()
        invariant
            i <= files@.len(),
            ns == texts(files@),
            texts(pages@) == html_pages(ns.take(i as int)),
        decreases files@.len() - i,
    {
        let keep = lower_ends_with(files[i].as_str(), ".html");
        proof {
            assert(ns.take(i + 1).drop_last() == ns.take(i as int));
            assert(ns.take(i + 1).last() == files@[i as int]@);
        }
        if keep {
            let ghost before = pages@;
            pages.push(files[i].clone());
            assert(texts(pages@) == texts(before).push(files@[i as int]@));
        } else {
            assert(html_pages(ns.take(i as int)) + Seq::<Seq<char>>::empty() == html_pages(
                ns.take(i as int),
            ));
        }
        i = i + 1;
    }
    assert(ns.take(files@.len() as int) == ns);
    if pages.len() == 0 {
        return Err(String::from_str("Aucune page HTML extraite du WARC."));
    }
    let sorted = sort_pages(&pages);
    Ok(index_html(&sorted))
}


/// The index page a site still needs, given which of its entry pages are
/// files there (`present`) and the names of its top-level files: none when
/// an entry page is present, else the page `index_page` makes of the files,
/// or its error.
pub fn site_index(present: &Vec<bool>, files: &Vec<String>) -> (r: Result<Option<String>, String>)
    ensures
        present@.contains(true) ==> r == Ok::<Option<String>, String>(None),
        !present@.contains(true) ==> (r is Err <==> html_pages(texts(files@)).len() == 0),
        !present@.contains(true) ==> !(r matches Ok(None)),
        r matches Err(e) ==> e@ == "Aucune page HTML extraite du WARC."@,
        r matches Ok(Some(body)) ==> exists|sorted: Seq<String>|
            nat_sorted(texts(sorted)) && texts(sorted).to_multiset() == html_pages(
                texts(files@),
            ).to_multiset() && body@ == index_head() + page_links(texts(sorted)),
{
    let mut i: usize = 0;
    while i < present.len()
        invariant
            i <= present@.len(),
            forall|j: int| 0 <= j < i ==> !present@[j],
        decreases present@.len() - i,
    {
        if present[i] {
            assert(present@.contains(true));
            return Ok(None);
        }
        i = i + 1;
    }
    assert(!present@.contains(true)) by {
        if present@.contains(true) {
            let j = choose|j: int| 0 <= j < present@.len() && present@[j] == true;
        }
    }
    match index_page(files) {
        Ok(body) => Ok(Some(body)),
        Err(e) => Err(e),
    }
}

} // verus!
