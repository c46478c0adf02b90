use std::cmp::Ordering;
use std::io::Write;

use taurus::http::{http_content_type, is_html_type, split_http};
use taurus::order::{index_page, nat_cmp, site_index, sort_pages};
use taurus::rewrite::{rewrite_cloudfront_src, rewrite_origins, rewrite_page, OriginSet};
use taurus::uri::{is_http_uri, origin_of, url_to_rel, url_to_rel_with};
use taurus::warc::{extract_warc, next_record, read_records, WarcScan, MAX_WARC_RECORD};

fn response(uri: &str, ctype: &str, body: &[u8]) -> Vec<u8> {
    let http = [
        format!("HTTP/1.1 200 OK\r\nContent-Type: {ctype}\r\n\r\n").into_bytes(),
        body.to_vec(),
    ]
    .concat();
    [
        format!(
            "WARC/1.0\r\nWARC-Type: response\r\nWARC-Target-URI: {uri}\r\nContent-Length: {}\r\n\r\n",
            http.len()
        )
        .into_bytes(),
        http,
        b"\r\n\r\n".to_vec(),
    ]
    .concat()
}

fn resource(uri: &str, ctype: &str, body: &[u8]) -> Vec<u8> {
    [
        format!(
            "WARC/1.0\r\nWARC-Type: resource\r\nWARC-Target-URI: {uri}\r\nContent-Type: {ctype}\r\nContent-Length: {}\r\n\r\n",
            body.len()
        )
        .into_bytes(),
        body.to_vec(),
        b"\r\n\r\n".to_vec(),
    ]
    .concat()
}

fn origins_of(scan: &WarcScan) -> OriginSet {
    let mut out = OriginSet::new();
    for r in &scan.records {
        if let Some(o) = &r.origin {
            out.insert(o.clone());
        }
    }
    out
}

fn set_of(members: &[&str]) -> OriginSet {
    let mut out = OriginSet::new();
    for m in members {
        out.insert(m.to_string());
    }
    out
}

fn payload_of<'a>(scan: &'a WarcScan, rel: &str) -> &'a [u8] {
    &scan.records.iter().find(|r| r.rel == rel).unwrap().payload
}

#[test]
fn maps_local_chapter() {
    assert_eq!(url_to_rel("http://127.0.0.1:53150/1.html").unwrap(), "1.html");
    assert_eq!(url_to_rel("<http://127.0.0.1:53150/1.html>").unwrap(), "1.html");
}

#[test]
fn maps_browsertrix_directory_urls() {
    assert_eq!(url_to_rel("https://ex.com/").unwrap(), "index.html");
    assert_eq!(url_to_rel("https://ex.com/blog/").unwrap(), "blog/index.html");
    assert_eq!(
        url_to_rel("https://ex.com/blog/page/2/").unwrap(),
        "blog/page/2/index.html"
    );
    assert_eq!(url_to_rel("https://ex.com/style.css?ver=4").unwrap(), "style.css");
    assert_eq!(
        url_to_rel_with("https://ex.com/about", true).unwrap(),
        "about/index.html"
    );
    assert!(!is_http_uri(
        "urn:pageinfo:https://www.getcybersecurity.fr/blog/"
    ));
    assert!(is_http_uri("https://www.getcybersecurity.fr/blog/"));
}

#[test]
fn maps_manning_figure() {
    assert_eq!(
        url_to_rel("https://drek4537l1klr.cloudfront.net/kimothi/Figures/CH01_F01_Kimothi.png")
            .unwrap(),
        "figures/CH01_F01_Kimothi.png"
    );
}

#[test]
fn rejects_dotdot() {
    assert!(url_to_rel("http://x/../../etc/passwd").is_err());
}

#[test]
fn rewrites_img_src() {
    let html = r#"<img src="https://drek4537l1klr.cloudfront.net/kimothi/Figures/CH01_F01_Kimothi.png" alt="x">"#;
    let out = rewrite_cloudfront_src(html);
    assert!(out.contains("figures/CH01_F01_Kimothi.png"));
    assert!(!out.contains("cloudfront"));
}

#[test]
fn split_ok() {
    let body = b"HTTP/1.1 200 OK\r\nContent-Type: text/html\r\n\r\nhello";
    let (st, p) = split_http(body).unwrap();
    assert_eq!(st, 200);
    assert_eq!(p, b"hello");
}

#[test]
fn rejects_oversized_warc_record() {
    let warc = format!(
        "WARC/1.0\r\nWARC-Type: response\r\nWARC-Target-URI: http://x/\r\nContent-Length: {}\r\n\r\n",
        MAX_WARC_RECORD + 1
    );
    let scan = extract_warc("huge.warc", warc.as_bytes());
    let err = scan.error.unwrap();
    assert!(err.contains("trop gros"), "{err}");
    assert!(err.contains(&(MAX_WARC_RECORD + 1).to_string()), "{err}");
    assert_eq!(
        err,
        "enregistrement WARC trop gros (536870913 octets, max 536870912)."
    );
    assert!(scan.records.is_empty());
}

#[test]
fn extracts_uncompressed_warc() {
    let html = b"HTTP/1.1 200 OK\r\nContent-Type: text/html\r\n\r\n<html><img src=\"https://cdn.test/Figures/a.png\"></html>";
    let img = b"HTTP/1.1 200 OK\r\nContent-Type: image/png\r\n\r\nPNG";
    let rec = |uri: &str, body: &[u8]| {
        format!(
            "WARC/1.0\r\nWARC-Type: response\r\nWARC-Target-URI: {uri}\r\nContent-Length: {}\r\n\r\n",
            body.len()
        )
        .into_bytes()
        .into_iter()
        .chain(body.iter().copied())
        .chain(b"\r\n\r\n".iter().copied())
        .collect::<Vec<u8>>()
    };
    let warc = [
        rec("http://127.0.0.1:8/1.html", html),
        rec("https://cdn.test/Figures/a.png", img),
    ]
    .concat();
    let scan = extract_warc("t.warc", &warc);
    assert!(scan.error.is_none());
    assert_eq!(scan.records.len(), 2);
    let origins = origins_of(&scan);
    assert_eq!(origins.len(), 1);
    assert!(origins.contains("http://127.0.0.1:8"));
    let raw = String::from_utf8(payload_of(&scan, "1.html").to_vec()).unwrap();
    let page = rewrite_page(&raw, &origins);
    assert!(page.contains("figures/a.png"), "{page}");
    assert!(!page.contains("cdn.test"));
    assert_eq!(payload_of(&scan, "figures/a.png"), b"PNG");
    let index = index_page(&vec!["1.html".to_string()]).unwrap();
    assert!(index.contains("<a href=\"1.html\">1.html</a>"));
}

#[test]
fn extracts_nested_html_without_file_dir_clash() {
    let warc = [
        response(
            "https://ex.com/",
            "text/html",
            b"<html><link href=\"https://ex.com/s.css\"><a href=\"https://ex.com/blog/\">b</a></html>",
        ),
        response("https://ex.com/s.css", "text/css", b"body{color:red}"),
        response("https://ex.com/blog/", "text/html", b"<html>blog</html>"),
        response("https://ex.com/blog/page/2/", "text/html", b"<html>page2</html>"),
        resource("urn:pageinfo:https://ex.com/", "application/json", b"{\"id\":\"x\"}"),
        resource("urn:pageinfo:https://ex.com/blog/", "application/json", b"{\"id\":\"x\"}"),
    ]
    .concat();
    let scan = extract_warc("t.warc", &warc);
    assert!(scan.error.is_none());
    let rels: Vec<&str> = scan.records.iter().map(|r| r.rel.as_str()).collect();
    assert_eq!(
        rels,
        vec!["index.html", "s.css", "blog/index.html", "blog/page/2/index.html"]
    );
    let origins = origins_of(&scan);
    let home = rewrite_page(
        &String::from_utf8(payload_of(&scan, "index.html").to_vec()).unwrap(),
        &origins,
    );
    assert!(home.contains("<html>"), "{home}");
    assert!(home.contains("href=\"/s.css\""), "{home}");
    assert!(home.contains("href=\"/blog/\""), "{home}");
    assert!(!home.contains("https://ex.com"), "{home}");
    assert_eq!(payload_of(&scan, "blog/index.html"), b"<html>blog</html>");
    assert_eq!(payload_of(&scan, "blog/page/2/index.html"), b"<html>page2</html>");
    assert_eq!(payload_of(&scan, "s.css"), b"body{color:red}");
}

#[test]
fn url_mapping_edges() {
    assert_eq!(url_to_rel("https://ex.com").unwrap(), "index.html");
    assert_eq!(url_to_rel("  <https://ex.com/a//b>  ").unwrap(), "a/b");
    assert_eq!(url_to_rel("/local/page.html#top").unwrap(), "local/page.html");
    assert_eq!(url_to_rel("http://x//").unwrap(), "index.html");
    assert_eq!(url_to_rel("https://ex.com///").unwrap(), "index.html");
    assert_eq!(url_to_rel_with("https://ex.com//", true).unwrap(), "index.html");
    assert_eq!(url_to_rel("https://ex.com/a//").unwrap(), "a/index.html");
    assert_eq!(url_to_rel("///").unwrap(), "index.html");
    assert_eq!(url_to_rel("https://ex.com/about").unwrap(), "about");
    assert_eq!(url_to_rel_with("https://ex.com/a.html", true).unwrap(), "a.html");
    assert_eq!(url_to_rel("https://h/x/FIGURES/f.svg").unwrap(), "figures/f.svg");
    assert_eq!(
        url_to_rel("http://x/a/../b").unwrap_err(),
        "URL refusée: http://x/a/../b"
    );
}

#[test]
fn html_flag_only_adds_an_index() {
    for uri in ["https://ex.com/about", "https://ex.com/a.css", "https://ex.com/d/", "x"] {
        let plain = url_to_rel_with(uri, false).unwrap();
        let html = url_to_rel_with(uri, true).unwrap();
        assert!(html == plain || html == format!("{plain}/index.html"));
    }
}

#[test]
fn origins_and_schemes() {
    assert_eq!(origin_of("<HTTPS://Ex.com/a>").unwrap(), "https://Ex.com");
    assert_eq!(origin_of("http://127.0.0.1:8/1.html").unwrap(), "http://127.0.0.1:8");
    assert!(origin_of("https:///nohost").is_none());
    assert!(origin_of("ftp://x/y").is_none());
    assert!(is_http_uri(" <HtTp://x> "));
    assert!(!is_http_uri("mailto:x@y"));
}

#[test]
fn http_headers_and_types() {
    let body = b"HTTP/1.1 404 Not Found\r\ncontent-TYPE:  text/HTML ; charset=x \r\n\r\n";
    assert_eq!(http_content_type(body), "text/HTML ; charset=x");
    assert_eq!(split_http(body).unwrap().0, 404);
    assert_eq!(http_content_type(b"HTTP/1.1 200 OK\r\n\r\n"), "");
    assert_eq!(http_content_type(b"no blank line"), "");
    assert!(split_http(b"HTTP/1.1 abc OK\r\n\r\nx").is_none());
    assert!(split_http(b"HTTP/1.1 70000 OK\r\n\r\nx").is_none());
    assert_eq!(split_http(b"HTTP/1.1 +204\r\n\r\n").unwrap(), (204, vec![]));
    assert!(split_http(b"\r\n\r\nx").is_none());
    assert!(is_html_type("Text/HTML; charset=utf-8"));
    assert!(is_html_type("application/xhtml+xml"));
    assert!(!is_html_type("text/css"));
}

#[test]
fn warc_reading_errors() {
    let no_len = b"WARC/1.0\r\nWARC-Type: response\r\n\r\n";
    assert_eq!(
        read_records(no_len, &None).error.unwrap(),
        "WARC sans Content-Length"
    );
    let bad_len = b"WARC/1.0\r\nContent-Length: 1x\r\n\r\n";
    assert_eq!(
        read_records(bad_len, &None).error.unwrap(),
        "Content-Length WARC invalide"
    );
    let not_warc = b"\r\n\r\nHELLO world\r\n";
    assert_eq!(
        read_records(not_warc, &None).error.unwrap(),
        "en-tête WARC inattendu: HELLO world"
    );
    let short = b"warc/1.1\r\nContent-Length: 10\r\n\r\nabc";
    assert_eq!(
        read_records(short, &None).error.unwrap(),
        "corps WARC: failed to fill whole buffer"
    );
    let cut = b"WARC/1.0\r\nContent-Length: 10\r\n\r\nabc";
    assert_eq!(
        read_records(cut, &Some("broken".to_string())).error.unwrap(),
        "corps WARC: broken"
    );
    let bad_utf8 = b"WARC/1.0\r\nX: \xff\r\n\r\n";
    assert_eq!(
        read_records(bad_utf8, &None).error.unwrap(),
        "stream did not contain valid UTF-8"
    );
    assert!(read_records(b"", &None).error.is_none());
    assert_eq!(read_records(b"", &Some("eof".to_string())).error.unwrap(), "eof");
}

#[test]
fn warc_records_kept_before_an_error() {
    let warc = [
        response("https://ex.com/a.css", "text/css", b"x"),
        response("https://ex.com/../up", "text/html", b"y"),
        response("https://ex.com/b.css", "text/css", b"z"),
    ]
    .concat();
    let scan = read_records(&warc, &None);
    assert_eq!(scan.records.len(), 1);
    assert_eq!(scan.records[0].rel, "a.css");
    assert!(scan.records[0].origin.is_none());
    assert_eq!(scan.error.unwrap(), "URL refusée: https://ex.com/../up");
}

#[test]
fn warc_skips_unstored_records() {
    let failed = [
        b"WARC/1.0\r\nWARC-Type: response\r\nWARC-Target-URI: https://e/x\r\nContent-Length: 20\r\n\r\n".to_vec(),
        b"HTTP/1.1 404 No\r\n\r\nx".to_vec(),
        b"\r\n".to_vec(),
    ]
    .concat();
    let request = b"WARC/1.0\r\nWARC-Type: request\r\nWARC-Target-URI: https://e/y\r\nContent-Length: 0\r\n\r\n\r\n";
    let warc = [failed, request.to_vec(), resource("https://e/r.json", "application/json", b"{}")].concat();
    let scan = read_records(&warc, &None);
    assert!(scan.error.is_none());
    assert_eq!(scan.records.len(), 1);
    assert_eq!(scan.records[0].rel, "r.json");
    assert_eq!(scan.records[0].payload, b"{}");
}

#[test]
fn gzipped_warc_is_decoded() {
    let warc = response("https://ex.com/p", "text/html", b"<p>x</p>");
    let mut enc = flate2::write::GzEncoder::new(Vec::new(), flate2::Compression::default());
    enc.write_all(&warc).unwrap();
    let gz = enc.finish().unwrap();
    let scan = extract_warc("Crawl.WARC.GZ", &gz);
    assert!(scan.error.is_none());
    assert_eq!(scan.records.len(), 1);
    assert_eq!(scan.records[0].rel, "p/index.html");
    assert_eq!(scan.records[0].origin.as_deref(), Some("https://ex.com"));
    let broken = extract_warc("x.warc.gz", b"not gzip at all");
    assert!(broken.error.is_some());
    assert!(broken.records.is_empty());
}

#[test]
fn origins_rewritten_longest_first() {
    let html = "<a href=\"https://ex.com/a\"><a href=\"https://ex.com.cdn/b\"><img src=\"//ex.com/c\">";
    let out = rewrite_origins(html, &set_of(&["https://ex.com", "https://ex.com.cdn"]));
    assert_eq!(out, "<a href=\"/a\"><a href=\"/b\"><img src=\"/c\">");
    assert_eq!(rewrite_origins(html, &OriginSet::new()), html);
}

#[test]
fn figures_without_scheme_are_kept() {
    assert_eq!(rewrite_cloudfront_src("see /Figures/x.png"), "see /Figures/x.png");
    assert_eq!(
        rewrite_cloudfront_src("<img src='http://h/p/Figures/a b.png'>"),
        "<img src='figures/a b.png'>"
    );
    assert_eq!(rewrite_cloudfront_src("no figures here"), "no figures here");
    assert_eq!(
        rewrite_cloudfront_src("(https://a/Figures/1.png)(http://b/Figures/2.png?x)"),
        "(figures/1.png)(figures/2.png?x)"
    );
}

#[test]
fn origin_set_keeps_each_origin_once() {
    let mut set = OriginSet::new();
    assert_eq!(set.len(), 0);
    set.insert("https://a.com".to_string());
    set.insert("https://b.com".to_string());
    set.insert("https://a.com".to_string());
    assert_eq!(set.len(), 2);
    assert!(set.contains("https://a.com"));
    assert!(set.contains("https://b.com"));
    assert!(!set.contains("https://c.com"));
}

#[test]
fn figure_rewrite_keeps_text_before_the_url() {
    let html = r#"<a href="https://a.com/">a</a><img src="http://b.com/Figures/x.png">"#;
    assert_eq!(
        rewrite_cloudfront_src(html),
        r#"<a href="https://a.com/">a</a><img src="figures/x.png">"#
    );
    assert_eq!(
        rewrite_cloudfront_src("x https://a/ y http://b/Figures/c.png"),
        "x https://a/ y figures/c.png"
    );
    assert_eq!(
        rewrite_cloudfront_src("https://a/ b/Figures/c.png"),
        "https://a/ b/Figures/c.png"
    );
}

#[test]
fn natural_order_of_pages() {
    assert_eq!(nat_cmp("9.html", "10.html"), Ordering::Less);
    assert_eq!(nat_cmp("10.html", "9.html"), Ordering::Greater);
    assert_eq!(nat_cmp("a.html", "b.html"), Ordering::Less);
    assert_eq!(nat_cmp("2.html", "2.html"), Ordering::Equal);
    assert_eq!(nat_cmp("02.html", "2.html"), Ordering::Less);
    // Not transitive once a leading number overflows a u32.
    assert_eq!(nat_cmp("9", "10"), Ordering::Less);
    assert_eq!(nat_cmp("10", "3999999999999"), Ordering::Less);
    assert_eq!(nat_cmp("3999999999999", "9"), Ordering::Less);
    let sorted = sort_pages(&vec![
        "10.html".to_string(),
        "9.html".to_string(),
        "index2.html".to_string(),
        "1.html".to_string(),
    ]);
    assert_eq!(sorted, vec!["1.html", "9.html", "10.html", "index2.html"]);
}

#[test]
fn index_page_lists_html_pages() {
    let body = index_page(&vec![
        "2.html".to_string(),
        "notes.txt".to_string(),
        "10.HTML".to_string(),
    ])
    .unwrap();
    assert!(body.starts_with("<!doctype html><meta charset=utf-8><title>Archive</title>"));
    assert!(body.ends_with(
        "<h1>Archive</h1>\n<a href=\"2.html\">2.html</a>\n<a href=\"10.HTML\">10.HTML</a>\n"
    ));
    assert_eq!(
        index_page(&vec!["a.css".to_string()]).unwrap_err(),
        "Aucune page HTML extraite du WARC."
    );
}

#[test]
fn html_pages_are_files() {
    for uri in ["https://ex.com/", "https://ex.com/blog", "https://ex.com/a.b/c", "https://ex.com/p.php?x=1"] {
        let rel = url_to_rel_with(uri, true).unwrap();
        let last = rel.rsplit('/').next().unwrap();
        assert!(last.contains('.'), "{rel}");
    }
    assert_eq!(url_to_rel_with("https://ex.com/Figures/abc", true).unwrap(), "figures/abc");
}

#[test]
fn text_without_origins_is_unchanged() {
    let origins = set_of(&["https://x.org"]);
    assert_eq!(rewrite_origins("<p>plain text</p>", &origins), "<p>plain text</p>");
    assert_eq!(rewrite_page("<p>plain text</p>", &origins), "<p>plain text</p>");
}

#[test]
fn site_index_only_without_entry_page() {
    let files = vec!["10.html".to_string(), "9.html".to_string(), "s.css".to_string()];
    assert_eq!(site_index(&vec![false, false, true, false], &files).unwrap(), None);
    let body = site_index(&vec![false, false, false, false], &files).unwrap().unwrap();
    assert_eq!(body, index_page(&files).unwrap());
    let a = body.find("9.html").unwrap();
    let b = body.find("10.html").unwrap();
    assert!(a < b);
    assert_eq!(
        site_index(&vec![false; 4], &vec!["s.css".to_string()]).unwrap_err(),
        "Aucune page HTML extraite du WARC."
    );
}

#[test]
fn natural_order_is_transitive_on_small_numbers() {
    assert_eq!(nat_cmp("2a.html", "10b.html"), Ordering::Less);
    assert_eq!(nat_cmp("10b.html", "abc.html"), Ordering::Less);
    assert_eq!(nat_cmp("2a.html", "abc.html"), Ordering::Less);
    assert_eq!(nat_cmp("", "1.html"), Ordering::Less);
    assert_eq!(nat_cmp("-x.html", "1.html"), Ordering::Less);
}

#[test]
fn query_and_fragment_do_not_move_a_record() {
    for u in ["https://ex.com/a/b", "https://ex.com/", "https://ex.com/c.html", "http://h/Figures/f.png"] {
        for sep in ["?", "#"] {
            for q in ["", "x=1", "p/q/../r", "a b", "x ", " >", "<\t"] {
                let w = format!("{u}{sep}{q}");
                for html in [false, true] {
                    assert_eq!(url_to_rel_with(&w, html), url_to_rel_with(u, html), "{w}");
                }
            }
        }
    }
}

#[test]
fn split_gives_back_status_and_payload() {
    for status in [200u16, 204, 404, 65535] {
        let head = format!("HTTP/1.1 {status} Whatever\r\nX-A: b");
        let payload: &[u8] = b"\r\n\r\npayload\x00\xff";
        let body = [head.as_bytes(), b"\r\n\r\n", payload].concat();
        assert_eq!(split_http(&body), Some((status, payload.to_vec())));
    }
    assert!(split_http(b"HTTP/1.1 200 OK\r\nX: y\r\n\r").is_none());
    assert!(split_http(b"HTTP/1.1 200 OK").is_none());
}

/// Reads `stream` handing the step `piece` bytes at a time, as a file
/// reader would, and returns the paths stored and the final error.
fn stream_in_pieces(stream: &[u8], piece: usize, tail: Option<String>) -> (Vec<String>, Option<String>, usize) {
    let mut buf: Vec<u8> = Vec::new();
    let mut pos = 0;
    let mut at_end = false;
    let mut rels = Vec::new();
    let mut most = 0;
    let tail_now = |end: bool| if end { tail.clone() } else { None };
    loop {
        most = most.max(buf.len());
        match next_record(&buf, at_end, &tail_now(at_end)) {
            None => {
                if pos >= stream.len() {
                    at_end = true;
                } else {
                    let end = (pos + piece).min(stream.len());
                    buf.extend_from_slice(&stream[pos..end]);
                    pos = end;
                }
            }
            Some(Err(e)) => return (rels, Some(e), most),
            Some(Ok(None)) => return (rels, None, most),
            Some(Ok(Some((rec, next)))) => {
                if let Some(r) = rec {
                    rels.push(r.rel);
                }
                buf.drain(..next);
            }
        }
    }
}

#[test]
fn stream_in_pieces_reads_as_a_whole() {
    let warc = [
        response("https://ex.com/", "text/html", b"<html>home</html>"),
        response("https://ex.com/s.css", "text/css", b"body{}"),
        resource("urn:pageinfo:https://ex.com/", "application/json", b"{}"),
        response("https://ex.com/blog/", "text/html", b"<html>blog</html>"),
    ]
    .concat();
    let whole = read_records(&warc, &None);
    let want: Vec<String> = whole.records.iter().map(|r| r.rel.clone()).collect();
    assert_eq!(want, vec!["index.html", "s.css", "blog/index.html"]);
    for piece in [1, 2, 7, 64, 100000] {
        let (rels, err, _) = stream_in_pieces(&warc, piece, None);
        assert_eq!(rels, want, "piece {piece}");
        assert_eq!(err, whole.error);
    }
    let cut = &warc[..warc.len() - 10];
    let whole_cut = read_records(cut, &Some("boom".to_string()));
    let (rels, err, _) = stream_in_pieces(cut, 5, Some("boom".to_string()));
    assert_eq!(rels.len(), whole_cut.records.len());
    assert_eq!(err, whole_cut.error);
}

#[test]
fn oversized_record_refused_before_its_body() {
    let head = format!(
        "WARC/1.0\r\nWARC-Type: resource\r\nWARC-Target-URI: https://ex.com/big\r\nContent-Length: {}\r\n\r\n",
        MAX_WARC_RECORD + 1
    );
    let mut stream = head.clone().into_bytes();
    stream.extend(std::iter::repeat(b'x').take(1 << 20));
    let (rels, err, most) = stream_in_pieces(&stream, 4096, None);
    assert!(rels.is_empty());
    assert!(err.unwrap().starts_with("enregistrement WARC trop gros ("));
    assert!(most < head.len() + 4096);
    assert!(next_record(b"WARC/1.0\r\nContent-Len", false, &None).is_none());
    assert!(next_record(b"", false, &None).is_none());
    assert!(matches!(next_record(b"", true, &None), Some(Ok(None))));
}

#[test]
fn later_header_replaces_earlier_one() {
    let body = b"hello";
    let mut rec = format!(
        "WARC/1.0\r\nWARC-Type: resource\r\nWARC-Target-URI: https://ex.com/a.txt\r\nContent-Type: text/plain\r\nwarc-target-uri: https://ex.com/b.txt\r\nContent-Length: {}\r\n\r\n",
        body.len()
    )
    .into_bytes();
    rec.extend_from_slice(body);
    rec.extend_from_slice(b"\r\n\r\n");
    let scan = read_records(&rec, &None);
    assert!(scan.error.is_none());
    assert_eq!(scan.records.len(), 1);
    assert_eq!(scan.records[0].rel, "b.txt");
    assert_eq!(scan.records[0].payload, b"hello");
}
