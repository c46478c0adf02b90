use std::sync::atomic::{AtomicBool, Ordering};
use std::sync::Arc;

use taurus::pack::{
    archive_kind, choose_archive, entry_pages, collection_archive_name, content_type, file_extension,
    file_headers, file_stem, is_pack, is_pack_file, is_rewritable, is_warc_name, is_web_archive,
    not_a_pack_message, pack_title, refusal_reply, request_path, request_verdict,
    resolve_input, resolve_served_path, served_file, site_root_step, skip_name, window_label,
    warc_members, window_title, ArchiveKind, ArchivePick, PackServer, PathKind, Refusal, Resolved,
    SiteRoot,
};

#[test]
fn serves_directory_index() {
    // The root serves index.html; a directory, with or without its slash,
    // serves its index.html.
    assert_eq!(served_file(""), "index.html");
    assert_eq!(resolve_served_path("", true, false).unwrap(), "index.html");
    assert_eq!(served_file("blog/"), "blog");
    assert_eq!(resolve_served_path("blog/", false, true).unwrap(), "blog/index.html");
    assert_eq!(resolve_served_path("blog", false, true).unwrap(), "blog/index.html");
    assert_eq!(resolve_served_path("//a/b.css//", true, true).unwrap(), "a/b.css");
    assert!(resolve_served_path("nothing", false, false).is_none());
}

#[test]
fn finds_wacz_in_collection_dir() {
    assert_eq!(collection_archive_name("example"), "example.wacz");
    let entries = vec![("example.wacz".to_string(), true)];
    assert!(matches!(choose_archive(true, &entries, &None), Some(ArchivePick::Named)));
    assert_eq!(resolve_input("example", PathKind::Dir, true).unwrap(), Resolved::Found);
}

#[test]
fn archive_choice_preferences() {
    let entries = vec![
        ("b.zip".to_string(), true),
        ("z.warc".to_string(), true),
        ("B.WACZ".to_string(), true),
        ("a.wacz".to_string(), false),
        ("c.wacz".to_string(), true),
    ];
    match choose_archive(false, &entries, &None) {
        Some(ArchivePick::Top(n)) => assert_eq!(n, "B.WACZ"),
        _ => panic!("expected a top-level wacz"),
    }
    let no_wacz = vec![("b.zip".to_string(), true), ("z.warc.gz".to_string(), true)];
    let nested = Some(vec!["r2.warc".to_string(), "notes".to_string(), "r1.warc.gz".to_string()]);
    match choose_archive(false, &no_wacz, &nested) {
        Some(ArchivePick::Nested(n)) => assert_eq!(n, "r1.warc.gz"),
        _ => panic!("expected a nested warc"),
    }
    match choose_archive(false, &no_wacz, &Some(vec!["x.txt".to_string()])) {
        Some(ArchivePick::Top(n)) => assert_eq!(n, "z.warc.gz"),
        _ => panic!("expected a top-level warc"),
    }
    match choose_archive(false, &vec![("b.zip".to_string(), true), ("a.zip".to_string(), true)], &None) {
        Some(ArchivePick::Top(n)) => assert_eq!(n, "a.zip"),
        _ => panic!("expected a zip"),
    }
    assert!(choose_archive(false, &vec![("a.txt".to_string(), true)], &None).is_none());
}

#[test]
fn pack_names() {
    assert!(is_web_archive("crawl.WACZ"));
    assert!(is_web_archive("c.warc.gz"));
    assert!(is_pack_file("c.warc.gz"));
    assert!(!is_web_archive("c.gz"));
    assert!(is_pack_file("course.ZIP"));
    assert!(is_pack_file("x.warc"));
    assert!(!is_pack_file(".zip"));
    assert!(!is_pack_file("notes.txt"));
    assert!(is_pack("anything", true, true));
    assert!(!is_pack("a.zip", true, false));
    assert!(is_warc_name("A.WARC"));
    assert!(!is_warc_name("a.wacz"));
    assert!(is_rewritable("page.HTM"));
    assert!(is_rewritable("s.css"));
    assert!(!is_rewritable("app.js"));
    assert_eq!(file_extension("archive.tar.gz").unwrap(), "gz");
    assert_eq!(file_extension("name.").unwrap(), "");
    assert!(file_extension(".hidden").is_none());
    assert!(file_extension("..").is_none());
    assert_eq!(file_stem("archive.tar.gz"), "archive.tar");
    assert_eq!(file_stem(".hidden"), ".hidden");
    assert_eq!(pack_title(Some("cours.zip")), "cours");
    assert_eq!(pack_title(None), "pack");
    assert!(skip_name("__MACOSX"));
    assert!(skip_name(".git"));
    assert!(!skip_name("site"));
}

#[test]
fn archive_kinds() {
    assert_eq!(archive_kind("x.WACZ").unwrap(), ArchiveKind::Wacz);
    assert_eq!(archive_kind("x.warc.gz").unwrap(), ArchiveKind::Warc);
    assert_eq!(archive_kind("x.zip").unwrap_err(), "Fichier .wacz ou .warc attendu.");
}

#[test]
fn site_root_decisions() {
    let present = vec![false, true, true, false];
    match site_root_step(&present, &vec![]).unwrap() {
        SiteRoot::Entry(e) => assert_eq!(e, "ouvrir.html"),
        _ => panic!("expected an entry page"),
    }
    let wrapped = vec![
        ("native".to_string(), true),
        ("__MACOSX".to_string(), true),
        (".DS_Store".to_string(), false),
    ];
    match site_root_step(&vec![false; 4], &wrapped).unwrap() {
        SiteRoot::Descend(d) => assert_eq!(wrapped[d].0, "native"),
        _ => panic!("expected a wrapper folder"),
    }
    let mixed = vec![("native".to_string(), true), ("readme.txt".to_string(), false)];
    assert_eq!(
        site_root_step(&vec![false; 4], &mixed).unwrap_err(),
        "Pas de OUVRIR.html ni index.html dans le zip."
    );
}

#[test]
fn entry_page_names() {
    assert_eq!(entry_pages(), vec!["OUVRIR.html", "ouvrir.html", "index.html", "index.htm"]);
}

#[test]
fn resolving_inputs() {
    assert_eq!(resolve_input("a.zip", PathKind::File, false).unwrap(), Resolved::Given);
    assert_eq!(
        resolve_input("dir", PathKind::Dir, false).unwrap_err(),
        "Pas de .wacz / .warc / .zip dans le dossier."
    );
    assert_eq!(
        resolve_input("/nope", PathKind::Missing, false).unwrap_err(),
        "/nope introuvable."
    );
}

#[test]
fn server_url_and_stop() {
    let flag = Arc::new(AtomicBool::new(false));
    let server = PackServer::new(8080, "index.html".to_string(), "t".to_string(), flag.clone());
    assert_eq!(server.url(), "http://127.0.0.1:8080/index.html");
    assert_eq!(server.port, 8080);
    assert_eq!(server.title, "t");
    server.stop();
    assert!(flag.load(Ordering::SeqCst));
    let zero = PackServer::new(0, "OUVRIR.html".to_string(), "x".to_string(), flag);
    assert_eq!(zero.url(), "http://127.0.0.1:0/OUVRIR.html");
}

#[test]
fn request_handling() {
    assert_eq!(request_path("/blog/?page=2"), "blog/");
    assert_eq!(request_path("//a.css"), "a.css");
    assert_eq!(request_path("?x"), "");
    assert!(request_verdict(true, true, true, true).is_none());
    assert_eq!(request_verdict(false, true, true, true), Some(Refusal::NotFound));
    assert_eq!(request_verdict(true, false, true, true), Some(Refusal::NotFound));
    assert_eq!(request_verdict(true, true, false, true), Some(Refusal::Failure));
    assert_eq!(request_verdict(true, true, true, false), Some(Refusal::Forbidden));
    assert_eq!(refusal_reply(Refusal::NotFound), (404, "introuvable".to_string()));
    assert_eq!(refusal_reply(Refusal::Forbidden), (403, "interdit".to_string()));
    assert_eq!(refusal_reply(Refusal::Failure), (500, "erreur".to_string()));
    let h = file_headers("text/css".to_string());
    assert_eq!(h[0], ("Content-Type".to_string(), "text/css".to_string()));
    assert_eq!(h[1], ("X-Content-Type-Options".to_string(), "nosniff".to_string()));
    assert_eq!(h[2], ("Cache-Control".to_string(), "no-store".to_string()));
}

#[test]
fn content_types() {
    assert_eq!(content_type("index.html"), "text/html; charset=utf-8");
    assert_eq!(content_type("a.PNG"), "image/png");
    assert_eq!(content_type("app.js"), "text/javascript; charset=utf-8");
    assert_eq!(content_type("data.json"), "application/json; charset=utf-8");
    assert_eq!(content_type("noext"), "application/octet-stream");
    assert_eq!(content_type("main.CPP"), format!("{}; charset=utf-8", mime_guess::from_ext("CPP").first_or_octet_stream().essence_str()));
    assert_eq!(content_type("pic.svg"), "image/svg+xml; charset=utf-8");
}

#[test]
fn window_texts() {
    assert_eq!(window_title("cours"), "Taurus — cours");
    assert_eq!(window_label(12), "pack-12");
    assert_eq!(window_label(0), "pack-0");
    assert_eq!(not_a_pack_message("/a/b.pdf"), "/a/b.pdf n’est pas un .zip / .wacz / .warc");
}

#[test]
fn warc_members_of_a_wacz() {
    let names: Vec<String> = ["datapackage.json", "a.warc.gz", "pages.jsonl", "b.WARC", "c.warc.txt"]
        .iter()
        .map(|s| s.to_string())
        .collect();
    assert_eq!(warc_members(&names).unwrap(), vec![1, 3]);
    let none: Vec<String> = vec!["datapackage.json".to_string()];
    assert_eq!(warc_members(&none).unwrap_err(), "Pas de .warc dans le WACZ.");
    assert_eq!(warc_members(&Vec::new()).unwrap_err(), "Pas de .warc dans le WACZ.");
}

#[test]
fn pack_server_fields_and_url() {
    let flag = Arc::new(AtomicBool::new(false));
    let server = PackServer::new(4242, "a/b.html".to_string(), "T".to_string(), flag);
    assert_eq!(server.port, 4242);
    assert_eq!(server.entry, "a/b.html");
    assert_eq!(server.title, "T");
    assert_eq!(server.url(), "http://127.0.0.1:4242/a/b.html");
}
