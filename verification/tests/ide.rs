use hub::http::{take_request, ReadStep};
use hub::ide::{
    ide_mime, ide_missing, ide_open, ide_send, ide_target, ide_validate, FileMeta, Opened, Target,
    Validated,
};

#[test]
fn content_types_go_by_the_extension() {
    for (path, ctype) in [
        ("index.html", "text/html; charset=utf-8"),
        ("a.js", "application/javascript; charset=utf-8"),
        ("vendor/micropython.mjs", "application/javascript; charset=utf-8"),
        ("a.css", "text/css; charset=utf-8"),
        ("a.json", "application/json; charset=utf-8"),
        ("a.js.map", "application/json; charset=utf-8"),
        ("a.svg", "image/svg+xml"),
        ("a.png", "image/png"),
        ("a.jpg", "image/jpeg"),
        ("a.jpeg", "image/jpeg"),
        ("a.ico", "image/x-icon"),
        ("a.webmanifest", "application/manifest+json"),
        ("a.woff2", "font/woff2"),
        ("a.wasm", "application/wasm"),
        ("README.md", "text/plain; charset=utf-8"),
        ("a.txt", "text/plain; charset=utf-8"),
        ("LICENSE", "application/octet-stream"),
        (".html", "application/octet-stream"),
        ("a.html/", "text/html; charset=utf-8"),
        ("a.html/.", "text/html; charset=utf-8"),
        ("a.html/..", "application/octet-stream"),
        ("dir.js/file", "application/octet-stream"),
        ("a.", "application/octet-stream"),
        ("A.HTML", "application/octet-stream"),
        ("", "application/octet-stream"),
    ] {
        assert_eq!(ide_mime(path), ctype, "{path}");
        let ext = std::path::Path::new(path).extension().and_then(|e| e.to_str()).unwrap_or("");
        assert_eq!(ide_mime(&format!("x.{ext}")), ctype, "{path}");
    }
}

fn file(path: &str) -> String {
    match ide_target(path) {
        Target::File(rel) => rel,
        _ => panic!("no file: {path}"),
    }
}

#[test]
fn paths_name_files_of_the_bundle() {
    assert_eq!(file("/ide/"), "index.html");
    assert_eq!(file("/ide/?hub=10.42.0.1"), "index.html");
    assert_eq!(file("/ide/a/b.js?v=1"), "a/b.js");
    assert_eq!(file("/ide//ide/a"), "/ide/a".trim_start_matches("/ide/"));
    assert_eq!(file("/ide/a..b"), "a..b");
    assert!(matches!(ide_target("/ide"), Target::Redirect));
    assert!(matches!(ide_target("/ide?x"), Target::Redirect));
}

#[test]
fn no_path_leaves_the_bundle() {
    for path in ["/ide/../etc/passwd", "/ide/a/../../b", "/ide/..", "/ide//etc/passwd"] {
        assert!(matches!(ide_target(path), Target::Forbidden), "{path}");
    }
}

fn text(bytes: Vec<u8>) -> String {
    String::from_utf8(bytes).unwrap()
}

#[test]
fn redirects_and_refusals_have_no_body() {
    match ide_open("/ide", true) {
        Opened::Send(b) => assert_eq!(
            text(b),
            "HTTP/1.1 301 Moved Permanently\r\nLocation: /ide/\r\nContent-Length: 0\r\n\
             Connection: keep-alive\r\nKeep-Alive: timeout=15\r\n\r\n"
        ),
        Opened::Stat(_) => panic!("stat"),
    }
    match ide_open("/ide/../x", false) {
        Opened::Send(b) => assert_eq!(
            text(b),
            "HTTP/1.1 403 Forbidden\r\nContent-Length: 0\r\nConnection: close\r\n\r\n"
        ),
        Opened::Stat(_) => panic!("stat"),
    }
    assert!(matches!(ide_open("/ide/a.js", true), Opened::Stat(rel) if rel == "a.js"));
}

fn meta(modified: u64, len: u64) -> Option<FileMeta> {
    Some(FileMeta { len, modified: Some(modified) })
}

#[test]
fn a_copy_that_is_still_good_is_not_sent_again() {
    let m = meta(0x65a0, 0x1000);
    let req = "GET /ide/a.js HTTP/1.1\r\nAccept-Encoding: gzip\r\nIf-None-Match: \"x\", \"65a0-1000-gz\"\r\n\r\n";
    match ide_validate("a.js", req, &m, false) {
        Validated::Send(b) => assert_eq!(
            text(b),
            "HTTP/1.1 304 Not Modified\r\nETag: \"65a0-1000-gz\"\r\nCache-Control: no-cache\r\n\
             Vary: Accept-Encoding\r\nAccess-Control-Allow-Origin: *\r\nConnection: close\r\n\r\n"
        ),
        Validated::Read { .. } => panic!("read"),
    }
}

#[test]
fn each_encoding_has_its_own_validator() {
    let m = meta(0x65a0, 0x1000);
    let plain = "GET /ide/a.js HTTP/1.1\r\nIf-None-Match: \"65a0-1000-gz\"\r\n\r\n";
    match ide_validate("a.js", plain, &m, false) {
        Validated::Read { gz, key } => {
            assert!(!gz);
            assert_eq!(key.as_deref(), Some("a.js:\"65a0-1000-gz\""));
        }
        Validated::Send(_) => panic!("sent"),
    }
    let newer = "GET /ide/a.js HTTP/1.1\r\nIf-None-Match: \"65a0-1000\"\r\n\r\n";
    assert!(matches!(ide_validate("a.js", newer, &m, false), Validated::Send(_)));
    let m2 = meta(0x65a1, 0x1000);
    assert!(matches!(ide_validate("a.js", newer, &m2, false), Validated::Read { .. }));
}

#[test]
fn compression_is_decided_before_the_file_is_read() {
    let req = "GET / HTTP/1.1\r\nAccept-Encoding: gzip\r\n\r\n";
    let gz = |rel: &str, m: &Option<FileMeta>| match ide_validate(rel, req, m, true) {
        Validated::Read { gz, .. } => gz,
        Validated::Send(_) => panic!("sent"),
    };
    assert!(gz("a.js", &meta(1, 1024)));
    assert!(!gz("a.js", &meta(1, 1023)));
    assert!(!gz("a.png", &meta(1, 4096)));
    assert!(!gz("a.js", &None));
    assert!(gz("a.js", &Some(FileMeta { len: 2000, modified: None })));
}

#[test]
fn files_go_out_with_their_head() {
    let r = ide_send("a.js", &meta(0xab, 3), b"x=1", false, true);
    assert_eq!(
        text(r),
        "HTTP/1.1 200 OK\r\nContent-Type: application/javascript; charset=utf-8\r\n\
         Content-Length: 3\r\nCache-Control: no-cache\r\nVary: Accept-Encoding\r\n\
         ETag: \"ab-3\"\r\nAccess-Control-Allow-Origin: *\r\n\
         Connection: keep-alive\r\nKeep-Alive: timeout=15\r\n\r\nx=1"
    );
    let r = ide_send("a.bin", &None, b"", true, false);
    assert_eq!(
        text(r),
        "HTTP/1.1 200 OK\r\nContent-Type: application/octet-stream\r\nContent-Length: 0\r\n\
         Cache-Control: no-cache\r\nContent-Encoding: gzip\r\nAccess-Control-Allow-Origin: *\r\n\
         Connection: close\r\n\r\n"
    );
}

#[test]
fn a_missing_bundle_says_how_to_get_it() {
    assert_eq!(
        text(ide_missing(true, false)),
        "HTTP/1.1 404 Not Found\r\nContent-Type: text/plain; charset=utf-8\r\n\
         Content-Length: 9\r\nConnection: close\r\n\r\nnot found"
    );
    let body = "IDE bundle not installed \u{2014} run deploy/install.sh (needs internet), or place better-robotics/ide's built dist at /usr/share/hub/ide";
    let r = text(ide_missing(false, false));
    assert!(r.ends_with(body));
    assert!(r.contains(&format!("Content-Length: {}\r\n", body.len())));
}

#[test]
fn files_are_taken_whole_whatever_they_hold() {
    let body = [13u8, 10, 13, 10, 0, 255, 13, 10];
    let mut stream = ide_send("a.png", &meta(1, 8), &body, false, true);
    let whole = stream.clone();
    stream.extend_from_slice(&ide_missing(true, true));
    match take_request(&mut stream) {
        ReadStep::Request(r) => assert_eq!(r, whole),
        _ => panic!("not whole"),
    }
    assert_eq!(stream, ide_missing(true, true));
}
