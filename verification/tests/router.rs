use hub::gzip::{compress, GzCache};
use hub::http::{take_request, ReadStep};
use hub::ide::{ide_validate, FileMeta, Validated};
use hub::router::{
    answer, fixed_answer, fleeting, gz_key, live_head, read_incoming, route, send, take_apart,
    wants_gzip, Incoming, Probe, Route,
};

const TO_US: &str = "GET /x HTTP/1.1\r\nHost: hub.local\r\n\r\n";
const ELSEWHERE: &str = "GET /x HTTP/1.1\r\nHost: example.com\r\n\r\n";

#[test]
fn every_route_has_its_path() {
    let get = |path: &str| route("GET", path, TO_US);
    assert!(matches!(get("/ide"), Route::Ide));
    assert!(matches!(get("/ide/a.js"), Route::Ide));
    assert!(matches!(get("/idea"), Route::NotFound));
    assert!(matches!(get("/fleet"), Route::Fleet));
    assert!(matches!(get("/"), Route::Dashboard));
    assert!(matches!(get("/index.html"), Route::Dashboard));
    assert!(matches!(get("/icon.svg"), Route::Icon));
    assert!(matches!(get("/wifi/scan"), Route::WifiScan));
    assert!(matches!(get("/wifi/status"), Route::WifiStatus));
    assert!(matches!(get("/captive"), Route::CaptiveApi));
    assert!(matches!(get("/welcome"), Route::Welcome));
    assert!(matches!(get("/wifi/connect"), Route::NotFound));
    let post = |path: &str| route("POST", path, ELSEWHERE);
    assert!(matches!(post("/wifi/connect"), Route::WifiConnect));
    assert!(matches!(post("/wifi/forget"), Route::WifiForget));
    assert!(matches!(post("/captive/ack"), Route::Accept));
    assert!(matches!(post("/"), Route::NotFound));
    assert!(matches!(route("OPTIONS", "/wifi/connect", ELSEWHERE), Route::NotFound));
}

#[test]
fn a_greeted_device_gets_the_genuine_answers() {
    let rows = [
        ("/generate_204", "204 No Content", "text/plain", ""),
        (
            "/hotspot-detect.html",
            "200 OK",
            "text/html",
            "<HTML><HEAD><TITLE>Success</TITLE></HEAD><BODY>Success</BODY></HTML>",
        ),
        (
            "/library/test/success.html",
            "200 OK",
            "text/html",
            "<HTML><HEAD><TITLE>Success</TITLE></HEAD><BODY>Success</BODY></HTML>",
        ),
        ("/connecttest.txt", "200 OK", "text/plain", "Microsoft Connect Test"),
        ("/ncsi.txt", "200 OK", "text/plain", "Microsoft NCSI"),
        ("/success.txt", "200 OK", "text/plain", "success\n"),
    ];
    for (path, status, ctype, body) in rows {
        for req in [TO_US, ELSEWHERE] {
            let r = route("GET", path, req);
            assert!(fleeting(&r));
            let (s, t, b) = fixed_answer(&r, true).unwrap();
            assert_eq!((s, t, b.as_str()), (status, ctype, body), "{path}");
            let (s, t, b) = fixed_answer(&r, false).unwrap();
            assert_eq!((s, t, b.as_str()), ("302 Found", "text/plain", ""), "{path}");
        }
    }
}

#[test]
fn other_probes_are_caught_and_typos_are_not() {
    let caught = route("GET", "/gen_204", ELSEWHERE);
    assert!(matches!(caught, Route::Captured));
    assert!(fleeting(&caught));
    assert_eq!(fixed_answer(&caught, true).unwrap().0, "204 No Content");
    assert_eq!(fixed_answer(&caught, false).unwrap().0, "302 Found");
    let typo = route("GET", "/fleeet", TO_US);
    assert!(!fleeting(&typo));
    for acked in [true, false] {
        let (s, t, b) = fixed_answer(&typo, acked).unwrap();
        assert_eq!((s, t, b.as_str()), ("404 Not Found", "text/plain", "not found"));
    }
    assert!(matches!(route("GET", "/", ELSEWHERE), Route::Dashboard));
}

#[test]
fn the_captive_api_says_that_nothing_is_blocked() {
    let (s, t, b) = fixed_answer(&Route::CaptiveApi, false).unwrap();
    assert_eq!(s, "200 OK");
    assert_eq!(t, "application/captive+json");
    assert_eq!(b, r#"{"captive":false,"venue-info-url":"http://10.42.0.1/"}"#);
    assert!(fleeting(&Route::CaptiveApi));
    assert!(fixed_answer(&Route::Fleet, true).is_none());
    assert!(fixed_answer(&Route::Probe(Probe::Firefox), true).is_some());
}

fn incoming(path: &str, gzip: bool) -> Incoming {
    let accept = if gzip { "Accept-Encoding: gzip\r\n" } else { "" };
    take_apart(format!("GET {path} HTTP/1.1\r\nHost: hub\r\n{accept}\r\n"))
}

#[test]
fn a_request_is_taken_apart() {
    let r = read_incoming(b"POST /wifi/connect?x=1 HTTP/1.0\r\nConnection: close\r\n\r\n{\"ssid\":\"a\"}");
    assert_eq!(r.method, "POST");
    assert_eq!(r.path, "/wifi/connect");
    assert_eq!(r.body, "{\"ssid\":\"a\"}");
    assert!(!r.keep);
    let odd = read_incoming(b"GET /\xff HTTP/1.1\r\n\r\n");
    assert_eq!(odd.path, "/\u{fffd}");
    assert!(odd.keep);
}

#[test]
fn answers_go_out_whole() {
    let mut cache = GzCache::new();
    let typo = Route::NotFound;
    let r = answer(&mut cache, &incoming("/x", false), &typo, fixed_answer(&typo, true).unwrap());
    assert_eq!(
        String::from_utf8(r).unwrap(),
        "HTTP/1.1 404 Not Found\r\nContent-Type: text/plain\r\nContent-Length: 9\r\n\
         X-Frame-Options: SAMEORIGIN\r\nVary: Accept-Encoding\r\n\
         Connection: keep-alive\r\nKeep-Alive: timeout=15\r\n\r\nnot found"
    );
    let probe = Route::Probe(Probe::Android);
    let r = answer(&mut cache, &incoming("/generate_204", false), &probe, fixed_answer(&probe, false).unwrap());
    let r = String::from_utf8(r).unwrap();
    assert!(r.starts_with("HTTP/1.1 302 Found\r\n"));
    assert!(r.contains("\r\nLocation: http://10.42.0.1/welcome\r\n"));
    assert!(r.contains("\r\nCache-Control: no-store\r\n"));
}

#[test]
fn live_answers_have_their_head() {
    for (r, ctype) in [
        (Route::Fleet, "application/json"),
        (Route::WifiScan, "application/json"),
        (Route::WifiStatus, "application/json"),
        (Route::Dashboard, "text/html; charset=utf-8"),
        (Route::Welcome, "text/html; charset=utf-8"),
        (Route::Icon, "image/svg+xml"),
    ] {
        assert_eq!(live_head(&r), Some(("200 OK", ctype)));
        assert!(fixed_answer(&r, true).is_none());
        assert!(!fleeting(&r));
    }
    for r in [Route::Ide, Route::WifiConnect, Route::Accept, Route::NotFound, Route::Captured] {
        assert_eq!(live_head(&r), None);
    }
}

#[test]
fn every_answer_names_its_length_and_forbids_frames() {
    let body = b"\r\n\r\nX: y\r\n\r\n";
    for path in ["/fleet", "/wifi/scan"] {
        let req = incoming(path, true);
        let at = route(&req.method, &req.path, &req.text);
        let (status, ctype) = live_head(&at).unwrap();
        assert!(!wants_gzip(body, ctype, &req.text));
        let mut stream = send(&req, &at, status, ctype, body, false);
        let whole = stream.clone();
        let text = String::from_utf8(stream.clone()).unwrap();
        assert!(text.contains("\r\nContent-Length: 12\r\n"));
        assert!(text.contains("\r\nX-Frame-Options: SAMEORIGIN\r\n"));
        assert_eq!(text.contains("\r\nAccess-Control-Allow-Origin: *\r\n"), path == "/fleet");
        assert!(!text.contains("Content-Encoding"));
        stream.extend_from_slice(b"more");
        match take_request(&mut stream) {
            ReadStep::Request(r) => assert_eq!(r, whole),
            _ => panic!("not whole"),
        }
    }
    assert!(wants_gzip(&[b'a'; 1024], "text/html", &incoming("/", true).text));
    assert!(!wants_gzip(&[b'a'; 1024], "text/html", &incoming("/", false).text));
    assert!(!wants_gzip(&[b'a'; 1024], "image/png", &incoming("/", true).text));
}

#[test]
fn a_query_changes_nothing() {
    for host in ["hub", "example.com"] {
        let plain = take_apart(format!("GET /nope HTTP/1.1\r\nHost: {host}\r\n\r\n"));
        let asked = take_apart(format!("GET /nope?host:x&a=b HTTP/1.1\r\nHost: {host}\r\n\r\n"));
        assert_eq!((&plain.method, &plain.path, plain.keep), (&asked.method, &asked.path, asked.keep));
        let at = |r: &Incoming| fixed_answer(&route(&r.method, &r.path, &r.text), false).unwrap();
        assert_eq!(at(&plain), at(&asked));
        assert_eq!(at(&asked).0, if host == "hub" { "404 Not Found" } else { "302 Found" });
    }
}

#[test]
fn only_constant_pages_are_remembered() {
    assert_eq!(gz_key("/").as_deref(), Some("dashboard"));
    assert_eq!(gz_key("/index.html").as_deref(), Some("dashboard"));
    assert_eq!(gz_key("/icon.svg").as_deref(), Some("icon.svg"));
    assert_eq!(gz_key("/fleet"), None);
    let mut cache = GzCache::new();
    let page = |c: char| ("200 OK", "text/html", c.to_string().repeat(2000));
    let a = answer(&mut cache, &incoming("/", true), &Route::Dashboard, page('a'));
    let b = answer(&mut cache, &incoming("/", true), &Route::Dashboard, page('b'));
    assert_eq!(a, b);
    let c = answer(&mut cache, &incoming("/wifi/scan", true), &Route::WifiScan, page('a'));
    let d = answer(&mut cache, &incoming("/wifi/scan", true), &Route::WifiScan, page('b'));
    assert_ne!(c, d);
    let head = String::from_utf8_lossy(&a).into_owned();
    assert!(head.contains("\r\nContent-Encoding: gzip\r\n"));
    let plain = answer(&mut cache, &incoming("/", false), &Route::Dashboard, page('b'));
    assert!(plain.ends_with("b".repeat(2000).as_bytes()));
}

#[test]
fn pages_and_files_are_called_what_they_are() {
    let mut cache = GzCache::new();
    let page = "a".repeat(2000);
    let file = vec![b'f'; 3000];
    let meta = Some(FileMeta { len: 3000, modified: Some(7) });
    let req = incoming("/ide/dashboard", true);
    let key = match ide_validate("dashboard.js", &req.text, &meta, true) {
        Validated::Read { gz, key } => {
            assert!(gz);
            key
        }
        Validated::Send(_) => panic!("sends"),
    };
    assert_eq!(key.as_deref(), Some("dashboard.js:\"7-bb8-gz\""));
    for _ in 0..2 {
        let reply = ("200 OK", "text/html", page.clone());
        let a = answer(&mut cache, &incoming("/", true), &Route::Dashboard, reply);
        assert!(String::from_utf8_lossy(&a).contains("\r\nContent-Encoding: gzip\r\n"));
        assert!(a.ends_with(&compress(page.as_bytes()).unwrap()));
        let (out, zipped) = cache.gzip_body(key.clone(), file.clone());
        assert!(zipped);
        assert_eq!(out, compress(&file).unwrap());
        cache.settle(key.clone(), file.clone(), compress(&file));
    }
}
