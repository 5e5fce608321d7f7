use std::io::Read;

use hub::gzip::{compress, GzCache, GZIP_MIN};
use hub::http::{
    accepts_gzip, compressible, conn_hdr, content_length, find_bytes, header_value, post_body,
    request_line, take_request, vary, wants_keepalive, ReadStep, MAX_REQUEST,
};
use hub::response::respond;

fn taken(carry: &mut Vec<u8>) -> Vec<u8> {
    match take_request(carry) {
        ReadStep::Request(r) => r,
        _ => panic!("no request"),
    }
}

#[test]
fn a_request_may_come_in_pieces() {
    let whole = b"POST /wifi/connect HTTP/1.1\r\nCONTENT-length: 5\r\n\r\nhello".to_vec();
    let mut carry = Vec::new();
    for (i, b) in whole.iter().enumerate() {
        carry.push(*b);
        if i + 1 < whole.len() {
            assert!(matches!(take_request(&mut carry), ReadStep::More));
        }
    }
    assert_eq!(taken(&mut carry), whole);
    assert!(carry.is_empty());
}

#[test]
fn requests_that_come_together_are_taken_one_by_one() {
    let mut carry = b"GET /a HTTP/1.1\r\n\r\nPOST /b HTTP/1.1\r\nContent-Length: 2\r\n\r\nxyGET".to_vec();
    assert_eq!(taken(&mut carry), b"GET /a HTTP/1.1\r\n\r\n");
    assert_eq!(taken(&mut carry), b"POST /b HTTP/1.1\r\nContent-Length: 2\r\n\r\nxy");
    assert_eq!(carry, b"GET");
}

#[test]
fn what_never_ends_is_closed() {
    let mut carry = vec![b'a'; MAX_REQUEST - 1];
    assert!(matches!(take_request(&mut carry), ReadStep::More));
    carry.push(b'a');
    assert!(matches!(take_request(&mut carry), ReadStep::Close));
    let mut huge = b"GET / HTTP/1.1\r\nContent-Length: 18446744073709551615\r\n\r\n".to_vec();
    assert!(matches!(take_request(&mut huge), ReadStep::More));
}

#[test]
fn lengths_are_read_from_the_head() {
    assert_eq!(content_length(b"GET / HTTP/1.1\r\n\r\n"), 0);
    assert_eq!(content_length(b"A: b\r\ncontent-LENGTH:  12 \r\n\r\n"), 12);
    assert_eq!(content_length(b"Content-Length: twelve\r\n\r\n"), 0);
    assert_eq!(content_length(b"X: \xff\r\nContent-Length: 3\r\n\r\n"), 3);
    assert_eq!(find_bytes(b"abcbc", b"bc"), Some(1));
    assert_eq!(find_bytes(b"abc", b"bd"), None);
}

#[test]
fn a_body_is_no_header() {
    let req = "POST / HTTP/1.1\r\nA: b\r\n\r\nConnection: close\r\n";
    assert_eq!(header_value(req, "connection"), None);
    assert_eq!(header_value(req, "a").as_deref(), Some("b"));
    assert_eq!(post_body(req), "Connection: close\r\n");
    assert_eq!(post_body("GET / HTTP/1.1\r\n"), "");
}

#[test]
fn the_request_line_is_read_without_its_query() {
    let two = |m: &str, p: &str| (m.to_string(), p.to_string());
    assert_eq!(request_line("GET /welcome?done=1 HTTP/1.1\r\n"), two("GET", "/welcome"));
    assert_eq!(request_line(""), two("GET", "/"));
    assert_eq!(request_line("POST"), two("POST", "/"));
}

#[test]
fn connections_stay_open_as_the_protocol_says() {
    assert!(wants_keepalive("GET / HTTP/1.1\r\n\r\n"));
    assert!(!wants_keepalive("GET / HTTP/1.0\r\n\r\n"));
    assert!(wants_keepalive("GET / HTTP/1.0\r\nConnection: Keep-Alive\r\n\r\n"));
    assert!(!wants_keepalive("GET / HTTP/1.1\r\nConnection: keep-alive, CLOSE\r\n\r\n"));
    assert_eq!(conn_hdr(true), "Connection: keep-alive\r\nKeep-Alive: timeout=15\r\n");
    assert_eq!(conn_hdr(false), "Connection: close\r\n");
}

#[test]
fn gzip_is_sent_only_where_it_is_taken() {
    let with = |v: &str| accepts_gzip(&format!("GET / HTTP/1.1\r\nAccept-Encoding: {v}\r\n\r\n"));
    assert!(with("gzip"));
    assert!(with("br, gzip;q=0.8"));
    assert!(!with("br"));
    assert!(!with("x-gzip"));
    assert!(!accepts_gzip("GET / HTTP/1.1\r\n\r\n"));
    assert!(compressible("text/html; charset=utf-8"));
    assert!(compressible("application/wasm"));
    assert!(!compressible("image/png"));
    assert_eq!(vary("text/plain"), "Vary: Accept-Encoding\r\n");
    assert_eq!(vary("font/woff2"), "");
}

fn unzip(bytes: &[u8]) -> Vec<u8> {
    let mut out = Vec::new();
    flate2::read::GzDecoder::new(bytes).read_to_end(&mut out).unwrap();
    out
}

#[test]
fn compressed_bodies_unpack_to_what_they_were() {
    let body = vec![b'a'; 4 * GZIP_MIN];
    let gz = compress(&body).unwrap();
    assert!(gz.len() < body.len());
    assert_eq!(unzip(&gz), body);
}

#[test]
fn the_cache_answers_for_its_key_alone() {
    let mut cache = GzCache::new();
    let first = vec![b'x'; 2000];
    let (a, zipped) = cache.gzip_body(Some("k".to_string()), first.clone());
    assert!(zipped);
    assert_eq!(unzip(&a), first);
    let (b, _) = cache.gzip_body(Some("k".to_string()), vec![b'y'; 2000]);
    assert_eq!(unzip(&b), first);
    let (c, _) = cache.gzip_body(None, vec![b'y'; 2000]);
    assert_eq!(unzip(&c), vec![b'y'; 2000]);
    assert_eq!(cache.lookup(&Some("other".to_string())), None);
}

#[test]
fn what_cannot_be_compressed_goes_out_as_it_is() {
    let mut cache = GzCache::new();
    let (sent, zipped) = cache.settle(Some("k".to_string()), b"body".to_vec(), None);
    assert_eq!(sent, b"body");
    assert!(!zipped);
    assert_eq!(cache.lookup(&Some("k".to_string())), None);
}

#[test]
fn responses_have_their_head() {
    let r = respond("200 OK", "application/json", "/fleet", false, b"{}", false, true);
    assert_eq!(
        String::from_utf8(r).unwrap(),
        "HTTP/1.1 200 OK\r\nContent-Type: application/json\r\nContent-Length: 2\r\n\
         Access-Control-Allow-Origin: *\r\nX-Frame-Options: SAMEORIGIN\r\n\
         Vary: Accept-Encoding\r\n\
         Connection: keep-alive\r\nKeep-Alive: timeout=15\r\n\r\n{}"
    );
    let r = respond("302 Found", "text/plain", "/x", true, b"", false, false);
    assert_eq!(
        String::from_utf8(r).unwrap(),
        "HTTP/1.1 302 Found\r\nContent-Type: text/plain\r\nContent-Length: 0\r\n\
         Location: http://10.42.0.1/welcome\r\nX-Frame-Options: SAMEORIGIN\r\n\
         Cache-Control: no-store\r\nVary: Accept-Encoding\r\nConnection: close\r\n\r\n"
    );
}

#[test]
fn responses_are_taken_whole() {
    let body = b"\r\n\r\nContent-Length: 9\r\n\r\n";
    let mut stream = respond("200 OK", "image/png", "/icon.svg", false, body, false, true);
    let whole = stream.clone();
    stream.extend_from_slice(b"HTTP/1.1 ");
    assert_eq!(taken(&mut stream), whole);
    assert_eq!(stream, b"HTTP/1.1 ");
}
