//! From a request to its answer.
//!
//! A request is taken apart, routed by its method and path (and, for what nothing else answers, by
//! the host it is addressed to), and answered. Some answers are fixed; the others are made by the
//! caller from what the hub knows at that moment. Every answer goes out the same way.
use vstd::prelude::*;
use vstd::string::*;
use vstd::utf8::{encode_utf8, is_ascii_chars, is_ascii_chars_encode_utf8};

use crate::bytes::{output_text, text_in, utf8_bytes};
use crate::captive::{
    foreign_host, host_line, is_foreign, law_other_servers_are_foreign,
    law_the_hub_answers_to_its_names, request_to,
};
use crate::gzip::{faithful, gzipped, key_text, outcome, remembered, GzCache, GZIP_MIN};
use crate::http::{
    accepts_gzip, body_of, compressible, declared_length, head_lines, header_in, is_compressible,
    is_http11, keeps_alive, message_len, method_of, path_of, post_body, request_line, seek,
    takes_gzip, wants_keepalive,
};
use crate::ide::{cache_key, law_file_keys_end_in_a_tag, FileMeta};
use crate::json::{json_reply, Reply};
use crate::number::decimal;
use crate::response::{
    cors_line, has_line, head_text, law_heads_say_what_they_should, law_responses_are_framed,
    law_responses_are_taken_whole, location_line, one_line, respond,
};
use crate::text::{
    find, head_field, is_space, law_separators_cut, law_white_space_parts_words, lemma_find,
    lemma_find_is, lemma_first_word, lemma_longer_first_line, lemma_space_before_words, line_seq,
    lower_char, lowered, same, starts_with,
};
use crate::wifi::{join_step, Join};

verus! {

// ---- Taking a request apart ----

/// A request, taken apart.
pub struct Incoming {
    pub text: String,
    pub method: String,
    pub path: String,
    pub body: String,
    pub keep: bool,
}

/// These are the parts of the text of a request.
pub open spec fn parts_of(r: Incoming, text: Seq<char>) -> bool {
    &&& r.text@ == text
    &&& r.method@ == method_of(text)
    &&& r.path@ == path_of(text)
    &&& r.body@ == body_of(text)
    &&& r.keep == keeps_alive(text)
}

/// Takes the text of a request apart.
pub fn take_apart(text: String) -> (r: Incoming)
    ensures
        parts_of(r, text@),
{
    let (method, path) = request_line(text.as_str());
    let body = post_body(text.as_str());
    let keep = wants_keepalive(text.as_str());
    Incoming { text, method, path, body, keep }
}

/// Takes a request apart as it came in.
pub fn read_incoming(bytes: &[u8]) -> (r: Incoming)
    ensures
        parts_of(r, text_in(bytes@)),
{
    take_apart(output_text(bytes))
}

// ---- Routing ----

/// The probes by which devices find out whether a network is clean.
pub enum Probe {
    Apple,
    Android,
    Windows,
    WindowsNcsi,
    Firefox,
}

/// Who answers a request.
pub enum Route {
    Ide,
    Fleet,
    Dashboard,
    Icon,
    WifiScan,
    WifiStatus,
    WifiConnect,
    WifiForget,
    CaptiveApi,
    Welcome,
    Accept,
    Probe(Probe),
    /// Addressed to another server: brought here by the captive capture.
    Captured,
    NotFound,
}

/// The probe that a path is.
pub open spec fn probe_at(path: Seq<char>) -> Option<Probe> {
    if path == "/hotspot-detect.html"@ || path == "/library/test/success.html"@ {
        Some(Probe::Apple)
    } else if path == "/generate_204"@ {
        Some(Probe::Android)
    } else if path == "/connecttest.txt"@ {
        Some(Probe::Windows)
    } else if path == "/ncsi.txt"@ {
        Some(Probe::WindowsNcsi)
    } else if path == "/success.txt"@ {
        Some(Probe::Firefox)
    } else {
        None
    }
}

/// Who answers a GET.
pub open spec fn get_route(path: Seq<char>, foreign: bool) -> Route {
    if path == "/ide"@ || "/ide/"@.is_prefix_of(path) {
        Route::Ide
    } else if path == "/fleet"@ {
        Route::Fleet
    } else if path == "/"@ || path == "/index.html"@ {
        Route::Dashboard
    } else if path == "/icon.svg"@ {
        Route::Icon
    } else if path == "/wifi/scan"@ {
        Route::WifiScan
    } else if path == "/wifi/status"@ {
        Route::WifiStatus
    } else if path == "/captive"@ {
        Route::CaptiveApi
    } else if path == "/welcome"@ {
        Route::Welcome
    } else {
        match probe_at(path) {
            Some(p) => Route::Probe(p),
            None => if foreign {
                Route::Captured
            } else {
                Route::NotFound
            },
        }
    }
}

/// Who answers a POST.
pub open spec fn post_route(path: Seq<char>) -> Route {
    if path == "/wifi/connect"@ {
        Route::WifiConnect
    } else if path == "/wifi/forget"@ {
        Route::WifiForget
    } else if path == "/captive/ack"@ {
        Route::Accept
    } else {
        Route::NotFound
    }
}

/// Who answers a request. There is no other method: in particular nothing grants another origin's
/// page a preflight.
pub open spec fn routed(method: Seq<char>, path: Seq<char>, foreign: bool) -> Route {
    if method == "GET"@ {
        get_route(path, foreign)
    } else if method == "POST"@ {
        post_route(path)
    } else {
        Route::NotFound
    }
}

fn find_probe(path: &str) -> (r: Option<Probe>)
    ensures
        r == probe_at(path@),
{
    if same(path, "/hotspot-detect.html") || same(path, "/library/test/success.html") {
        Some(Probe::Apple)
    } else if same(path, "/generate_204") {
        Some(Probe::Android)
    } else if same(path, "/connecttest.txt") {
        Some(Probe::Windows)
    } else if same(path, "/ncsi.txt") {
        Some(Probe::WindowsNcsi)
    } else if same(path, "/success.txt") {
        Some(Probe::Firefox)
    } else {
        None
    }
}

fn route_get(path: &str, foreign: bool) -> (r: Route)
    ensures
        r == get_route(path@, foreign),
{
    if same(path, "/ide") || starts_with(path, "/ide/") {
        Route::Ide
    } else if same(path, "/fleet") {
        Route::Fleet
    } else if same(path, "/") || same(path, "/index.html") {
        Route::Dashboard
    } else if same(path, "/icon.svg") {
        Route::Icon
    } else if same(path, "/wifi/scan") {
        Route::WifiScan
    } else if same(path, "/wifi/status") {
        Route::WifiStatus
    } else if same(path, "/captive") {
        Route::CaptiveApi
    } else if same(path, "/welcome") {
        Route::Welcome
    } else {
        match find_probe(path) {
            Some(p) => Route::Probe(p),
            None => if foreign {
                Route::Captured
            } else {
                Route::NotFound
            },
        }
    }
}

fn route_post(path: &str) -> (r: Route)
    ensures
        r == post_route(path@),
{
    if same(path, "/wifi/connect") {
        Route::WifiConnect
    } else if same(path, "/wifi/forget") {
        Route::WifiForget
    } else if same(path, "/captive/ack") {
        Route::Accept
    } else {
        Route::NotFound
    }
}

/// Who answers a request.
pub fn route(method: &str, path: &str, req: &str) -> (r: Route)
    ensures
        r == routed(method@, path@, is_foreign(req@)),
{
    if same(method, "GET") {
        route_get(path, foreign_host(req))
    } else if same(method, "POST") {
        route_post(path)
    } else {
        Route::NotFound
    }
}

// ---- Fixed answers ----

/// An answer, in contracts.
pub struct Answer {
    pub status: Seq<char>,
    pub ctype: Seq<char>,
    pub body: Seq<char>,
}

/// The answer that a probe gets from a clean network, to the byte: only this makes a device close
/// its sheet.
pub open spec fn genuine(p: Probe) -> Answer {
    match p {
        Probe::Apple => Answer {
            status: "200 OK"@,
            ctype: "text/html"@,
            body: "<HTML><HEAD><TITLE>Success</TITLE></HEAD><BODY>Success</BODY></HTML>"@,
        },
        Probe::Android => Answer {
            status: "204 No Content"@,
            ctype: "text/plain"@,
            body: ""@,
        },
        Probe::Windows => Answer {
            status: "200 OK"@,
            ctype: "text/plain"@,
            body: "Microsoft Connect Test"@,
        },
        Probe::WindowsNcsi => Answer {
            status: "200 OK"@,
            ctype: "text/plain"@,
            body: "Microsoft NCSI"@,
        },
        Probe::Firefox => Answer {
            status: "200 OK"@,
            ctype: "text/plain"@,
            body: "success\n"@,
        },
    }
}

/// The answer that opens the sheet on the page that greets.
pub open spec fn to_welcome() -> Answer {
    Answer { status: "302 Found"@, ctype: "text/plain"@, body: ""@ }
}

/// The answers that depend on nothing but whether the device has accepted.
pub open spec fn fixed(route: Route, acked: bool) -> Option<Answer> {
    match route {
        Route::CaptiveApi => Some(
            Answer {
                status: "200 OK"@,
                ctype: "application/captive+json"@,
                body: "{\"captive\":false,\"venue-info-url\":\"http://10.42.0.1/\"}"@,
            },
        ),
        Route::Probe(p) => Some(
            if acked {
                genuine(p)
            } else {
                to_welcome()
            },
        ),
        Route::Captured => Some(
            if acked {
                Answer { status: "204 No Content"@, ctype: "text/plain"@, body: ""@ }
            } else {
                to_welcome()
            },
        ),
        Route::NotFound => Some(
            Answer { status: "404 Not Found"@, ctype: "text/plain"@, body: "not found"@ },
        ),
        _ => None,
    }
}

/// The reply is this answer.
pub open spec fn says(r: Reply, a: Answer) -> bool {
    &&& r.0@ == a.status
    &&& r.1@ == a.ctype
    &&& r.2@ == a.body
}

fn genuine_answer(p: &Probe) -> (r: Reply)
    ensures
        says(r, genuine(*p)),
{
    match p {
        Probe::Apple => (
            "200 OK",
            "text/html",
            "<HTML><HEAD><TITLE>Success</TITLE></HEAD><BODY>Success</BODY></HTML>".to_owned(),
        ),
        Probe::Android => ("204 No Content", "text/plain", "".to_owned()),
        Probe::Windows => ("200 OK", "text/plain", "Microsoft Connect Test".to_owned()),
        Probe::WindowsNcsi => ("200 OK", "text/plain", "Microsoft NCSI".to_owned()),
        Probe::Firefox => ("200 OK", "text/plain", "success\n".to_owned()),
    }
}

/// The answer of a route that depends on nothing but whether the device has accepted.
pub fn fixed_answer(route: &Route, acked: bool) -> (r: Option<Reply>)
    ensures
        match r {
            Some(reply) => fixed(*route, acked) matches Some(a) && says(reply, a),
            None => fixed(*route, acked) is None,
        },
{
    match route {
        Route::CaptiveApi => Some(
            (
                "200 OK",
                "application/captive+json",
                "{\"captive\":false,\"venue-info-url\":\"http://10.42.0.1/\"}".to_owned(),
            ),
        ),
        Route::Probe(p) => if acked {
            Some(genuine_answer(p))
        } else {
            Some(("302 Found", "text/plain", "".to_owned()))
        },
        Route::Captured => if acked {
            Some(("204 No Content", "text/plain", "".to_owned()))
        } else {
            Some(("302 Found", "text/plain", "".to_owned()))
        },
        Route::NotFound => Some(("404 Not Found", "text/plain", "not found".to_owned())),
        _ => None,
    }
}

/// The status and the content type of the answers whose body is made for each request or is a page
/// of the hub.
pub open spec fn live(route: Route) -> Option<(Seq<char>, Seq<char>)> {
    match route {
        Route::Fleet => Some(("200 OK"@, "application/json"@)),
        Route::WifiScan => Some(("200 OK"@, "application/json"@)),
        Route::WifiStatus => Some(("200 OK"@, "application/json"@)),
        Route::Dashboard => Some(("200 OK"@, "text/html; charset=utf-8"@)),
        Route::Welcome => Some(("200 OK"@, "text/html; charset=utf-8"@)),
        Route::Icon => Some(("200 OK"@, "image/svg+xml"@)),
        _ => None,
    }
}

pub fn live_head(route: &Route) -> (r: Option<(&'static str, &'static str)>)
    ensures
        match r {
            Some(h) => live(*route) == Some((h.0@, h.1@)),
            None => live(*route) is None,
        },
{
    match route {
        Route::Fleet => Some(("200 OK", "application/json")),
        Route::WifiScan => Some(("200 OK", "application/json")),
        Route::WifiStatus => Some(("200 OK", "application/json")),
        Route::Dashboard => Some(("200 OK", "text/html; charset=utf-8")),
        Route::Welcome => Some(("200 OK", "text/html; charset=utf-8")),
        Route::Icon => Some(("200 OK", "image/svg+xml")),
        _ => None,
    }
}

/// The status and the content type that a route outside the IDE can be answered with. A join, a
/// forget and an Accept are answered in JSON; a join that names no network is refused as bad.
pub open spec fn answerable(
    route: Route,
    acked: bool,
    status: Seq<char>,
    ctype: Seq<char>,
) -> bool {
    match fixed(route, acked) {
        Some(a) => status == a.status && ctype == a.ctype,
        None => match live(route) {
            Some(h) => status == h.0 && ctype == h.1,
            None => {
                &&& route is WifiConnect || route is WifiForget || route is Accept
                &&& ctype == "application/json"@
                &&& status == "200 OK"@ || (route is WifiConnect && status == "400 Bad Request"@)
            },
        },
    }
}

/// Must the answer not be remembered? A remembered "captive" would strand a released device, and a
/// remembered success would leave a new one ungreeted.
pub open spec fn is_fleeting(route: Route) -> bool {
    route is Probe || route is Captured || route is CaptiveApi
}

pub fn fleeting(route: &Route) -> (r: bool)
    ensures
        r == is_fleeting(*route),
{
    match route {
        Route::Probe(_) => true,
        Route::Captured => true,
        Route::CaptiveApi => true,
        _ => false,
    }
}

// ---- Sending ----

/// The key under which a compressed body may be remembered: only those of the two pages that
/// cannot change while the hub runs. What is computed for each request has none.
pub open spec fn constant_at(path: Seq<char>) -> Option<Seq<char>> {
    if path == "/"@ || path == "/index.html"@ {
        Some("dashboard"@)
    } else if path == "/icon.svg"@ {
        Some("icon.svg"@)
    } else {
        None
    }
}

pub fn gz_key(path: &str) -> (r: Option<String>)
    ensures
        key_text(r) == constant_at(path@),
{
    if same(path, "/") || same(path, "/index.html") {
        Some("dashboard".to_owned())
    } else if same(path, "/icon.svg") {
        Some("icon.svg".to_owned())
    } else {
        None
    }
}

/// Is a body of this size and type sent compressed to this client?
pub open spec fn packs(len: nat, ctype: Seq<char>, req: Seq<char>) -> bool {
    len >= GZIP_MIN && is_compressible(ctype) && takes_gzip(req)
}

pub fn wants_gzip(body: &[u8], ctype: &str, req: &str) -> (r: bool)
    ensures
        r == packs(body@.len(), ctype@, req@),
{
    body.len() >= GZIP_MIN && compressible(ctype) && accepts_gzip(req)
}

/// What is sent for a body, and whether it is compressed.
pub open spec fn sent(
    cache: Map<Seq<char>, Seq<u8>>,
    path: Seq<char>,
    ctype: Seq<char>,
    body: Seq<u8>,
    req: Seq<char>,
) -> (Seq<u8>, bool) {
    if packs(body.len(), ctype, req) {
        outcome(cache, constant_at(path), body)
    } else {
        (body, false)
    }
}

/// The cache after an answer was sent.
pub open spec fn cache_after(
    cache: Map<Seq<char>, Seq<u8>>,
    path: Seq<char>,
    ctype: Seq<char>,
    body: Seq<u8>,
    req: Seq<char>,
) -> Map<Seq<char>, Seq<u8>> {
    if packs(body.len(), ctype, req) {
        remembered(cache, constant_at(path), body)
    } else {
        cache
    }
}

/// The bytes of an answer whose body is ready, compressed or not.
pub fn send(
    req: &Incoming,
    route: &Route,
    status: &str,
    ctype: &str,
    out: &[u8],
    zipped: bool,
) -> (r: Vec<u8>)
    ensures
        r@ == encode_utf8(
            head_text(
                status@,
                ctype@,
                req.path@,
                is_fleeting(*route),
                out@.len(),
                zipped,
                req.keep,
            ),
        ) + out@,
{
    respond(status, ctype, req.path.as_str(), fleeting(route), out, zipped, req.keep)
}

/// The bytes of an answer, from the reply on.
pub fn answer(cache: &mut GzCache, req: &Incoming, route: &Route, reply: Reply) -> (r: Vec<u8>)
    ensures
        ({
            let body = encode_utf8(reply.2@);
            let (out, zipped) = sent(old(cache)@, req.path@, reply.1@, body, req.text@);
            &&& r@ == encode_utf8(
                head_text(
                    reply.0@,
                    reply.1@,
                    req.path@,
                    is_fleeting(*route),
                    out.len(),
                    zipped,
                    req.keep,
                ),
            ) + out
            &&& final(cache)@ == cache_after(old(cache)@, req.path@, reply.1@, body, req.text@)
        }),
{
    let (status, ctype, text) = reply;
    let body = utf8_bytes(text.as_str());
    let (out, zipped) = if wants_gzip(body.as_slice(), ctype, req.text.as_str()) {
        cache.gzip_body(gz_key(req.path.as_str()), body)
    } else {
        (body, false)
    };
    send(req, route, status, ctype, out.as_slice(), zipped)
}

// ---- Laws ----

/// A device that has accepted gets, for each probe, the answer of a clean network, whatever host
/// the probe was meant for.
pub proof fn law_greeted_probes_succeed(path: Seq<char>, foreign: bool, p: Probe)
    requires
        probe_at(path) == Some(p),
    ensures
        fixed(routed("GET"@, path, foreign), true) == Some(genuine(p)),
{
    lemma_probe_paths(path);
}

/// A device that has not accepted is sent to the page that greets it, by every probe, and by
/// every other GET that was meant for another server and that the hub has no page for.
pub proof fn law_ungreeted_probes_are_sent_to_the_greeting(path: Seq<char>, foreign: bool)
    requires
        routed("GET"@, path, foreign) is Probe || routed("GET"@, path, foreign) is Captured,
    ensures
        fixed(routed("GET"@, path, foreign), false) == Some(to_welcome()),
        location_line(to_welcome().status) == "Location: http://10.42.0.1/welcome\r\n"@,
{
}

/// Every path that is a probe is answered as one: none falls through to what catches the rest.
pub proof fn law_probes_have_handlers(path: Seq<char>, foreign: bool)
    ensures
        routed("GET"@, path, foreign) is Probe == probe_at(path) is Some,
{
    if probe_at(path) is Some {
        lemma_probe_paths(path);
    }
}

proof fn lemma_probe_paths(path: Seq<char>)
    requires
        probe_at(path) is Some,
    ensures
        forall|foreign: bool| get_route(path, foreign) == Route::Probe(probe_at(path)->0),
{
    reveal_strlit("/hotspot-detect.html");
    reveal_strlit("/library/test/success.html");
    reveal_strlit("/generate_204");
    reveal_strlit("/connecttest.txt");
    reveal_strlit("/ncsi.txt");
    reveal_strlit("/success.txt");
    reveal_strlit("/ide");
    reveal_strlit("/ide/");
    reveal_strlit("/fleet");
    reveal_strlit("/");
    reveal_strlit("/index.html");
    reveal_strlit("/icon.svg");
    reveal_strlit("/wifi/scan");
    reveal_strlit("/wifi/status");
    reveal_strlit("/captive");
    reveal_strlit("/welcome");
    assert(path.len() > 1 && path[1] != 'i');
    if "/ide/"@.is_prefix_of(path) {
        assert(path.subrange(0, 5)[1] == "/ide/"@[1]);
    }
    assert("/icon.svg"@[1] == 'i');
    assert("/wifi/status"@[1] == 'w');
    assert("/success.txt"@[1] == 's');
}

/// A request that is addressed to the hub never becomes a redirect, unless it is a probe: a path
/// that is not there fails loudly.
pub proof fn law_requests_to_the_hub_fail_loudly(method: Seq<char>, path: Seq<char>, acked: bool)
    requires
        fixed(routed(method, path, false), acked) matches Some(a) && a.status == "302 Found"@,
    ensures
        probe_at(path) is Some,
{
    reveal_strlit("302 Found");
    reveal_strlit("200 OK");
    reveal_strlit("404 Not Found");
    assert("302 Found"@.len() != "404 Not Found"@.len());
    assert("302 Found"@.len() != "200 OK"@.len());
}

/// Nothing but GET and POST is answered: a preflight from another origin gets the same answer as a
/// path that is not there.
pub proof fn law_preflights_are_refused(method: Seq<char>, path: Seq<char>, foreign: bool)
    requires
        method != "GET"@,
        method != "POST"@,
    ensures
        routed(method, path, foreign) == Route::NotFound,
{
}

/// Only the fleet may be read by other origins' pages.
pub proof fn law_only_the_fleet_is_open_to_other_origins(path: Seq<char>)
    ensures
        cors_line(path).len() > 0 <==> path == "/fleet"@,
{
    reveal_strlit("Access-Control-Allow-Origin: *\r\n");
    reveal_strlit("");
}

/// Only the two constant pages are remembered compressed, each under its own key: no other answer
/// that is long enough to be compressed has a key.
pub proof fn law_only_constants_are_remembered(
    method: Seq<char>,
    path: Seq<char>,
    foreign: bool,
    acked: bool,
)
    requires
        constant_at(path) is Some,
    ensures
        ({
            let r = routed(method, path, foreign);
            ||| r is Dashboard && constant_at(path) == Some("dashboard"@)
            ||| r is Icon && constant_at(path) == Some("icon.svg"@)
            ||| r is NotFound && encode_utf8(fixed(r, acked)->0.body).len() < GZIP_MIN
        }),
        "dashboard"@ != "icon.svg"@,
{
    lemma_fixed_bodies_are_short(Route::NotFound, acked);
    reveal_strlit("/ide");
    reveal_strlit("/ide/");
    reveal_strlit("/fleet");
    reveal_strlit("/");
    reveal_strlit("/index.html");
    reveal_strlit("/icon.svg");
    reveal_strlit("/wifi/connect");
    reveal_strlit("/wifi/forget");
    reveal_strlit("/captive/ack");
    reveal_strlit("dashboard");
    reveal_strlit("icon.svg");
    assert("dashboard"@.len() != "icon.svg"@.len());
    if "/ide/"@.is_prefix_of(path) {
        assert(path.subrange(0, 5)[4] == "/ide/"@[4]);
        assert("/icon.svg"@[4] == 'n');
        assert("/index.html"@[4] == 'e');
    }
}

proof fn lemma_fixed_bodies_are_short(route: Route, acked: bool)
    requires
        fixed(route, acked) is Some,
    ensures
        encode_utf8(fixed(route, acked)->0.body).len() < GZIP_MIN,
{
    let body = fixed(route, acked)->0.body;
    reveal_strlit("<HTML><HEAD><TITLE>Success</TITLE></HEAD><BODY>Success</BODY></HTML>");
    reveal_strlit("Microsoft Connect Test");
    reveal_strlit("Microsoft NCSI");
    reveal_strlit("success\n");
    reveal_strlit("");
    reveal_strlit("not found");
    reveal_strlit("{\"captive\":false,\"venue-info-url\":\"http://10.42.0.1/\"}");
    assert(body.len() < GZIP_MIN);
    assert(is_ascii_chars(body));
    is_ascii_chars_encode_utf8(body);
}

/// The fixed answers are framed: the head ends at its first blank line, and declares the length of
/// the body.
pub proof fn law_fixed_answers_are_framed(route: Route, acked: bool, path: Seq<char>, keep: bool)
    requires
        fixed(route, acked) is Some,
    ensures
        ({
            let a = fixed(route, acked)->0;
            let len = encode_utf8(a.body).len();
            let head = head_text(a.status, a.ctype, path, is_fleeting(route), len, false, keep);
            &&& seek(head, "\r\n\r\n"@) == Some(head.len() - 4)
            &&& declared_length(head) == len
        }),
{
    let a = fixed(route, acked)->0;
    reveal_strlit("200 OK");
    reveal_strlit("204 No Content");
    reveal_strlit("302 Found");
    reveal_strlit("404 Not Found");
    reveal_strlit("text/plain");
    reveal_strlit("text/html");
    reveal_strlit("application/captive+json");
    assert(one_line(a.status) && !a.status.contains(':') && one_line(a.ctype));
    lemma_fixed_bodies_are_short(route, acked);
    law_responses_are_framed(
        a.status,
        a.ctype,
        path,
        is_fleeting(route),
        encode_utf8(a.body).len(),
        false,
        keep,
    );
}

proof fn lemma_answerable_fits(route: Route, acked: bool, status: Seq<char>, ctype: Seq<char>)
    requires
        answerable(route, acked, status, ctype),
    ensures
        is_ascii_chars(status),
        one_line(status),
        !status.contains(':'),
        is_ascii_chars(ctype),
        one_line(ctype),
{
    reveal_strlit("200 OK");
    reveal_strlit("204 No Content");
    reveal_strlit("302 Found");
    reveal_strlit("400 Bad Request");
    reveal_strlit("404 Not Found");
    reveal_strlit("text/plain");
    reveal_strlit("text/html");
    reveal_strlit("text/html; charset=utf-8");
    reveal_strlit("image/svg+xml");
    reveal_strlit("application/json");
    reveal_strlit("application/captive+json");
}

/// What is answered to a join, a forget or an Accept is among what their routes can be answered
/// with.
pub proof fn law_actions_are_answered_in_kind(
    r: Reply,
    body: Seq<char>,
    ssid: Seq<char>,
    password: Seq<char>,
    acked: bool,
)
    ensures
        json_reply(r, body) ==> answerable(Route::WifiConnect, acked, r.0@, r.1@) && answerable(
            Route::WifiForget,
            acked,
            r.0@,
            r.1@,
        ) && answerable(Route::Accept, acked, r.0@, r.1@),
        join_step(ssid, password, Join::Answer(r)) ==> answerable(
            Route::WifiConnect,
            acked,
            r.0@,
            r.1@,
        ),
{
}

/// Every answer outside the IDE is framed, and says of itself what it should, whatever its body:
/// read as requests are read, it is one whole message; its length is the number of bytes that
/// follow; it says that they are gzip exactly if they were compressed, is open to other origins
/// exactly for the fleet, always forbids foreign frames, points to the greeting exactly if it
/// redirects, and forbids remembering exactly where a remembered answer would mislead.
pub proof fn law_every_answer_is_framed(
    route: Route,
    acked: bool,
    status: Seq<char>,
    ctype: Seq<char>,
    path: Seq<char>,
    out: Seq<u8>,
    zipped: bool,
    keep: bool,
)
    requires
        answerable(route, acked, status, ctype),
        out.len() <= usize::MAX,
    ensures
        ({
            let head = head_text(
                status,
                ctype,
                path,
                is_fleeting(route),
                out.len(),
                zipped,
                keep,
            );
            &&& message_len(encode_utf8(head) + out) == Some((encode_utf8(head) + out).len() as int)
            &&& has_line(head, "HTTP/1.1 "@ + status)
            &&& has_line(head, "Content-Length: "@ + decimal(out.len()))
            &&& has_line(head, "Content-Encoding: gzip"@) == zipped
            &&& has_line(head, "Access-Control-Allow-Origin: *"@) == (path == "/fleet"@)
            &&& has_line(head, "X-Frame-Options: SAMEORIGIN"@)
            &&& has_line(head, "Location: http://10.42.0.1/welcome"@) == (status == "302 Found"@)
            &&& has_line(head, "Cache-Control: no-store"@) == is_fleeting(route)
        }),
{
    lemma_answerable_fits(route, acked, status, ctype);
    law_responses_are_taken_whole(status, ctype, path, is_fleeting(route), out, zipped, keep);
    law_heads_say_what_they_should(
        status,
        ctype,
        path,
        is_fleeting(route),
        out.len(),
        zipped,
        keep,
    );
}

/// What is called gzip is gzip of the body, and what is not called so is the body: as long as the
/// cache is faithful and the body of a page is what its key stands for.
pub proof fn law_answers_are_what_they_are_called(
    cache: Map<Seq<char>, Seq<u8>>,
    content: spec_fn(Seq<char>) -> Seq<u8>,
    path: Seq<char>,
    ctype: Seq<char>,
    body: Seq<u8>,
    req: Seq<char>,
)
    requires
        faithful(cache, content),
        constant_at(path) matches Some(k) ==> body == content(k),
    ensures
        ({
            let (out, zipped) = sent(cache, path, ctype, body, req);
            if zipped {
                gzipped(body) == Some(out)
            } else {
                out == body
            }
        }),
{
}

/// What the cache is used for: an answer at a path, a file of the IDE that goes out compressed, or
/// either of them compressed while the cache was free for others, and taken in afterwards.
pub enum Use {
    Page { path: Seq<char>, ctype: Seq<char>, body: Seq<u8>, req: Seq<char> },
    File { rel: Seq<char>, meta: Option<FileMeta>, body: Seq<u8> },
    Settled { key: Option<Seq<char>>, body: Seq<u8> },
}

/// The key that something is remembered under, if it is.
pub open spec fn use_key(u: Use) -> Option<Seq<char>> {
    match u {
        Use::Page { path, .. } => constant_at(path),
        Use::File { rel, meta, .. } => cache_key(rel, meta),
        Use::Settled { key, .. } => key,
    }
}

pub open spec fn use_body(u: Use) -> Seq<u8> {
    match u {
        Use::Page { body, .. } => body,
        Use::File { body, .. } => body,
        Use::Settled { body, .. } => body,
    }
}

/// The cache after one use.
pub open spec fn used(cache: Map<Seq<char>, Seq<u8>>, u: Use) -> Map<Seq<char>, Seq<u8>> {
    match u {
        Use::Page { path, ctype, body, req } => cache_after(cache, path, ctype, body, req),
        Use::File { rel, meta, body } => remembered(cache, cache_key(rel, meta), body),
        Use::Settled { key, body } => match (key, gzipped(body)) {
            (Some(k), Some(gz)) => cache.insert(k, gz),
            _ => cache,
        },
    }
}

/// The cache of a hub that has answered all this since it started.
pub open spec fn cache_of(uses: Seq<Use>) -> Map<Seq<char>, Seq<u8>>
    decreases uses.len(),
{
    if uses.len() == 0 {
        Map::empty()
    } else {
        used(cache_of(uses.drop_last()), uses.last())
    }
}

/// Is the body what its key stands for? What has no key may be anything.
pub open spec fn is_content(u: Use, content: spec_fn(Seq<char>) -> Seq<u8>) -> bool {
    use_key(u) matches Some(k) ==> use_body(u) == content(k)
}

/// Pages and files never share a key, so that what a page's key stands for can be fixed whatever
/// the files hold.
pub proof fn law_pages_and_files_share_no_key(
    path: Seq<char>,
    rel: Seq<char>,
    meta: Option<FileMeta>,
)
    ensures
        constant_at(path) is Some ==> constant_at(path) != cache_key(rel, meta),
{
    reveal_strlit("dashboard");
    reveal_strlit("icon.svg");
    if cache_key(rel, meta) is Some {
        law_file_keys_end_in_a_tag(rel, meta);
    }
}

/// One use keeps the cache faithful, be it an answer at a path, a file of the IDE, or what was
/// compressed aside.
pub proof fn law_uses_keep_faith(
    cache: Map<Seq<char>, Seq<u8>>,
    content: spec_fn(Seq<char>) -> Seq<u8>,
    u: Use,
)
    requires
        faithful(cache, content),
        is_content(u, content),
    ensures
        faithful(used(cache, u), content),
{
}

/// Whatever the hub has answered since it started, its cache is faithful: where every page has one
/// body, and every version of a file one content.
pub proof fn law_the_cache_stays_faithful(
    uses: Seq<Use>,
    content: spec_fn(Seq<char>) -> Seq<u8>,
)
    requires
        forall|i: int| 0 <= i < uses.len() ==> is_content(#[trigger] uses[i], content),
    ensures
        faithful(cache_of(uses), content),
    decreases uses.len(),
{
    if uses.len() > 0 {
        let s = uses.drop_last();
        assert forall|i: int| 0 <= i < s.len() implies is_content(#[trigger] s[i], content) by {
            assert(s[i] == uses[i]);
        }
        law_the_cache_stays_faithful(s, content);
        law_uses_keep_faith(cache_of(s), content, uses.last());
    }
}

/// Every answer is called what it is. Whatever the hub has answered since it started, an answer
/// with the line that claims gzip carries gzip of its body, one without it carries the body, and a
/// client takes it whole: where every page has one body, and every version of a file one content.
pub proof fn law_every_label_is_true(
    uses: Seq<Use>,
    content: spec_fn(Seq<char>) -> Seq<u8>,
    route: Route,
    acked: bool,
    status: Seq<char>,
    ctype: Seq<char>,
    path: Seq<char>,
    body: Seq<u8>,
    req: Seq<char>,
    keep: bool,
)
    requires
        forall|i: int| 0 <= i < uses.len() ==> is_content(#[trigger] uses[i], content),
        is_content(Use::Page { path, ctype, body, req }, content),
        answerable(route, acked, status, ctype),
        sent(cache_of(uses), path, ctype, body, req).0.len() <= usize::MAX,
    ensures
        ({
            let (out, zipped) = sent(cache_of(uses), path, ctype, body, req);
            let head = head_text(
                status,
                ctype,
                path,
                is_fleeting(route),
                out.len(),
                zipped,
                keep,
            );
            &&& message_len(encode_utf8(head) + out) == Some((encode_utf8(head) + out).len() as int)
            &&& if has_line(head, "Content-Encoding: gzip"@) {
                gzipped(body) == Some(out)
            } else {
                out == body
            }
        }),
{
    let (out, zipped) = sent(cache_of(uses), path, ctype, body, req);
    law_the_cache_stays_faithful(uses, content);
    law_answers_are_what_they_are_called(cache_of(uses), content, path, ctype, body, req);
    law_every_answer_is_framed(route, acked, status, ctype, path, out, zipped, keep);
}

/// A file of the IDE goes out under a true flag too: whatever the hub has answered since it started,
/// what is flagged is gzip of the file, and what is not is the file.
pub proof fn law_every_file_is_what_it_is_called(
    uses: Seq<Use>,
    content: spec_fn(Seq<char>) -> Seq<u8>,
    rel: Seq<char>,
    meta: Option<FileMeta>,
    body: Seq<u8>,
)
    requires
        forall|i: int| 0 <= i < uses.len() ==> is_content(#[trigger] uses[i], content),
        is_content(Use::File { rel, meta, body }, content),
    ensures
        ({
            let (out, zipped) = outcome(cache_of(uses), cache_key(rel, meta), body);
            if zipped {
                gzipped(body) == Some(out)
            } else {
                out == body
            }
        }),
{
    law_the_cache_stays_faithful(uses, content);
}

/// A path that the hub has nothing at: not found where the request is addressed to the hub; where
/// it was meant for another server, to the greeting or quietly nothing, by whether the device has
/// accepted.
pub proof fn law_unknown_paths(path: Seq<char>, foreign: bool, acked: bool)
    requires
        get_route(path, false) == Route::NotFound,
    ensures
        fixed(routed("GET"@, path, foreign), acked) == Some(
            if !foreign {
                Answer { status: "404 Not Found"@, ctype: "text/plain"@, body: "not found"@ }
            } else if acked {
                Answer { status: "204 No Content"@, ctype: "text/plain"@, body: ""@ }
            } else {
                to_welcome()
            },
        ),
{
}

/// A word of a request line.
pub open spec fn is_word(w: Seq<char>) -> bool {
    w.len() > 0 && forall|i: int| 0 <= i < w.len() ==> !is_space(#[trigger] w[i])
}

/// A request: its method, its target, and what follows.
pub open spec fn request_text(method: Seq<char>, target: Seq<char>, rest: Seq<char>) -> Seq<char> {
    method + seq![' '] + target + (seq![' '] + rest)
}

proof fn lemma_request_words(method: Seq<char>, target: Seq<char>, rest: Seq<char>)
    requires
        is_word(method),
        is_word(target),
    ensures
        method_of(request_text(method, target, rest)) == method,
        path_of(request_text(method, target, rest)) == head_field(target, '?'),
{
    let tail = seq![' '] + rest;
    let second = target + tail;
    let req = request_text(method, target, rest);
    assert(req =~= method + (seq![' '] + second));
    lemma_first_word(method, seq![' '] + second);
    lemma_space_before_words(' ', second);
    lemma_first_word(target, tail);
}

/// The lines of a request: its first line, which starts with the method and the target, and lines
/// that depend on neither.
proof fn lemma_request_lines(method: Seq<char>, target: Seq<char>, rest: Seq<char>)
    requires
        is_word(method),
        is_word(target),
    ensures
        ({
            let tail = seq![' '] + rest;
            let ls = line_seq(request_text(method, target, rest));
            &&& line_seq(tail).len() > 0
            &&& line_seq(tail)[0].len() > 0
            &&& line_seq(tail)[0][0] == ' '
            &&& ls == seq![method + seq![' '] + target + line_seq(tail)[0]] + line_seq(tail).skip(1)
        }),
{
    let a = method + seq![' '] + target;
    assert(!a.contains('\n')) by {
        assert forall|i: int| 0 <= i < a.len() implies a[i] != '\n' by {
            if i < method.len() {
                assert(a[i] == method[i]);
            } else if i > method.len() {
                assert(a[i] == target[i - method.len() - 1]);
            }
        }
    }
    lemma_longer_first_line(a, seq![' '] + rest);
}

/// A line that starts with a word without a colon, and a space, is no header.
proof fn lemma_no_header(method: Seq<char>, more: Seq<char>, later: Seq<Seq<char>>, name: Seq<char>)
    requires
        !method.contains(':'),
        !name.contains(' '),
    ensures
        header_in(seq![method + seq![' '] + more] + later, name) == header_in(later, name),
{
    let line = method + seq![' '] + more;
    let ls = seq![line] + later;
    assert(ls[0] == line);
    assert(ls.skip(1) =~= later);
    lemma_find(line, ':');
    let i = find(line, ':');
    let n = method.len() as int;
    assert(line[n] == ' ');
    if i < line.len() {
        if i < n {
            assert(method.contains(line[i]));
        }
        let key = line.take(i);
        assert(i > n);
        assert(lowered(key)[n] == ' ');
        if lowered(key) == lowered(name) {
            assert(lowered(key).len() == i);
            assert(lowered(name).len() == name.len());
            assert(lowered(name)[n] == lower_char(name[n]));
            assert(name.contains(name[n]));
        }
    }
}

/// A query changes nothing: whatever follows a question mark in the path of a request, it has the
/// same method and path, is addressed to the same server, takes the same encodings and leaves the
/// connection as open as it would without.
pub proof fn law_a_query_changes_nothing(
    method: Seq<char>,
    path: Seq<char>,
    query: Seq<char>,
    rest: Seq<char>,
)
    requires
        is_word(method),
        !method.contains(':'),
        is_word(path),
        forall|i: int| 0 <= i < query.len() ==> !is_space(#[trigger] query[i]),
    ensures
        ({
            let plain = request_text(method, path, rest);
            let asked = request_text(method, path + seq!['?'] + query, rest);
            &&& method_of(asked) == method_of(plain)
            &&& path_of(asked) == path_of(plain)
            &&& is_foreign(asked) == is_foreign(plain)
            &&& takes_gzip(asked) == takes_gzip(plain)
            &&& keeps_alive(asked) == keeps_alive(plain)
        }),
{
    let target = path + seq!['?'] + query;
    assert(is_word(target)) by {
        assert forall|i: int| 0 <= i < target.len() implies !is_space(#[trigger] target[i]) by {
            if i < path.len() {
                assert(target[i] == path[i]);
            } else if i > path.len() {
                assert(target[i] == query[i - path.len() - 1]);
            }
        }
    }
    lemma_request_words(method, path, rest);
    lemma_request_words(method, target, rest);
    lemma_find(path, '?');
    let k = find(path, '?');
    assert forall|j: int| 0 <= j < k implies target[j] != '?' by {
        assert(target[j] == path[j]);
    }
    assert(target[k] == '?') by {
        if k < path.len() {
            assert(target[k] == path[k]);
        }
    }
    lemma_find_is(target, '?', k);
    assert(target.take(k) =~= path.take(k));
    reveal_strlit("host");
    reveal_strlit("accept-encoding");
    reveal_strlit("connection");
    lemma_headers_without_line(method, path, rest, "host"@);
    lemma_headers_without_line(method, target, rest, "host"@);
    lemma_headers_without_line(method, path, rest, "accept-encoding"@);
    lemma_headers_without_line(method, target, rest, "accept-encoding"@);
    lemma_headers_without_line(method, path, rest, "connection"@);
    lemma_headers_without_line(method, target, rest, "connection"@);
    lemma_version(method, path, rest);
    lemma_version(method, target, rest);
}

proof fn lemma_headers_without_line(
    method: Seq<char>,
    target: Seq<char>,
    rest: Seq<char>,
    name: Seq<char>,
)
    requires
        is_word(method),
        !method.contains(':'),
        is_word(target),
        !name.contains(' '),
    ensures
        ({
            let ls = line_seq(request_text(method, target, rest));
            let later = line_seq(seq![' '] + rest).skip(1);
            &&& header_in(ls, name) == header_in(later, name)
            &&& header_in(head_lines(ls), name) == header_in(head_lines(later), name)
        }),
{
    let tail = seq![' '] + rest;
    let ls = line_seq(request_text(method, target, rest));
    let later = line_seq(tail).skip(1);
    lemma_request_lines(method, target, rest);
    let more = target + line_seq(tail)[0];
    let line = method + seq![' '] + more;
    assert(method + seq![' '] + target + line_seq(tail)[0] =~= line);
    assert(ls == seq![line] + later);
    lemma_no_header(method, more, later, name);
    assert(ls[0] == line);
    assert(ls.skip(1) =~= later);
    assert(head_lines(ls) == seq![line] + head_lines(later));
    lemma_no_header(method, more, head_lines(later), name);
}

proof fn lemma_version(method: Seq<char>, target: Seq<char>, rest: Seq<char>)
    requires
        is_word(method),
        is_word(target),
    ensures
        is_http11(request_text(method, target, rest)) == "HTTP/1.1"@.is_suffix_of(
            line_seq(seq![' '] + rest)[0],
        ),
{
    reveal_strlit("HTTP/1.1");
    let v = "HTTP/1.1"@;
    let tail = seq![' '] + rest;
    lemma_request_lines(method, target, rest);
    let a = method + seq![' '] + target;
    let l = line_seq(tail)[0];
    let line = a + l;
    assert(line_seq(request_text(method, target, rest))[0] == line);
    let n = line.len() as int;
    let m = l.len() as int;
    if m >= 8 {
        assert(line.subrange(n - 8, n) =~= l.subrange(m - 8, m));
    } else if n >= 8 {
        assert(line.subrange(n - 8, n)[8 - m] == line[n - m]);
        assert(line[n - m] == l[0]);
        assert(v[8 - m] != ' ');
    }
}

/// A request is taken apart at the white space of its first line: the method, and the path without
/// its query. A request that says less asks to get the root.
pub proof fn law_requests_are_taken_apart(
    method: Seq<char>,
    path: Seq<char>,
    query: Seq<char>,
    rest: Seq<char>,
)
    requires
        is_word(method),
        is_word(path),
        !path.contains('?'),
        forall|i: int| 0 <= i < query.len() ==> !is_space(#[trigger] query[i]),
    ensures
        method_of(request_text(method, path, rest)) == method,
        path_of(request_text(method, path, rest)) == path,
        path_of(request_text(method, path + seq!['?'] + query, rest)) == path,
        method_of(method) == method,
        path_of(method) == "/"@,
        method_of(Seq::empty()) == "GET"@,
        path_of(Seq::empty()) == "/"@,
{
    let target = path + seq!['?'] + query;
    assert forall|i: int| 0 <= i < target.len() implies !is_space(#[trigger] target[i]) by {
        if i < path.len() {
            assert(target[i] == path[i]);
        } else if i > path.len() {
            assert(target[i] == query[i - path.len() - 1]);
        }
    }
    lemma_request_words(method, path, rest);
    lemma_request_words(method, target, rest);
    law_separators_cut(path, '?', query);
    let none = Seq::<char>::empty();
    assert(none + method + none =~= method);
    law_white_space_parts_words(none, method, none);
    reveal_strlit("/");
    law_separators_cut("/"@, '?', none);
}

proof fn lemma_paths_differ()
    ensures
        "/ide"@.len() == 4,
        "/fleet"@.len() == 6,
        "/"@.len() == 1,
        "/index.html"@.len() == 11 && "/index.html"@[2] == 'n',
        "/icon.svg"@.len() == 9 && "/icon.svg"@[2] == 'c' && "/icon.svg"@[1] == 'i',
        "/wifi/scan"@.len() == 10 && "/wifi/scan"@[1] == 'w',
        "/wifi/status"@.len() == 12 && "/wifi/status"@[1] == 'w',
        "/captive"@.len() == 8 && "/captive"@[1] == 'c',
        "/welcome"@.len() == 8 && "/welcome"@[1] == 'w',
        "/hotspot-detect.html"@.len() == 20 && "/hotspot-detect.html"@[1] == 'h',
        "/library/test/success.html"@.len() == 26 && "/library/test/success.html"@[1] == 'l',
        "/generate_204"@.len() == 13 && "/generate_204"@[1] == 'g',
        "/connecttest.txt"@.len() == 16 && "/connecttest.txt"@[1] == 'c',
        "/ncsi.txt"@.len() == 9 && "/ncsi.txt"@[1] == 'n',
        "/success.txt"@.len() == 12 && "/success.txt"@[1] == 's',
        "/fleet"@[1] == 'f',
        "/wifi/connect"@.len() == 13,
        "/wifi/forget"@.len() == 12,
        "/captive/ack"@.len() == 12 && "/captive/ack"@[1] == 'c' && "/wifi/forget"@[1] == 'w',
        forall|p: Seq<char>| #[trigger] "/ide/"@.is_prefix_of(p) ==> p.len() >= 5 && p[1] == 'i'
            && p[2] == 'd',
{
    reveal_strlit("/ide");
    reveal_strlit("/ide/");
    reveal_strlit("/fleet");
    reveal_strlit("/");
    reveal_strlit("/index.html");
    reveal_strlit("/icon.svg");
    reveal_strlit("/wifi/scan");
    reveal_strlit("/wifi/status");
    reveal_strlit("/captive");
    reveal_strlit("/welcome");
    reveal_strlit("/hotspot-detect.html");
    reveal_strlit("/library/test/success.html");
    reveal_strlit("/generate_204");
    reveal_strlit("/connecttest.txt");
    reveal_strlit("/ncsi.txt");
    reveal_strlit("/success.txt");
    reveal_strlit("/wifi/connect");
    reveal_strlit("/wifi/forget");
    reveal_strlit("/captive/ack");
    assert forall|p: Seq<char>| #[trigger] "/ide/"@.is_prefix_of(p) implies p.len() >= 5 && p[1]
        == 'i' && p[2] == 'd' by {
        assert(p.subrange(0, 5)[1] == p[1]);
        assert(p.subrange(0, 5)[2] == p[2]);
    }
}

/// Every page is at its path and nowhere else, whatever host was asked for.
pub proof fn law_pages_are_at_their_paths(path: Seq<char>, foreign: bool)
    ensures
        ({
            let r = routed("GET"@, path, foreign);
            &&& r is Ide <==> path == "/ide"@ || "/ide/"@.is_prefix_of(path)
            &&& r is Fleet <==> path == "/fleet"@
            &&& r is Dashboard <==> path == "/"@ || path == "/index.html"@
            &&& r is Icon <==> path == "/icon.svg"@
            &&& r is WifiScan <==> path == "/wifi/scan"@
            &&& r is WifiStatus <==> path == "/wifi/status"@
            &&& r is CaptiveApi <==> path == "/captive"@
            &&& r is Welcome <==> path == "/welcome"@
        }),
{
    lemma_paths_differ();
}

/// Every probe is at its path and nowhere else, whatever host was asked for; and what is at no
/// path of the hub goes by the host.
pub proof fn law_probes_are_at_their_paths(path: Seq<char>, foreign: bool)
    ensures
        ({
            let r = routed("GET"@, path, foreign);
            &&& r == Route::Probe(Probe::Apple) <==> path == "/hotspot-detect.html"@ || path
                == "/library/test/success.html"@
            &&& r == Route::Probe(Probe::Android) <==> path == "/generate_204"@
            &&& r == Route::Probe(Probe::Windows) <==> path == "/connecttest.txt"@
            &&& r == Route::Probe(Probe::WindowsNcsi) <==> path == "/ncsi.txt"@
            &&& r == Route::Probe(Probe::Firefox) <==> path == "/success.txt"@
            &&& r is Captured ==> foreign
            &&& r is NotFound ==> !foreign
            &&& !(r is WifiConnect || r is WifiForget || r is Accept)
        }),
{
    lemma_paths_differ();
}

/// What changes something is asked for by POST, each at its path; no other POST is answered, and no
/// other method.
pub proof fn law_actions_are_at_their_paths(method: Seq<char>, path: Seq<char>, foreign: bool)
    ensures
        ({
            let r = routed(method, path, foreign);
            &&& r is WifiConnect <==> method == "POST"@ && path == "/wifi/connect"@
            &&& r is WifiForget <==> method == "POST"@ && path == "/wifi/forget"@
            &&& r is Accept <==> method == "POST"@ && path == "/captive/ack"@
            &&& method == "POST"@ && !(r is WifiConnect || r is WifiForget || r is Accept) ==> r
                is NotFound
        }),
{
    reveal_strlit("GET");
    reveal_strlit("POST");
    assert("GET"@.len() != "POST"@.len());
    lemma_paths_differ();
}

/// What a clean network answers, to the byte, a device that has accepted gets at each probe's path,
/// whatever host was asked for; before, it gets the way to the greeting.
pub proof fn law_probes_are_answered(foreign: bool)
    ensures
        fixed(routed("GET"@, "/hotspot-detect.html"@, foreign), true) == Some(
            Answer {
                status: "200 OK"@,
                ctype: "text/html"@,
                body: "<HTML><HEAD><TITLE>Success</TITLE></HEAD><BODY>Success</BODY></HTML>"@,
            },
        ),
        fixed(routed("GET"@, "/library/test/success.html"@, foreign), true) == fixed(
            routed("GET"@, "/hotspot-detect.html"@, foreign),
            true,
        ),
        fixed(routed("GET"@, "/generate_204"@, foreign), true) == Some(
            Answer { status: "204 No Content"@, ctype: "text/plain"@, body: ""@ },
        ),
        fixed(routed("GET"@, "/connecttest.txt"@, foreign), true) == Some(
            Answer { status: "200 OK"@, ctype: "text/plain"@, body: "Microsoft Connect Test"@ },
        ),
        fixed(routed("GET"@, "/ncsi.txt"@, foreign), true) == Some(
            Answer { status: "200 OK"@, ctype: "text/plain"@, body: "Microsoft NCSI"@ },
        ),
        fixed(routed("GET"@, "/success.txt"@, foreign), true) == Some(
            Answer { status: "200 OK"@, ctype: "text/plain"@, body: "success\n"@ },
        ),
        fixed(routed("GET"@, "/hotspot-detect.html"@, foreign), false)->0.status == "302 Found"@,
        fixed(routed("GET"@, "/generate_204"@, foreign), false)->0.status == "302 Found"@,
        fixed(routed("GET"@, "/connecttest.txt"@, foreign), false)->0.status == "302 Found"@,
        fixed(routed("GET"@, "/ncsi.txt"@, foreign), false)->0.status == "302 Found"@,
        fixed(routed("GET"@, "/success.txt"@, foreign), false)->0.status == "302 Found"@,
{
    law_probes_are_at_their_paths("/hotspot-detect.html"@, foreign);
    law_probes_are_at_their_paths("/library/test/success.html"@, foreign);
    law_probes_are_at_their_paths("/generate_204"@, foreign);
    law_probes_are_at_their_paths("/connecttest.txt"@, foreign);
    law_probes_are_at_their_paths("/ncsi.txt"@, foreign);
    law_probes_are_at_their_paths("/success.txt"@, foreign);
}

/// What the hub says of the network itself does not depend on who has accepted, and is never that
/// it is captive.
pub proof fn law_the_network_is_never_called_captive(acked: bool)
    ensures
        fixed(Route::CaptiveApi, acked) == Some(
            Answer {
                status: "200 OK"@,
                ctype: "application/captive+json"@,
                body: "{\"captive\":false,\"venue-info-url\":\"http://10.42.0.1/\"}"@,
            },
        ),
        fixed(Route::NotFound, acked) == Some(
            Answer { status: "404 Not Found"@, ctype: "text/plain"@, body: "not found"@ },
        ),
{
}

/// What is made for each request, and the pages, go out with success, each as what it is.
pub proof fn law_pages_go_out_as_what_they_are(path: Seq<char>, foreign: bool)
    ensures
        ({
            let h = live(routed("GET"@, path, foreign));
            &&& path == "/fleet"@ || path == "/wifi/scan"@ || path == "/wifi/status"@ ==> h == Some(
                ("200 OK"@, "application/json"@),
            )
            &&& path == "/"@ || path == "/index.html"@ || path == "/welcome"@ ==> h == Some(
                ("200 OK"@, "text/html; charset=utf-8"@),
            )
            &&& path == "/icon.svg"@ ==> h == Some(("200 OK"@, "image/svg+xml"@))
            &&& h is Some ==> path == "/fleet"@ || path == "/wifi/scan"@ || path == "/wifi/status"@
                || path == "/"@ || path == "/index.html"@ || path == "/welcome"@ || path
                == "/icon.svg"@
        }),
{
    law_pages_are_at_their_paths(path, foreign);
    law_probes_are_at_their_paths(path, foreign);
    lemma_paths_differ();
}

/// What depends on whether the device has accepted, and what is said of the network, must not be
/// remembered; everything else may.
pub proof fn law_what_must_not_be_remembered(path: Seq<char>, foreign: bool, acked: bool)
    ensures
        ({
            let r = routed("GET"@, path, foreign);
            &&& is_fleeting(r) <==> path == "/captive"@ || fixed(r, true) != fixed(r, false)
            &&& r is NotFound || r is Ide || live(r) is Some ==> !is_fleeting(r)
        }),
{
    law_pages_are_at_their_paths(path, foreign);
    law_probes_are_at_their_paths(path, foreign);
    reveal_strlit("302 Found");
    reveal_strlit("200 OK");
    reveal_strlit("204 No Content");
    assert("302 Found"@.len() != "200 OK"@.len() && "302 Found"@.len() != "204 No Content"@.len());
}

/// A body is compressed exactly if it has a kilobyte or more, is of a type that shrinks, and the
/// client takes gzip; otherwise it goes out as it is, and the cache stays as it is.
pub proof fn law_what_is_compressed(
    cache: Map<Seq<char>, Seq<u8>>,
    path: Seq<char>,
    ctype: Seq<char>,
    body: Seq<u8>,
    req: Seq<char>,
)
    ensures
        body.len() < 1024 || !is_compressible(ctype) || !takes_gzip(req) ==> sent(
            cache,
            path,
            ctype,
            body,
            req,
        ) == (body, false) && cache_after(cache, path, ctype, body, req) == cache,
        body.len() >= 1024 && is_compressible(ctype) && takes_gzip(req) && gzipped(body) is Some
            ==> sent(cache, path, ctype, body, req).1,
        path != "/"@ && path != "/index.html"@ && path != "/icon.svg"@ ==> cache_after(
            cache,
            path,
            ctype,
            body,
            req,
        ) == cache,
        constant_at("/"@) == constant_at("/index.html"@),
        constant_at("/"@) is Some && constant_at("/icon.svg"@) is Some && constant_at("/"@)
            != constant_at("/icon.svg"@),
{
    lemma_paths_differ();
    reveal_strlit("dashboard");
    reveal_strlit("icon.svg");
    assert("dashboard"@.len() != "icon.svg"@.len());
}

/// A request that was meant for another server, at a path that the hub has nothing at: a device that
/// has not accepted is sent to the greeting, and one that has is answered with nothing. The same
/// request to the hub itself is not found.
pub proof fn law_captured_requests_are_greeted(
    before: Seq<char>,
    key: Seq<char>,
    pad: Seq<char>,
    host: Seq<char>,
    port: Seq<char>,
    end: Seq<char>,
    after: Seq<char>,
    path: Seq<char>,
)
    requires
        host_line(before, key, pad, host, port, end),
        get_route(path, false) == Route::NotFound,
    ensures
        ({
            let req = request_to(before, key, pad, host, port, end, after);
            let route = routed("GET"@, path, is_foreign(req));
            &&& host.contains('.') && host[0] != '[' && host != "10.42.0.1"@ && host != "hub.local"@
                && host != "10.55.0.1"@ && !(host.len() >= 4 && host.take(4) == "127."@) ==> {
                &&& fixed(route, false)->0.status == "302 Found"@
                &&& fixed(route, true)->0.status == "204 No Content"@
            }
            &&& host == "10.42.0.1"@ || host == "hub.local"@ || host == "10.55.0.1"@ || (host.len()
                > 0 && !host.contains('.')) ==> fixed(route, false)->0.status == "404 Not Found"@
        }),
{
    if host.contains('.') && host[0] != '[' && host != "10.42.0.1"@ && host != "hub.local"@ && host
        != "10.55.0.1"@ && !(host.len() >= 4 && host.take(4) == "127."@) {
        reveal_strlit("127.");
        if host.len() >= 4 && host[0] == '1' && host[1] == '2' && host[2] == '7' && host[3] == '.' {
            assert(host.take(4) =~= "127."@);
        }
        law_other_servers_are_foreign(before, key, pad, host, port, end, after);
    } else if host == "10.42.0.1"@ || host == "hub.local"@ || host == "10.55.0.1"@ || (host.len() > 0
        && !host.contains('.')) {
        law_the_hub_answers_to_its_names(
            before,
            key,
            pad,
            host,
            port,
            end,
            after,
            Seq::empty(),
        );
    }
}

} // verus!
