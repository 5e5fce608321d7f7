//! HTTP/1.1 as the hub speaks it: reading requests off a connection, their headers, and what
//! follows from them.
use vstd::prelude::*;
use vstd::string::*;

use crate::bytes::{output_text, text_in};
use crate::number::{
    at_most, decimal, law_decimal_reads_back, lemma_decimal_plain, parse_usize, unsigned_number,
};
use crate::text::{
    ascii_lower, before, blank, chars, cut, ends_with, fields, find, head_field, is_space,
    law_line_feeds_end_lines, law_separators_cut, law_trimming_leaves_the_middle,
    lemma_field_stands, lemma_fields_join, lemma_find, lemma_lines_join,
    lemma_spaces_is, lemma_trim_end_joins, lemma_trimmed_stands, line_seq, lines, lower_char,
    lowered, occurs, same, same_ignoring_case, snug, split, split_once, starts_with, string_of,
    trim, trim_end, trimmed, word_seq, words,
};

verus! {

// ---- Searching ----

/// Where `needle` first stands in `s`.
pub open spec fn seek<T>(s: Seq<T>, needle: Seq<T>) -> Option<int>
    decreases s.len(),
{
    if s.len() < needle.len() {
        None
    } else if s.take(needle.len() as int) == needle {
        Some(0)
    } else if s.len() == 0 {
        None
    } else {
        match seek(s.skip(1), needle) {
            Some(i) => Some(i + 1),
            None => None,
        }
    }
}

pub proof fn lemma_seek<T>(s: Seq<T>, needle: Seq<T>)
    ensures
        match seek(s, needle) {
            Some(i) => {
                &&& 0 <= i
                &&& i + needle.len() <= s.len()
                &&& s.subrange(i, i + needle.len()) == needle
                &&& forall|j: int| 0 <= j < i ==> #[trigger] s.subrange(j, j + needle.len()) != needle
            },
            None => forall|j: int|
                0 <= j && j + needle.len() <= s.len() ==> #[trigger] s.subrange(
                    j,
                    j + needle.len(),
                ) != needle,
        },
    decreases s.len(),
{
    let n = needle.len() as int;
    if s.len() >= n {
        assert(s.subrange(0, n) =~= s.take(n));
        if s.take(n) != needle && s.len() > 0 {
            let t = s.skip(1);
            lemma_seek(t, needle);
            assert forall|j: int| 1 <= j && j + n <= s.len() implies #[trigger] s.subrange(j, j + n)
                == t.subrange(j - 1, j - 1 + n) by {
                assert(s.subrange(j, j + n) =~= t.subrange(j - 1, j - 1 + n));
            }
            match seek(t, needle) {
                Some(i) => {
                    assert(s.subrange(i + 1, i + 1 + n) == needle);
                },
                None => {},
            }
        }
    }
}

pub proof fn lemma_seek_is<T>(s: Seq<T>, needle: Seq<T>, i: int)
    requires
        0 <= i,
        i + needle.len() <= s.len(),
        s.subrange(i, i + needle.len()) == needle,
        forall|j: int| 0 <= j < i ==> #[trigger] s.subrange(j, j + needle.len()) != needle,
    ensures
        seek(s, needle) == Some(i),
{
    lemma_seek(s, needle);
    match seek(s, needle) {
        Some(k) => {
            if k < i {
                assert(s.subrange(k, k + needle.len()) == needle);
            }
            if i < k {
                assert(s.subrange(i, i + needle.len()) == needle);
            }
        },
        None => {
            assert(s.subrange(i, i + needle.len()) == needle);
        },
    }
}

proof fn lemma_seek_none<T>(s: Seq<T>, needle: Seq<T>)
    requires
        forall|j: int|
            0 <= j && j + needle.len() <= s.len() ==> #[trigger] s.subrange(j, j + needle.len())
                != needle,
    ensures
        seek(s, needle) is None,
{
    lemma_seek(s, needle);
}

/// What a text or a message is made of: a unit that can be compared.
trait Unit: Sized {
    fn is(&self, other: &Self) -> (r: bool)
        ensures
            r == (*self == *other),
    ;
}

impl Unit for u8 {
    fn is(&self, other: &u8) -> (r: bool) {
        *self == *other
    }
}

impl Unit for char {
    fn is(&self, other: &char) -> (r: bool) {
        *self == *other
    }
}

/// The position of the first occurrence of some units.
fn find_in<T: Unit>(haystack: &[T], needle: &[T]) -> (r: Option<usize>)
    requires
        needle@.len() > 0,
    ensures
        match r {
            Some(i) => seek(haystack@, needle@) == Some(i as int),
            None => seek(haystack@, needle@) is None,
        },
{
    let len: usize = haystack.len();
    let n: usize = needle.len();
    let mut i: usize = 0;
    while i < len && n <= len - i
        invariant
            len == haystack@.len(),
            n == needle@.len(),
            n > 0,
            i <= len,
            forall|j: int| 0 <= j < i ==> #[trigger] haystack@.subrange(j, j + n) != needle@,
        decreases len - i,
    {
        let mut k: usize = 0;
        while k < n && haystack[i + k].is(&needle[k])
            invariant
                len == haystack@.len(),
                n == needle@.len(),
                i < len,
                n <= len - i,
                k <= n,
                forall|j: int| 0 <= j < k ==> haystack@[i + j] == needle@[j],
            decreases n - k,
        {
            k += 1;
        }
        if k == n {
            assert(haystack@.subrange(i as int, i + n) =~= needle@);
            proof {
                lemma_seek_is(haystack@, needle@, i as int);
            }
            return Some(i);
        }
        assert(haystack@.subrange(i as int, i + n)[k as int] != needle@[k as int]);
        i += 1;
    }
    proof {
        lemma_seek_none(haystack@, needle@);
    }
    None
}

/// The position of the first occurrence of some bytes.
pub fn find_bytes(haystack: &[u8], needle: &[u8]) -> (r: Option<usize>)
    requires
        needle@.len() > 0,
    ensures
        match r {
            Some(i) => seek(haystack@, needle@) == Some(i as int),
            None => seek(haystack@, needle@) is None,
        },
{
    find_in(haystack, needle)
}

// ---- Headers ----

/// What stands behind the colon in the first line whose part before the colon is `name`, in any
/// case.
pub open spec fn header_in(lines: Seq<Seq<char>>, name: Seq<char>) -> Option<Seq<char>>
    decreases lines.len(),
{
    if lines.len() == 0 {
        None
    } else {
        match cut(lines[0], ':') {
            Some(p) => if lowered(p.0) == lowered(name) {
                Some(p.1)
            } else {
                header_in(lines.skip(1), name)
            },
            None => header_in(lines.skip(1), name),
        }
    }
}

/// The lines before the first empty line.
pub open spec fn head_lines(lines: Seq<Seq<char>>) -> Seq<Seq<char>>
    decreases lines.len(),
{
    if lines.len() == 0 || lines[0].len() == 0 {
        Seq::empty()
    } else {
        seq![lines[0]] + head_lines(lines.skip(1))
    }
}

/// The value of a header of a request, trimmed.
pub open spec fn header_of(req: Seq<char>, name: Seq<char>) -> Option<Seq<char>> {
    match header_in(head_lines(line_seq(req)), name) {
        Some(v) => Some(trimmed(v)),
        None => None,
    }
}

/// Searches lines for a header.
pub(crate) fn scan_lines(ls: &Vec<String>, name: &str, stop_at_blank: bool) -> (r: Option<String>)
    ensures
        ({
            let all = if stop_at_blank {
                head_lines(ls.deep_view())
            } else {
                ls.deep_view()
            };
            match r {
                Some(v) => header_in(all, name@) == Some(v@),
                None => header_in(all, name@) is None,
            }
        }),
{
    let ghost dv = ls.deep_view();
    let ghost all = if stop_at_blank {
        head_lines(dv)
    } else {
        dv
    };
    let mut i: usize = 0;
    assert(dv.skip(0) =~= dv);
    while i < ls.len()
        invariant
            dv == ls.deep_view(),
            all == (if stop_at_blank {
                head_lines(dv)
            } else {
                dv
            }),
            i <= ls@.len(),
            header_in(all, name@) == header_in(
                if stop_at_blank {
                    head_lines(dv.skip(i as int))
                } else {
                    dv.skip(i as int)
                },
                name@,
            ),
        decreases ls@.len() - i,
    {
        let ghost rest = dv.skip(i as int);
        assert(rest[0] == ls@[i as int]@);
        assert(rest.skip(1) =~= dv.skip(i + 1));
        if stop_at_blank && ls[i].as_str().is_empty() {
            return None;
        }
        proof {
            if stop_at_blank {
                let h = head_lines(rest);
                assert(h[0] == rest[0]);
                assert(h.skip(1) =~= head_lines(rest.skip(1)));
            }
        }
        match split_once(ls[i].as_str(), ':') {
            Some((key, value)) => {
                if same_ignoring_case(key.as_str(), name) {
                    return Some(value);
                }
            },
            None => {},
        }
        i += 1;
    }
    assert(dv.skip(ls@.len() as int) =~= Seq::<Seq<char>>::empty());
    None
}

/// The value of a request header, whatever its case. The search stops at the blank line, so that
/// a body cannot pass for a header.
pub fn header_value(req: &str, name: &str) -> (r: Option<String>)
    ensures
        match r {
            Some(v) => header_of(req@, name@) == Some(v@),
            None => header_of(req@, name@) is None,
        },
{
    match scan_lines(&lines(req), name, true) {
        Some(v) => Some(trim(v.as_str())),
        None => None,
    }
}

/// The body length that a header block declares: 0 where it declares none that can be read.
pub open spec fn declared_length(head: Seq<char>) -> int {
    match header_in(line_seq(head), "content-length"@) {
        Some(v) => match at_most(unsigned_number(trimmed(v), 10), usize::MAX as int) {
            Some(n) => n,
            None => 0,
        },
        None => 0,
    }
}

/// The declared body length in the text of a header block.
pub fn length_in(head: &str) -> (r: usize)
    ensures
        r == declared_length(head@),
{
    match scan_lines(&lines(head), "content-length", false) {
        Some(v) => match parse_usize(trim(v.as_str()).as_str()) {
            Some(n) => n,
            None => 0,
        },
        None => 0,
    }
}

/// The declared body length in the bytes of a header block.
pub fn content_length(headers: &[u8]) -> (r: usize)
    ensures
        r == declared_length(text_in(headers@)),
{
    length_in(output_text(headers).as_str())
}

// ---- Reading requests ----

/// A connection that has sent this much without a complete request is closed.
pub const MAX_REQUEST: usize = 16384;

/// The blank line that ends a header block: `\r\n\r\n`.
pub open spec fn blank_line() -> Seq<u8> {
    seq![13u8, 10u8, 13u8, 10u8]
}

/// How many bytes the first message in `carry` takes, once its header block has arrived.
pub open spec fn message_len(carry: Seq<u8>) -> Option<int> {
    match seek(carry, blank_line()) {
        Some(i) => Some(i + 4 + declared_length(text_in(carry.take(i + 4)))),
        None => None,
    }
}

/// What to do with what a connection has sent so far.
pub enum ReadStep {
    /// This request is complete; what came after it stays.
    Request(Vec<u8>),
    /// Read more.
    More,
    /// Close the connection.
    Close,
}

/// Takes the first request out of what has been read. Whatever was sent after it stays in
/// `carry` for the next call: a client may put its next request right behind this one.
pub fn take_request(carry: &mut Vec<u8>) -> (r: ReadStep)
    ensures
        match r {
            ReadStep::Request(q) => {
                &&& message_len(old(carry)@) == Some(q@.len() as int)
                &&& old(carry)@ == q@ + final(carry)@
            },
            ReadStep::More => {
                &&& final(carry)@ == old(carry)@
                &&& old(carry)@.len() < MAX_REQUEST
                &&& message_len(old(carry)@) matches Some(n) ==> old(carry)@.len() < n
            },
            ReadStep::Close => {
                &&& final(carry)@ == old(carry)@
                &&& old(carry)@.len() >= MAX_REQUEST
                &&& message_len(old(carry)@) matches Some(n) ==> old(carry)@.len() < n
            },
        },
{
    let have: usize = carry.len();
    let blank: [u8; 4] = [13, 10, 13, 10];
    assert(blank@ =~= blank_line());
    match find_bytes(carry.as_slice(), vstd::array::array_as_slice(&blank)) {
        Some(i) => {
            proof {
                lemma_seek(carry@, blank_line());
            }
            let header_end: usize = i + 4;
            let head = vstd::slice::slice_subrange(carry.as_slice(), 0, header_end);
            assert(head@ =~= carry@.take(header_end as int));
            let body = content_length(head);
            if body <= have - header_end {
                let total: usize = header_end + body;
                let ghost all = carry@;
                let rest = carry.split_off(total);
                let mut q: Vec<u8> = rest;
                std::mem::swap(carry, &mut q);
                assert(all =~= q@ + carry@);
                return ReadStep::Request(q);
            }
        },
        None => {},
    }
    if have >= MAX_REQUEST {
        ReadStep::Close
    } else {
        ReadStep::More
    }
}

/// Bytes that come later never change a request that is complete: it is as long as before.
pub proof fn law_later_bytes_change_no_request(carry: Seq<u8>, more: Seq<u8>, n: int)
    requires
        message_len(carry) == Some(n),
    ensures
        message_len(carry + more) == Some(n),
{
    let b = blank_line();
    let both = carry + more;
    lemma_seek(carry, b);
    let i = seek(carry, b)->0;
    assert(both.subrange(i, i + b.len()) =~= carry.subrange(i, i + b.len()));
    assert forall|j: int| 0 <= j < i implies #[trigger] both.subrange(j, j + b.len()) != b by {
        assert(both.subrange(j, j + b.len()) =~= carry.subrange(j, j + b.len()));
    }
    lemma_seek_is(both, b, i);
    assert(both.take(i + 4) =~= carry.take(i + 4));
}

/// Two requests that arrive together are taken one after the other, each as if it had come alone.
pub proof fn law_requests_may_come_together(first: Seq<u8>, second: Seq<u8>)
    requires
        message_len(first) == Some(first.len() as int),
    ensures
        message_len(first + second) == Some(first.len() as int),
        (first + second).skip(first.len() as int) == second,
{
    law_later_bytes_change_no_request(first, second, first.len() as int);
    assert((first + second).skip(first.len() as int) =~= second);
}

// ---- The request line ----

/// The word of a text at a position, or another text where it has not so many.
pub open spec fn word_or(s: Seq<char>, i: int, default: Seq<char>) -> Seq<char> {
    if i < word_seq(s).len() {
        word_seq(s)[i]
    } else {
        default
    }
}

/// The method of a request.
pub open spec fn method_of(req: Seq<char>) -> Seq<char> {
    word_or(req, 0, "GET"@)
}

/// The path of a request, without its query.
pub open spec fn path_of(req: Seq<char>) -> Seq<char> {
    head_field(word_or(req, 1, "/"@), '?')
}

/// The method and the path of a request.
pub fn request_line(req: &str) -> (r: (String, String))
    ensures
        r.0@ == method_of(req@),
        r.1@ == path_of(req@),
{
    let ws = words(req);
    let method = if ws.len() > 0 {
        assert(ws.deep_view()[0] == ws@[0]@);
        ws[0].clone()
    } else {
        "GET".to_owned()
    };
    let raw = if ws.len() > 1 {
        assert(ws.deep_view()[1] == ws@[1]@);
        ws[1].clone()
    } else {
        "/".to_owned()
    };
    let path = before(raw.as_str(), '?');
    (method, path)
}

/// What follows the blank line of a request; empty where there is no blank line.
pub open spec fn body_of(req: Seq<char>) -> Seq<char> {
    match seek(req, "\r\n\r\n"@) {
        Some(i) => req.skip(i + 4),
        None => Seq::empty(),
    }
}

pub fn post_body(req: &str) -> (r: String)
    ensures
        r@ == body_of(req@),
{
    proof {
        reveal_strlit("\r\n\r\n");
    }
    let v = chars(req);
    let len: usize = v.len();
    let blank = chars("\r\n\r\n");
    match find_in(v.as_slice(), blank.as_slice()) {
        Some(i) => {
            proof {
                lemma_seek(v@, blank@);
            }
            let r = string_of(&v, i + 4, len);
            assert(r@ =~= req@.skip(i + 4));
            r
        },
        None => String::new(),
    }
}

// ---- Connections and encodings ----

/// Is `token` one of the entries of a comma-separated list?
pub open spec fn lists(value: Seq<char>, token: Seq<char>) -> bool {
    exists|i: int|
        0 <= i < fields(value, ',').len() && trimmed(#[trigger] fields(value, ',')[i]) == token
}

pub(crate) fn has_token(value: &str, token: &str) -> (r: bool)
    ensures
        r == lists(value@, token@),
{
    let fs = split(value, ',');
    let ghost dv = fields(value@, ',');
    let mut i: usize = 0;
    while i < fs.len()
        invariant
            dv == fields(value@, ','),
            fs.deep_view() == dv,
            i <= fs@.len(),
            forall|j: int| 0 <= j < i ==> trimmed(#[trigger] dv[j]) != token@,
        decreases fs@.len() - i,
    {
        assert(dv[i as int] == fs@[i as int]@);
        if same(trim(fs[i].as_str()).as_str(), token) {
            return true;
        }
        i += 1;
    }
    false
}

/// The value of the `Connection` header, lowered; empty where there is none.
pub open spec fn connection_of(req: Seq<char>) -> Seq<char> {
    match header_of(req, "connection"@) {
        Some(v) => lowered(v),
        None => Seq::empty(),
    }
}

/// Does the first line of a request name HTTP/1.1?
pub open spec fn is_http11(req: Seq<char>) -> bool {
    line_seq(req).len() > 0 && "HTTP/1.1"@.is_suffix_of(line_seq(req)[0])
}

/// HTTP/1.1 is persistent unless the client says `close`; before it, only `keep-alive` is.
pub open spec fn keeps_alive(req: Seq<char>) -> bool {
    &&& !lists(connection_of(req), "close"@)
    &&& lists(connection_of(req), "keep-alive"@) || is_http11(req)
}

/// Should the connection stay open after the response?
pub fn wants_keepalive(req: &str) -> (r: bool)
    ensures
        r == keeps_alive(req@),
{
    let conn = match header_value(req, "connection") {
        Some(v) => ascii_lower(v.as_str()),
        None => String::new(),
    };
    if has_token(conn.as_str(), "close") {
        return false;
    }
    if has_token(conn.as_str(), "keep-alive") {
        return true;
    }
    let ls = lines(req);
    if ls.len() > 0 {
        assert(ls.deep_view()[0] == ls@[0]@);
        ends_with(ls[0].as_str(), "HTTP/1.1")
    } else {
        false
    }
}

/// Does an entry of an `Accept-Encoding` list, with or without a weight, name gzip?
pub open spec fn offers_gzip(value: Seq<char>) -> bool {
    exists|i: int|
        0 <= i < fields(value, ',').len() && head_field(
            trimmed(#[trigger] fields(value, ',')[i]),
            ';',
        ) == "gzip"@
}

/// Did the client offer gzip?
pub open spec fn takes_gzip(req: Seq<char>) -> bool {
    match header_of(req, "accept-encoding"@) {
        Some(v) => offers_gzip(v),
        None => false,
    }
}

pub fn accepts_gzip(req: &str) -> (r: bool)
    ensures
        r == takes_gzip(req@),
{
    let value = match header_value(req, "accept-encoding") {
        Some(v) => v,
        None => {
            return false;
        },
    };
    let fs = split(value.as_str(), ',');
    let ghost dv = fields(value@, ',');
    let mut i: usize = 0;
    while i < fs.len()
        invariant
            dv == fields(value@, ','),
            fs.deep_view() == dv,
            header_of(req@, "accept-encoding"@) == Some(value@),
            i <= fs@.len(),
            forall|j: int| 0 <= j < i ==> head_field(trimmed(#[trigger] dv[j]), ';') != "gzip"@,
        decreases fs@.len() - i,
    {
        assert(dv[i as int] == fs@[i as int]@);
        let coding = before(trim(fs[i].as_str()).as_str(), ';');
        if same(coding.as_str(), "gzip") {
            return true;
        }
        i += 1;
    }
    false
}

/// Content types that shrink under gzip.
pub open spec fn is_compressible(ctype: Seq<char>) -> bool {
    ||| "text/"@.is_prefix_of(ctype)
    ||| "application/json"@.is_prefix_of(ctype)
    ||| "application/javascript"@.is_prefix_of(ctype)
    ||| "application/manifest+json"@.is_prefix_of(ctype)
    ||| "image/svg+xml"@.is_prefix_of(ctype)
    ||| "application/wasm"@.is_prefix_of(ctype)
}

pub fn compressible(ctype: &str) -> (r: bool)
    ensures
        r == is_compressible(ctype@),
{
    starts_with(ctype, "text/") || starts_with(ctype, "application/json") || starts_with(
        ctype,
        "application/javascript",
    ) || starts_with(ctype, "application/manifest+json") || starts_with(ctype, "image/svg+xml")
        || starts_with(ctype, "application/wasm")
}

/// `Vary` says that a resource can come in two encodings, not which one came.
pub open spec fn vary_line(ctype: Seq<char>) -> Seq<char> {
    if is_compressible(ctype) {
        "Vary: Accept-Encoding\r\n"@
    } else {
        ""@
    }
}

pub fn vary(ctype: &str) -> (r: &'static str)
    ensures
        r@ == vary_line(ctype@),
{
    if compressible(ctype) {
        "Vary: Accept-Encoding\r\n"
    } else {
        ""
    }
}

/// The lines that say whether the connection stays open.
pub open spec fn connection_lines(keep: bool) -> Seq<char> {
    if keep {
        "Connection: keep-alive\r\nKeep-Alive: timeout=15\r\n"@
    } else {
        "Connection: close\r\n"@
    }
}

pub fn conn_hdr(keep: bool) -> (r: &'static str)
    ensures
        r@ == connection_lines(keep),
{
    if keep {
        "Connection: keep-alive\r\nKeep-Alive: timeout=15\r\n"
    } else {
        "Connection: close\r\n"
    }
}

/// `close` always wins, whatever else the client says.
pub proof fn law_close_always_wins(req: Seq<char>)
    requires
        lists(connection_of(req), "close"@),
    ensures
        !keeps_alive(req),
{
}

/// A body cannot pass for a header: what comes after the first empty line of a request does not
/// matter to any header.
pub proof fn law_bodies_are_no_headers(
    head: Seq<Seq<char>>,
    body: Seq<Seq<char>>,
    name: Seq<char>,
)
    ensures
        header_in(head_lines(head + seq![Seq::<char>::empty()] + body), name) == header_in(
            head_lines(head),
            name,
        ),
{
    lemma_head_stops(head, body);
}

proof fn lemma_head_stops(head: Seq<Seq<char>>, body: Seq<Seq<char>>)
    ensures
        head_lines(head + seq![Seq::<char>::empty()] + body) == head_lines(head),
    decreases head.len(),
{
    let all = head + seq![Seq::<char>::empty()] + body;
    if head.len() > 0 && head[0].len() > 0 {
        assert(all[0] == head[0]);
        assert(all.skip(1) =~= head.skip(1) + seq![Seq::<char>::empty()] + body);
        lemma_head_stops(head.skip(1), body);
    } else if head.len() == 0 {
        assert(all[0] == Seq::<char>::empty());
    } else {
        assert(all[0] == head[0]);
    }
}

/// The line does not begin with this name, in any case, and a colon.
pub open spec fn not_headed(line: Seq<char>, name: Seq<char>) -> bool {
    let n = name.len() as int;
    line.len() <= n || line[n] != ':' || lowered(line.take(n)) != lowered(name)
}

proof fn lemma_headers_skipped(ls: Seq<Seq<char>>, more: Seq<Seq<char>>, name: Seq<char>)
    requires
        forall|j: int| 0 <= j < ls.len() ==> not_headed(#[trigger] ls[j], name),
    ensures
        header_in(ls + more, name) == header_in(more, name),
    decreases ls.len(),
{
    if ls.len() == 0 {
        assert(ls + more =~= more);
    } else {
        let all = ls + more;
        let line = ls[0];
        assert(all[0] == line);
        assert(all.skip(1) =~= ls.skip(1) + more);
        assert forall|j: int| 0 <= j < ls.skip(1).len() implies not_headed(
            #[trigger] ls.skip(1)[j],
            name,
        ) by {
            assert(ls.skip(1)[j] == ls[j + 1]);
        }
        lemma_headers_skipped(ls.skip(1), more, name);
        lemma_find(line, ':');
        let i = find(line, ':');
        if i < line.len() {
            assert(lowered(line.take(i)).len() == i);
            assert(lowered(name).len() == name.len());
        }
    }
}

proof fn lemma_head_goes_on(ls: Seq<Seq<char>>, more: Seq<Seq<char>>)
    requires
        forall|j: int| 0 <= j < ls.len() ==> (#[trigger] ls[j]).len() > 0,
    ensures
        head_lines(ls + more) == ls + head_lines(more),
    decreases ls.len(),
{
    if ls.len() == 0 {
        assert(ls + more =~= more);
        assert(ls + head_lines(more) =~= head_lines(more));
    } else {
        let all = ls + more;
        assert(all[0] == ls[0]);
        assert(all.skip(1) =~= ls.skip(1) + more);
        assert forall|j: int| 0 <= j < ls.skip(1).len() implies (#[trigger] ls.skip(1)[j]).len()
            > 0 by {
            assert(ls.skip(1)[j] == ls[j + 1]);
        }
        lemma_head_goes_on(ls.skip(1), more);
        assert(head_lines(all) =~= ls + head_lines(more));
    }
}

/// A header is found under its name in any case, without the white space around its value: on a
/// line of its own behind any lines that are not of that name. What comes behind its line does not
/// matter.
pub proof fn law_headers_are_found(
    before: Seq<char>,
    key: Seq<char>,
    pad: Seq<char>,
    value: Seq<char>,
    end: Seq<char>,
    after: Seq<char>,
    name: Seq<char>,
)
    requires
        before.len() > 0 ==> before.last() == '\n',
        forall|j: int|
            0 <= j < line_seq(before).len() ==> not_headed(#[trigger] line_seq(before)[j], name),
        lowered(key) == lowered(name),
        !key.contains(':'),
        !key.contains('\n'),
        blank(pad),
        snug(value),
        blank(end),
        !(pad + value + end).contains('\n'),
    ensures
        ({
            let req = before + (key + ":"@ + (pad + value + end) + "\r\n"@ + after);
            &&& header_in(line_seq(req), name) == Some(pad + value + end)
            &&& trimmed(pad + value + end) == value
            &&& (forall|j: int|
                0 <= j < line_seq(before).len() ==> (#[trigger] line_seq(before)[j]).len() > 0)
                ==> header_of(req, name) == Some(value)
        }),
{
    reveal_strlit(":");
    let v = pad + value + end;
    let line = key + ":"@ + v;
    let rest = line + "\r\n"@ + after;
    let req = before + rest;
    assert(line =~= key + seq![':'] + v);
    assert(!line.contains('\n')) by {
        assert forall|i: int| 0 <= i < line.len() implies line[i] != '\n' by {
            if i < key.len() {
                assert(key.contains(key[i]));
                assert(line[i] == key[i]);
            } else if i > key.len() {
                assert(v.contains(v[i - key.len() - 1]));
                assert(line[i] == v[i - key.len() - 1]);
            }
        }
    }
    law_line_feeds_end_lines(line, after);
    lemma_lines_join(before, rest);
    law_separators_cut(key, ':', v);
    law_trimming_leaves_the_middle(pad, value, end);
    let ls = line_seq(before);
    let more = seq![line] + line_seq(after);
    assert(line_seq(req) == ls + more);
    assert(more[0] == line);
    lemma_headers_skipped(ls, more, name);
    if forall|j: int| 0 <= j < ls.len() ==> (#[trigger] ls[j]).len() > 0 {
        lemma_head_goes_on(ls, more);
        assert(head_lines(more)[0] == line);
        lemma_headers_skipped(ls, head_lines(more), name);
    }
}

/// A header that no line has is not found.
pub proof fn law_absent_headers_are_not_found(req: Seq<char>, name: Seq<char>)
    requires
        forall|j: int|
            0 <= j < line_seq(req).len() ==> not_headed(#[trigger] line_seq(req)[j], name),
    ensures
        header_in(line_seq(req), name) is None,
        header_of(req, name) is None,
{
    let ls = line_seq(req);
    let none = Seq::<Seq<char>>::empty();
    assert(ls + none =~= ls);
    lemma_headers_skipped(ls, none, name);
    lemma_head_is_part(ls);
    let h = head_lines(ls);
    assert(h + none =~= h);
    lemma_headers_skipped(h, none, name);
}

proof fn lemma_head_is_part(ls: Seq<Seq<char>>)
    ensures
        head_lines(ls).len() <= ls.len(),
        forall|j: int| 0 <= j < head_lines(ls).len() ==> #[trigger] head_lines(ls)[j] == ls[j],
    decreases ls.len(),
{
    if ls.len() > 0 && ls[0].len() > 0 {
        lemma_head_is_part(ls.skip(1));
        let h = head_lines(ls);
        assert forall|j: int| 0 <= j < h.len() implies #[trigger] h[j] == ls[j] by {
            if j > 0 {
                assert(h[j] == head_lines(ls.skip(1))[j - 1]);
                assert(ls.skip(1)[j - 1] == ls[j]);
            }
        }
    }
}

/// The declared length is what the header says, whatever its case and the white space around the
/// number; where no line has the header, or it says no number that can be counted to, it is 0.
pub proof fn law_declared_lengths_are_read(
    before: Seq<char>,
    key: Seq<char>,
    pad: Seq<char>,
    n: nat,
    end: Seq<char>,
    after: Seq<char>,
    junk: Seq<char>,
)
    requires
        before.len() > 0 ==> before.last() == '\n',
        forall|j: int|
            0 <= j < line_seq(before).len() ==> not_headed(
                #[trigger] line_seq(before)[j],
                "content-length"@,
            ),
        snug(junk),
        !(pad + junk + end).contains('\n'),
        unsigned_number(junk, 10) is None || unsigned_number(junk, 10)->0 > usize::MAX,
        lowered(key) == "content-length"@,
        blank(pad),
        blank(end),
        !pad.contains('\n'),
        !end.contains('\n'),
        n <= usize::MAX,
    ensures
        declared_length(before + (key + ":"@ + (pad + decimal(n) + end) + "\r\n"@ + after)) == n,
        declared_length(before) == 0,
        declared_length(before + (key + ":"@ + (pad + junk + end) + "\r\n"@ + after)) == 0,
{
    reveal_strlit("content-length");
    let name = "content-length"@;
    let v = pad + decimal(n) + end;
    lemma_decimal_plain(n);
    law_decimal_reads_back(n);
    lemma_lowered_is(key, name);
    assert(lowered(name) =~= name);
    assert(!v.contains('\n')) by {
        assert forall|i: int| 0 <= i < v.len() implies v[i] != '\n' by {
            let a = pad.len() as int;
            let b = a + decimal(n).len();
            if i < a {
                assert(pad.contains(pad[i]));
            } else if i < b {
                assert(v[i] == decimal(n)[i - a]);
            } else {
                assert(end.contains(end[i - b]));
            }
        }
    }
    assert(snug(decimal(n)));
    law_headers_are_found(before, key, pad, decimal(n), end, after, name);
    law_headers_are_found(before, key, pad, junk, end, after, name);
    law_absent_headers_are_not_found(before, name);
}

/// A text that is lowered to a name of plain letters has no colon and no line feed either.
proof fn lemma_lowered_is(key: Seq<char>, name: Seq<char>)
    requires
        lowered(key) == name,
        !name.contains(':'),
        !name.contains('\n'),
    ensures
        !key.contains(':'),
        !key.contains('\n'),
        key.len() == name.len(),
{
    assert(lowered(key).len() == key.len());
    assert forall|i: int| 0 <= i < key.len() implies key[i] != ':' && key[i] != '\n' by {
        assert(name[i] == lower_char(key[i]));
        assert(name.contains(name[i]));
    }
}

/// May an entry of a comma-separated list begin behind this text?
pub open spec fn entry_begins(a: Seq<char>) -> bool {
    a.len() == 0 || a.last() == ','
}

/// May an entry of a comma-separated list end before this text?
pub open spec fn entry_ends(b: Seq<char>) -> bool {
    b.len() == 0 || b[0] == ','
}

/// The entry between `a` and `b` is a field of the list.
proof fn lemma_entry(a: Seq<char>, entry: Seq<char>, b: Seq<char>) -> (i: int)
    requires
        entry_begins(a),
        !entry.contains(','),
        entry_ends(b),
    ensures
        0 <= i < fields(a + entry + b, ',').len(),
        fields(a + entry + b, ',')[i] == entry,
{
    let rest = entry + b;
    assert(a + entry + b =~= a + rest);
    lemma_fields_join(a, rest, ',');
    let i = fields(a, ',').len() - 1;
    if b.len() > 0 {
        assert(rest =~= entry + seq![','] + b.skip(1));
        law_separators_cut(entry, ',', b.skip(1));
    } else {
        assert(rest =~= entry);
        law_separators_cut(entry, ',', b);
    }
    assert(fields(rest, ',')[0] == entry);
    assert(fields(a + rest, ',')[i] == fields(rest, ',')[0]);
    i
}

/// A list lists what is an entry of it, at whatever position and with whatever white space around
/// it, and nothing that does not stand alone between its commas.
pub proof fn law_lists_list_their_entries(
    a: Seq<char>,
    pad: Seq<char>,
    token: Seq<char>,
    end: Seq<char>,
    b: Seq<char>,
    value: Seq<char>,
)
    requires
        entry_begins(a),
        blank(pad),
        token.len() > 0,
        snug(token),
        !token.contains(','),
        blank(end),
        entry_ends(b),
    ensures
        lists(a + (pad + token + end) + b, token),
        lists(value, token) ==> exists|w: Seq<char>, x: Seq<char>, y: Seq<char>, z: Seq<char>|
            {
                &&& value == #[trigger] (w + (x + token + y) + z)
                &&& entry_begins(w) && blank(x) && blank(y) && entry_ends(z)
            },
{
    let entry = pad + token + end;
    assert(!entry.contains(',')) by {
        assert forall|i: int| 0 <= i < entry.len() implies entry[i] != ',' by {
            let m = pad.len() as int;
            let n = m + token.len();
            if i < m {
                assert(is_space(pad[i]));
            } else if i < n {
                assert(token.contains(token[i - m]));
            } else {
                assert(is_space(end[i - n]));
            }
        }
    }
    let k = lemma_entry(a, entry, b);
    law_trimming_leaves_the_middle(pad, token, end);
    assert(trimmed(fields(a + entry + b, ',')[k]) == token);
    if lists(value, token) {
        let k = choose|k: int|
            0 <= k < fields(value, ',').len() && trimmed(#[trigger] fields(value, ',')[k]) == token;
        let f = fields(value, ',')[k];
        let p = lemma_field_stands(value, ',', k);
        let q = lemma_trimmed_stands(f);
        let n = token.len() as int;
        let (w, z) = (value.take(p), value.skip(p + f.len()));
        let (x, y) = (f.take(q), f.skip(q + n));
        assert(f =~= x + token + y);
        assert(value.subrange(p, p + f.len()) == f);
        assert(value =~= w + f + z);
        assert forall|j: int| 0 <= j < y.len() implies is_space(#[trigger] y[j]) by {
            assert(is_space(f[q + n + j]));
        }
        assert forall|j: int| 0 <= j < x.len() implies is_space(#[trigger] x[j]) by {
            assert(is_space(f[j]));
        }
        assert(value == w + (x + token + y) + z);
    }
}

/// A client that lists gzip takes it: at whatever position of the list, with or without a weight.
pub proof fn law_listed_gzip_is_taken(
    req: Seq<char>,
    a: Seq<char>,
    pad: Seq<char>,
    end: Seq<char>,
    b: Seq<char>,
)
    requires
        header_of(req, "accept-encoding"@) == Some(a + pad + "gzip"@ + end + b),
        entry_begins(a),
        blank(pad),
        blank(end),
        entry_ends(b) || (end.len() == 0 && b[0] == ';'),
    ensures
        takes_gzip(req),
{
    reveal_strlit("gzip");
    let g = "gzip"@;
    lemma_find(b, ',');
    let n = find(b, ',');
    let weight = b.take(n);
    let later = b.skip(n);
    let entry = pad + g + end + weight;
    let value = a + pad + g + end + b;
    assert(!entry.contains(',')) by {
        assert forall|i: int| 0 <= i < entry.len() implies entry[i] != ',' by {
            let x = pad.len() as int;
            let y = x + 4 + end.len();
            if i < x {
                assert(is_space(pad[i]));
            } else if x + 4 <= i < y {
                assert(is_space(end[i - x - 4]));
            } else if y <= i {
                assert(entry[i] == b[i - y]);
            }
        }
    }
    assert(value =~= a + entry + later);
    let k = lemma_entry(a, entry, later);
    if entry_ends(b) {
        assert(weight =~= Seq::<char>::empty());
        assert(entry =~= pad + g + end);
        law_trimming_leaves_the_middle(pad, g, end);
        law_separators_cut(g, ';', g);
    } else {
        assert(weight.len() > 0);
        let core = g + seq![';'];
        let rest = weight.skip(1);
        assert forall|j: int| 0 <= j < pad.len() implies is_space(entry[j]) by {
            assert(is_space(pad[j]));
        }
        assert(entry[pad.len() as int] == 'g');
        lemma_spaces_is(entry, pad.len() as int);
        assert(entry.skip(pad.len() as int) =~= core + rest);
        lemma_trim_end_joins(core, rest);
        assert(core + trim_end(rest) =~= g + seq![';'] + trim_end(rest));
        law_separators_cut(g, ';', trim_end(rest));
    }
    assert(head_field(trimmed(fields(value, ',')[k]), ';') == g);
}

/// A client takes gzip only if it says so: an entry of its list is the word, alone or before its
/// weight.
pub proof fn law_gzip_is_taken_only_where_listed(req: Seq<char>)
    requires
        takes_gzip(req),
    ensures
        header_of(req, "accept-encoding"@) is Some,
        exists|a: Seq<char>, pad: Seq<char>, end: Seq<char>, b: Seq<char>|
            {
                &&& header_of(req, "accept-encoding"@)->0 == #[trigger] (a + pad + "gzip"@ + end + b)
                &&& entry_begins(a) && blank(pad) && blank(end)
                &&& entry_ends(b) || (end.len() == 0 && b[0] == ';')
            },
{
    reveal_strlit("gzip");
    let v = header_of(req, "accept-encoding"@)->0;
    let k = choose|k: int|
        0 <= k < fields(v, ',').len() && head_field(trimmed(#[trigger] fields(v, ',')[k]), ';')
            == "gzip"@;
    let f = fields(v, ',')[k];
    let p = lemma_field_stands(v, ',', k);
    let q = lemma_trimmed_stands(f);
    let t = trimmed(f);
    lemma_find(t, ';');
    assert(t.take(find(t, ';')) == "gzip"@);
    assert(t.take(find(t, ';')).len() == 4);
    assert(v.subrange(p, p + f.len()) == f);
    assert(f.subrange(q, q + t.len()) == t);
    let (a, z) = (v.take(p), v.skip(p + f.len()));
    let pad = f.take(q);
    assert(v =~= a + f + z);
    assert forall|j: int| 0 <= j < pad.len() implies is_space(#[trigger] pad[j]) by {
        assert(is_space(f[j]));
    }
    assert forall|j: int| 0 <= j < 4 implies f[q + j] == "gzip"@[j] by {
        assert(t[j] == t.take(4)[j]);
        assert(f.subrange(q, q + t.len())[j] == t[j]);
    }
    if t.len() > 4 {
        let end = Seq::<char>::empty();
        let b = f.skip(q + 4) + z;
        assert(f[q + 4] == t[4]);
        assert(v =~= a + pad + "gzip"@ + end + b);
    } else {
        let end = f.skip(q + 4);
        assert forall|j: int| 0 <= j < end.len() implies is_space(#[trigger] end[j]) by {
            assert(is_space(f[q + 4 + j]));
        }
        assert(v =~= a + pad + "gzip"@ + end + z);
    }
}

/// The version stands at the end of the first line, and nowhere else.
pub proof fn law_the_first_line_names_the_version(first: Seq<char>, rest: Seq<char>)
    requires
        !first.contains('\n'),
    ensures
        is_http11(first + "HTTP/1.1\r\n"@ + rest),
        is_http11(first + "\r\n"@ + rest) ==> exists|x: Seq<char>| first == #[trigger] (x
            + "HTTP/1.1"@),
{
    reveal_strlit("HTTP/1.1\r\n");
    reveal_strlit("HTTP/1.1");
    reveal_strlit("\r\n");
    let v = "HTTP/1.1"@;
    let line = first + v;
    assert(!line.contains('\n')) by {
        assert forall|i: int| 0 <= i < line.len() implies line[i] != '\n' by {
            if i < first.len() {
                assert(first.contains(first[i]));
                assert(line[i] == first[i]);
            }
        }
    }
    assert(first + "HTTP/1.1\r\n"@ + rest =~= line + "\r\n"@ + rest);
    law_line_feeds_end_lines(line, rest);
    law_line_feeds_end_lines(first, rest);
    let n = line.len() as int;
    assert(line.subrange(n - 8, n) =~= v);
    if is_http11(first + "\r\n"@ + rest) {
        let m = first.len() as int;
        assert(first =~= first.take(m - 8) + v);
    }
}

/// Whether a connection stays open is the client's to say, in any case and at any position of the
/// list: `close` closes it and `keep-alive` without `close` leaves it open. A client that says
/// nothing leaves it open exactly if it speaks HTTP/1.1.
pub proof fn law_the_client_says_whether_to_stay(
    req: Seq<char>,
    a: Seq<char>,
    pad: Seq<char>,
    token: Seq<char>,
    end: Seq<char>,
    b: Seq<char>,
)
    requires
        entry_begins(a),
        blank(pad),
        blank(end),
        entry_ends(b),
    ensures
        header_of(req, "connection"@) is None ==> keeps_alive(req) == is_http11(req),
        header_of(req, "connection"@) == Some(a + (pad + token + end) + b) && lowered(token)
            == "close"@ ==> !keeps_alive(req),
        header_of(req, "connection"@) == Some(a + (pad + token + end) + b) && lowered(token)
            == "keep-alive"@ && !occurs(lowered(a + (pad + token + end) + b), "close"@)
            ==> keeps_alive(req),
{
    reveal_strlit("close");
    reveal_strlit("keep-alive");
    let v = a + (pad + token + end) + b;
    if header_of(req, "connection"@) is None {
        lemma_listed_occurs(connection_of(req), "close"@);
        lemma_listed_occurs(connection_of(req), "keep-alive"@);
    } else if header_of(req, "connection"@) == Some(v) && lowered(token) == "close"@ {
        lemma_lowered_entry(a, pad, token, end, b);
    } else if header_of(req, "connection"@) == Some(v) && lowered(token) == "keep-alive"@ {
        lemma_lowered_entry(a, pad, token, end, b);
        lemma_listed_occurs(lowered(v), "close"@);
    }
}

proof fn lemma_listed_occurs(value: Seq<char>, token: Seq<char>)
    requires
        token.len() > 0,
        snug(token),
        !token.contains(','),
    ensures
        lists(value, token) ==> occurs(value, token),
{
    let none = Seq::<char>::empty();
    law_lists_list_their_entries(none, none, token, none, none, value);
    if lists(value, token) {
        let (w, x, y, z) = choose|w: Seq<char>, x: Seq<char>, y: Seq<char>, z: Seq<char>|
            {
                &&& value == #[trigger] (w + (x + token + y) + z)
                &&& entry_begins(w) && blank(x) && blank(y) && entry_ends(z)
            };
        let i = (w.len() + x.len()) as int;
        assert(value.subrange(i, i + token.len()) =~= token);
    }
}

proof fn lemma_lowered_entry(
    a: Seq<char>,
    pad: Seq<char>,
    token: Seq<char>,
    end: Seq<char>,
    b: Seq<char>,
)
    requires
        entry_begins(a),
        blank(pad),
        lowered(token).len() > 0,
        snug(lowered(token)),
        !lowered(token).contains(','),
        blank(end),
        entry_ends(b),
    ensures
        lists(lowered(a + (pad + token + end) + b), lowered(token)),
{
    let v = a + (pad + token + end) + b;
    let low = lowered(token);
    assert(a.len() > 0 ==> lowered(a).last() == lower_char(a.last()));
    assert(b.len() > 0 ==> lowered(b)[0] == lower_char(b[0]));
    assert forall|i: int| 0 <= i < lowered(pad).len() implies is_space(#[trigger] lowered(pad)[i]) by {
        assert(is_space(pad[i]));
    }
    assert forall|i: int| 0 <= i < lowered(end).len() implies is_space(#[trigger] lowered(end)[i]) by {
        assert(is_space(end[i]));
    }
    assert(lowered(v) =~= lowered(a) + (lowered(pad) + low + lowered(end)) + lowered(b));
    law_lists_list_their_entries(
        lowered(a),
        lowered(pad),
        low,
        lowered(end),
        lowered(b),
        lowered(v),
    );
}

/// What shrinks is text, JSON, JavaScript, manifests, SVG and WebAssembly, whatever parameters
/// follow the type; nothing else is compressed.
pub proof fn law_what_shrinks(ctype: Seq<char>, rest: Seq<char>)
    ensures
        is_compressible("text/"@ + rest),
        is_compressible("application/json"@ + rest),
        is_compressible("application/javascript"@ + rest),
        is_compressible("application/manifest+json"@ + rest),
        is_compressible("image/svg+xml"@ + rest),
        is_compressible("application/wasm"@ + rest),
        is_compressible(ctype) ==> exists|tail: Seq<char>|
            {
                ||| ctype == "text/"@ + tail
                ||| ctype == "application/json"@ + tail
                ||| ctype == "application/javascript"@ + tail
                ||| ctype == "application/manifest+json"@ + tail
                ||| ctype == "image/svg+xml"@ + tail
                ||| ctype == #[trigger] ("application/wasm"@ + tail)
            },
{
    lemma_prefix_joins("text/"@, rest, ctype);
    lemma_prefix_joins("application/json"@, rest, ctype);
    lemma_prefix_joins("application/javascript"@, rest, ctype);
    lemma_prefix_joins("application/manifest+json"@, rest, ctype);
    lemma_prefix_joins("image/svg+xml"@, rest, ctype);
    lemma_prefix_joins("application/wasm"@, rest, ctype);
    if is_compressible(ctype) {
        let p = if "text/"@.is_prefix_of(ctype) {
            "text/"@
        } else if "application/json"@.is_prefix_of(ctype) {
            "application/json"@
        } else if "application/javascript"@.is_prefix_of(ctype) {
            "application/javascript"@
        } else if "application/manifest+json"@.is_prefix_of(ctype) {
            "application/manifest+json"@
        } else if "image/svg+xml"@.is_prefix_of(ctype) {
            "image/svg+xml"@
        } else {
            "application/wasm"@
        };
        let tail = ctype.skip(p.len() as int);
        assert(ctype == p + tail);
        let w = "application/wasm"@ + tail;
    }
}

proof fn lemma_prefix_joins(p: Seq<char>, rest: Seq<char>, s: Seq<char>)
    ensures
        p.is_prefix_of(p + rest),
        p.is_prefix_of(s) ==> s == p + s.skip(p.len() as int),
{
    assert((p + rest).subrange(0, p.len() as int) =~= p);
    if p.is_prefix_of(s) {
        assert(s =~= p + s.skip(p.len() as int));
    }
}

/// The body of a request is all that follows its first blank line.
pub proof fn law_bodies_follow_the_blank_line(head: Seq<char>, body: Seq<char>)
    requires
        !occurs(head + "\r\n\r"@, "\r\n\r\n"@),
    ensures
        body_of(head + "\r\n\r\n"@ + body) == body,
        body_of(head + "\r\n\r"@).len() == 0,
{
    reveal_strlit("\r\n\r\n");
    reveal_strlit("\r\n\r");
    let blank = "\r\n\r\n"@;
    let short = head + "\r\n\r"@;
    let s = head + blank + body;
    let n = head.len() as int;
    assert(s.subrange(n, n + 4) =~= blank);
    assert forall|j: int| 0 <= j < n implies #[trigger] s.subrange(j, j + 4) != blank by {
        assert(s.subrange(j, j + 4) =~= short.subrange(j, j + 4));
    }
    lemma_seek_is(s, blank, n);
    assert(s.skip(n + 4) =~= body);
    lemma_seek_none(short, blank);
}

/// A connection is given up only when sixteen kilobytes have come in without a whole request.
pub proof fn law_requests_may_be_sixteen_kilobytes()
    ensures
        MAX_REQUEST == 16 * 1024,
{
}

/// What a client says of encodings, connections and types is answered as the laws on its text say.
pub proof fn law_clients_are_understood(text: &str, r: bool)
    ensures
        call_ensures(accepts_gzip, (text,), r) ==> r == takes_gzip(text@),
        call_ensures(wants_keepalive, (text,), r) ==> r == keeps_alive(text@),
        call_ensures(compressible, (text,), r) ==> r == is_compressible(text@),
{
}

} // verus!
