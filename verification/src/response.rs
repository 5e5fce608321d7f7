//! Responses: the head of a response, and its framing.
//!
//! Connections are reused, so the declared length of every response is what tells a client where
//! it ends and the next one begins.
use vstd::prelude::*;
use vstd::string::*;
use vstd::utf8::{
    encode_utf8, encode_utf8_decode_utf8, encode_utf8_valid_utf8, is_ascii_chars,
    is_ascii_chars_encode_utf8,
};

use crate::bytes::{extend, utf8_bytes};
use crate::http::{
    blank_line, conn_hdr, connection_lines, declared_length, header_in, is_compressible, lemma_seek,
    lemma_seek_is, message_len, seek, vary, vary_line,
};
use crate::number::{decimal, decimal_text, law_decimal_reads_back, lemma_decimal_plain};
use crate::text::{
    chomp, cut, is_space, lemma_append, lemma_find, lemma_find_is, lemma_lines_join,
    lemma_spaces_is, line_seq, lowered, same, trimmed,
};

verus! {

/// The first lines of a response: status, content type and length.
pub open spec fn opening(status: Seq<char>, ctype: Seq<char>, len: nat) -> Seq<char> {
    "HTTP/1.1 "@ + status + "\r\nContent-Type: "@ + ctype + "\r\nContent-Length: "@ + decimal(len)
        + "\r\n"@
}

/// Where every redirect of the hub points: the page that greets a device.
pub open spec fn location_line(status: Seq<char>) -> Seq<char> {
    if status == "302 Found"@ {
        "Location: http://10.42.0.1/welcome\r\n"@
    } else {
        ""@
    }
}

/// Only the fleet may be read from other origins.
pub open spec fn cors_line(path: Seq<char>) -> Seq<char> {
    if path == "/fleet"@ {
        "Access-Control-Allow-Origin: *\r\n"@
    } else {
        ""@
    }
}

/// Answers to probes must not be remembered.
pub open spec fn cache_line(no_store: bool) -> Seq<char> {
    if no_store {
        "Cache-Control: no-store\r\n"@
    } else {
        ""@
    }
}

pub open spec fn encoding_line(gzipped: bool) -> Seq<char> {
    if gzipped {
        "Content-Encoding: gzip\r\n"@
    } else {
        ""@
    }
}

/// The head of a response, with the blank line that ends it.
pub open spec fn head_text(
    status: Seq<char>,
    ctype: Seq<char>,
    path: Seq<char>,
    no_store: bool,
    len: nat,
    gzipped: bool,
    keep: bool,
) -> Seq<char> {
    opening(status, ctype, len) + location_line(status) + cors_line(path)
        + "X-Frame-Options: SAMEORIGIN\r\n"@ + cache_line(no_store) + vary_line(ctype)
        + encoding_line(gzipped) + connection_lines(keep) + "\r\n"@
}

/// The first lines of a response, to which the others are appended.
pub(crate) fn open_head(status: &str, ctype: &str, len: usize) -> (s: String)
    ensures
        s@ == opening(status@, ctype@, len as nat),
{
    let mut s = "HTTP/1.1 ".to_owned();
    s.append(status);
    s.append("\r\nContent-Type: ");
    s.append(ctype);
    s.append("\r\nContent-Length: ");
    s.append(decimal_text(len as u64).as_str());
    s.append("\r\n");
    s
}

/// A whole response.
pub fn respond(
    status: &str,
    ctype: &str,
    path: &str,
    no_store: bool,
    body: &[u8],
    gzipped: bool,
    keep: bool,
) -> (r: Vec<u8>)
    ensures
        r@ == encode_utf8(
            head_text(status@, ctype@, path@, no_store, body@.len(), gzipped, keep),
        ) + body@,
{
    let mut s = open_head(status, ctype, body.len());
    if same(status, "302 Found") {
        s.append("Location: http://10.42.0.1/welcome\r\n");
    } else {
        s.append("");
    }
    if same(path, "/fleet") {
        s.append("Access-Control-Allow-Origin: *\r\n");
    } else {
        s.append("");
    }
    s.append("X-Frame-Options: SAMEORIGIN\r\n");
    if no_store {
        s.append("Cache-Control: no-store\r\n");
    } else {
        s.append("");
    }
    s.append(vary(ctype));
    if gzipped {
        s.append("Content-Encoding: gzip\r\n");
    } else {
        s.append("");
    }
    s.append(conn_hdr(keep));
    s.append("\r\n");
    let mut r = utf8_bytes(s.as_str());
    extend(&mut r, body);
    r
}

// ---- Laws ----

/// Text of whole lines, each with something on it: line feeds are at least three apart, none
/// stands among the first two characters, and the last two characters are `\r\n`.
#[verifier::opaque]
pub open spec fn whole_lines(s: Seq<char>) -> bool {
    &&& s.len() >= 3
    &&& s[s.len() - 2] == '\r'
    &&& s[s.len() - 1] == '\n'
    &&& s[0] != '\n'
    &&& s[1] != '\n'
    &&& forall|i: int, j: int|
        0 <= i < j < s.len() && #[trigger] s[i] == '\n' && #[trigger] s[j] == '\n' ==> j - i >= 3
}

pub proof fn lemma_whole_lines_join(a: Seq<char>, b: Seq<char>)
    requires
        whole_lines(a),
        whole_lines(b) || b.len() == 0,
    ensures
        whole_lines(a + b),
{
    reveal(whole_lines);
    if b.len() == 0 {
        assert(a + b =~= a);
    } else {
        let s = a + b;
        assert forall|i: int, j: int|
            0 <= i < j < s.len() && #[trigger] s[i] == '\n' && #[trigger] s[j] == '\n' implies j - i
            >= 3 by {
            if j < a.len() {
                assert(a[i] == '\n' && a[j] == '\n');
            } else if i >= a.len() {
                assert(b[i - a.len()] == '\n' && b[j - a.len()] == '\n');
            } else {
                assert(b[j - a.len()] == '\n');
            }
        }
    }
}

/// The blank line after whole lines is the first blank line.
pub proof fn lemma_blank_line_is_last(s: Seq<char>)
    requires
        whole_lines(s),
    ensures
        seek(s + "\r\n"@, "\r\n\r\n"@) == Some(s.len() - 2),
{
    reveal(whole_lines);
    reveal_strlit("\r\n");
    reveal_strlit("\r\n\r\n");
    let t = s + "\r\n"@;
    let b = "\r\n\r\n"@;
    let at = s.len() - 2;
    assert(t.subrange(at, at + 4) =~= b);
    lemma_seek(t, b);
    match seek(t, b) {
        Some(i) => {
            if i < at {
                assert(t.subrange(i, i + 4)[1] == b[1]);
                assert(t.subrange(i, i + 4)[3] == b[3]);
                assert(s[i + 1] == '\n');
                assert(t[i + 3] == '\n');
                if i + 3 < s.len() {
                    assert(s[i + 3] == '\n');
                }
            }
            if i > at {
                assert(t.subrange(at, at + b.len()) == b);
            }
        },
        None => {
            assert(t.subrange(at, at + b.len()) == b);
        },
    }
}

/// A line without line feeds, then the rest of a text, is that line and the lines of the rest.
pub proof fn lemma_first_line(line: Seq<char>, rest: Seq<char>)
    requires
        !line.contains('\n'),
        !line.contains('\r'),
    ensures
        line_seq(line + "\r\n"@ + rest) == seq![line] + line_seq(rest),
{
    reveal_strlit("\r\n");
    let s = line + "\r\n"@ + rest;
    let n = line.len() as int;
    assert forall|j: int| 0 <= j < n + 1 implies s[j] != '\n' by {
        if j < n {
            assert(line.contains(line[j]));
        }
    }
    lemma_find_is(s, '\n', n + 1);
    assert(chomp(s.take(n + 1)) =~= line);
    assert(s.skip(n + 2) =~= rest);
}

/// A status or a content type that fits on its line.
pub open spec fn one_line(s: Seq<char>) -> bool {
    !s.contains('\n') && !s.contains('\r')
}

/// A head declares the length that it was made for.
pub proof fn law_heads_declare_their_length(
    status: Seq<char>,
    ctype: Seq<char>,
    len: nat,
    rest: Seq<char>,
)
    requires
        one_line(status),
        !status.contains(':'),
        one_line(ctype),
        len <= usize::MAX,
    ensures
        declared_length(opening(status, ctype, len) + rest) == len,
{
    reveal_strlit("HTTP/1.1 ");
    reveal_strlit("\r\nContent-Type: ");
    reveal_strlit("\r\nContent-Length: ");
    reveal_strlit("\r\n");
    reveal_strlit("content-length");
    reveal_strlit("Content-Type: ");
    reveal_strlit("Content-Length: ");
    lemma_decimal_plain(len);
    let d = decimal(len);
    let l1 = "HTTP/1.1 "@ + status;
    let l2 = "Content-Type: "@ + ctype;
    let l3 = "Content-Length: "@ + d;
    let all = opening(status, ctype, len) + rest;
    let t3 = l3 + "\r\n"@ + rest;
    let t2 = l2 + "\r\n"@ + t3;
    assert("\r\nContent-Type: "@ =~= "\r\n"@ + "Content-Type: "@);
    assert("\r\nContent-Length: "@ =~= "\r\n"@ + "Content-Length: "@);
    assert(all =~= l1 + "\r\n"@ + t2);
    assert forall|i: int| 0 <= i < l1.len() implies l1[i] != '\n' && l1[i] != '\r' && l1[i] != ':' by {
        if i >= 9 {
            assert(status.contains(status[i - 9]));
        }
    }
    assert forall|i: int| 0 <= i < l2.len() implies l2[i] != '\n' && l2[i] != '\r' by {
        if i >= 14 {
            assert(ctype.contains(ctype[i - 14]));
        }
    }
    assert forall|i: int| 0 <= i < l3.len() implies l3[i] != '\n' && l3[i] != '\r' by {
        if i >= 16 {
            assert(l3[i] == d[i - 16]);
        }
    }
    lemma_first_line(l1, t2);
    lemma_first_line(l2, t3);
    lemma_first_line(l3, rest);
    let ls = line_seq(all);
    let name = "content-length"@;
    lemma_find(l1, ':');
    assert(cut(l1, ':') is None);
    assert(ls[0] == l1);
    assert(ls.skip(1) =~= line_seq(t2));
    lemma_find_is(l2, ':', 12);
    let k2 = l2.take(12);
    assert(lowered(k2).len() != lowered(name).len());
    assert(ls.skip(1)[0] == l2);
    assert(line_seq(t2).skip(1) =~= line_seq(t3));
    assert(l3[14] == ':');
    assert forall|j: int| 0 <= j < 14 implies l3[j] != ':' by {}
    lemma_find_is(l3, ':', 14);
    let k3 = l3.take(14);
    assert(lowered(k3) =~= lowered(name)) by {
        assert forall|j: int| 0 <= j < 14 implies lowered(k3)[j] == lowered(name)[j] by {
            assert(k3[j] == "Content-Length: "@[j]);
        }
    }
    let v = l3.skip(15);
    assert(v =~= seq![' '] + d);
    assert(line_seq(t3)[0] == l3);
    assert(header_in(line_seq(t3), name) == Some(v));
    assert(cut(l2, ':') == Some((k2, l2.skip(13))));
    assert(header_in(line_seq(t2), name) == header_in(line_seq(t3), name));
    assert(header_in(ls, name) == header_in(line_seq(t2), name));
    assert(!is_space(d[0]));
    assert(v[1] == d[0]);
    lemma_spaces_is(v, 1);
    assert(v.skip(1) =~= d);
    assert(!is_space(d.last())) by {
        assert('0' <= d[d.len() - 1] <= '9');
    }
    assert(trimmed(v) == d);
    law_decimal_reads_back(len);
}

pub proof fn lemma_opening_is_whole(status: Seq<char>, ctype: Seq<char>, len: nat)
    requires
        one_line(status),
        one_line(ctype),
    ensures
        whole_lines(opening(status, ctype, len)),
{
    reveal(whole_lines);
    reveal_strlit("HTTP/1.1 ");
    reveal_strlit("\r\nContent-Type: ");
    reveal_strlit("\r\nContent-Length: ");
    reveal_strlit("\r\n");
    lemma_decimal_plain(len);
    let d = decimal(len);
    let a = "HTTP/1.1 "@ + status;
    let b = "\r\nContent-Type: "@ + ctype;
    let c = "\r\nContent-Length: "@ + d;
    let s = opening(status, ctype, len);
    assert(s =~= a + b + c + "\r\n"@);
    let x = a.len() as int;
    let y = x + b.len();
    let z = y + c.len();
    assert forall|i: int| 0 <= i < s.len() && #[trigger] s[i] == '\n' implies i == x + 1 || i == y
        + 1 || i == z + 1 by {
        if i < x {
            assert(s[i] == a[i]);
            if i >= 9 {
                assert(status.contains(status[i - 9]));
            }
        } else if i < y {
            assert(s[i] == b[i - x]);
            if i - x >= 16 {
                assert(ctype.contains(ctype[i - x - 16]));
            }
        } else if i < z {
            assert(s[i] == c[i - y]);
            if i - y >= 18 {
                assert(c[i - y] == d[i - y - 18]);
            }
        }
    }
}

pub proof fn lemma_location_is_whole(status: Seq<char>)
    ensures
        whole_lines(location_line(status)) || location_line(status).len() == 0,
{
    reveal(whole_lines);
    reveal_strlit("");
    reveal_strlit("Location: http://10.42.0.1/welcome\r\n");
}

pub proof fn lemma_cors_is_whole(path: Seq<char>)
    ensures
        whole_lines(cors_line(path)) || cors_line(path).len() == 0,
{
    reveal(whole_lines);
    reveal_strlit("");
    reveal_strlit("Access-Control-Allow-Origin: *\r\n");
}

pub proof fn lemma_frame_is_whole()
    ensures
        whole_lines("X-Frame-Options: SAMEORIGIN\r\n"@) || "X-Frame-Options: SAMEORIGIN\r\n"@.len() == 0,
{
    reveal(whole_lines);
    reveal_strlit("X-Frame-Options: SAMEORIGIN\r\n");
}

pub proof fn lemma_cache_is_whole(no_store: bool)
    ensures
        whole_lines(cache_line(no_store)) || cache_line(no_store).len() == 0,
{
    reveal(whole_lines);
    reveal_strlit("");
    reveal_strlit("Cache-Control: no-store\r\n");
}

pub proof fn lemma_vary_is_whole(ctype: Seq<char>)
    ensures
        whole_lines(vary_line(ctype)) || vary_line(ctype).len() == 0,
{
    reveal(whole_lines);
    reveal_strlit("");
    reveal_strlit("Vary: Accept-Encoding\r\n");
}

pub proof fn lemma_encoding_is_whole(gzipped: bool)
    ensures
        whole_lines(encoding_line(gzipped)) || encoding_line(gzipped).len() == 0,
{
    reveal(whole_lines);
    reveal_strlit("");
    reveal_strlit("Content-Encoding: gzip\r\n");
}

pub proof fn lemma_connection_is_whole(keep: bool)
    ensures
        whole_lines(connection_lines(keep)) || connection_lines(keep).len() == 0,
{
    reveal(whole_lines);
    reveal_strlit("Connection: keep-alive\r\nKeep-Alive: timeout=15\r\n");
    reveal_strlit("Connection: close\r\n");
}

/// Every response is framed: its head ends at its first blank line, and declares exactly the
/// length of the body that follows.
pub proof fn law_responses_are_framed(
    status: Seq<char>,
    ctype: Seq<char>,
    path: Seq<char>,
    no_store: bool,
    len: nat,
    gzipped: bool,
    keep: bool,
)
    requires
        one_line(status),
        !status.contains(':'),
        one_line(ctype),
        len <= usize::MAX,
    ensures
        ({
            let head = head_text(status, ctype, path, no_store, len, gzipped, keep);
            &&& seek(head, "\r\n\r\n"@) == Some(head.len() - 4)
            &&& declared_length(head) == len
        }),
{
    let a = opening(status, ctype, len);
    let b = location_line(status);
    let c = cors_line(path);
    let d = "X-Frame-Options: SAMEORIGIN\r\n"@;
    let e = cache_line(no_store);
    let f = vary_line(ctype);
    let g = encoding_line(gzipped);
    let h = connection_lines(keep);
    lemma_location_is_whole(status);
    lemma_cors_is_whole(path);
    lemma_frame_is_whole();
    lemma_cache_is_whole(no_store);
    lemma_vary_is_whole(ctype);
    lemma_encoding_is_whole(gzipped);
    lemma_connection_is_whole(keep);
    lemma_opening_is_whole(status, ctype, len);
    lemma_whole_lines_join(a, b);
    lemma_whole_lines_join(a + b, c);
    lemma_whole_lines_join(a + b + c, d);
    lemma_whole_lines_join(a + b + c + d, e);
    lemma_whole_lines_join(a + b + c + d + e, f);
    lemma_whole_lines_join(a + b + c + d + e + f, g);
    lemma_whole_lines_join(a + b + c + d + e + f + g, h);
    let s = a + b + c + d + e + f + g + h;
    lemma_blank_line_is_last(s);
    let rest = b + c + d + e + f + g + h + "\r\n"@;
    let head = head_text(status, ctype, path, no_store, len, gzipped, keep);
    lemma_append(a, b, c);
    lemma_append(a, b + c, d);
    lemma_append(a, b + c + d, e);
    lemma_append(a, b + c + d + e, f);
    lemma_append(a, b + c + d + e + f, g);
    lemma_append(a, b + c + d + e + f + g, h);
    lemma_append(a, b + c + d + e + f + g + h, "\r\n"@);
    assert(head == a + rest);
    reveal_strlit("\r\n");
    law_heads_declare_their_length(status, ctype, len, rest);
}

/// A head that is framed, as bytes, with its body behind it, is a whole message.
pub proof fn lemma_message_is_whole(head: Seq<char>, body: Seq<u8>)
    requires
        is_ascii_chars(head),
        seek(head, "\r\n\r\n"@) == Some(head.len() - 4),
        declared_length(head) == body.len(),
    ensures
        message_len(encode_utf8(head) + body) == Some((encode_utf8(head) + body).len() as int),
{
    reveal_strlit("\r\n\r\n");
    let bytes = encode_utf8(head);
    let all = bytes + body;
    let b = blank_line();
    let at = head.len() - 4;
    is_ascii_chars_encode_utf8(head);
    lemma_seek(head, "\r\n\r\n"@);
    assert(head.subrange(at, at + 4) == "\r\n\r\n"@);
    assert forall|k: int| 0 <= k < 4 implies all[at + k] == b[k] by {
        assert(head.subrange(at, at + 4)[k] == head[at + k]);
        assert(bytes[at + k] == head[at + k] as u8);
    }
    assert(all.subrange(at, at + b.len()) =~= b);
    assert forall|j: int| 0 <= j < at implies #[trigger] all.subrange(j, j + b.len()) != b by {
        assert(head.subrange(j, j + "\r\n\r\n"@.len()) != "\r\n\r\n"@);
        if all.subrange(j, j + b.len()) == b {
            assert forall|k: int| 0 <= k < 4 implies head[j + k] == "\r\n\r\n"@[k] by {
                assert(all.subrange(j, j + b.len())[k] == all[j + k]);
                assert(bytes[j + k] == head[j + k] as u8);
                assert('\0' <= head[j + k] <= '\u{7f}');
            }
            assert(head.subrange(j, j + "\r\n\r\n"@.len()) =~= "\r\n\r\n"@);
        }
    }
    lemma_seek_is(all, b, at);
    assert(all.take(at + 4) =~= bytes);
    encode_utf8_valid_utf8(head);
    encode_utf8_decode_utf8(head);
}

pub proof fn lemma_ascii_join(a: Seq<char>, b: Seq<char>)
    requires
        is_ascii_chars(a),
        is_ascii_chars(b),
    ensures
        is_ascii_chars(a + b),
{
}

pub proof fn lemma_lines_are_ascii(ctype: Seq<char>, gzipped: bool, keep: bool)
    ensures
        is_ascii_chars(vary_line(ctype)),
        is_ascii_chars(encoding_line(gzipped)),
        is_ascii_chars(connection_lines(keep)),
        is_ascii_chars("\r\n"@),
{
    reveal_strlit("");
    reveal_strlit("Vary: Accept-Encoding\r\n");
    reveal_strlit("Content-Encoding: gzip\r\n");
    reveal_strlit("Connection: keep-alive\r\nKeep-Alive: timeout=15\r\n");
    reveal_strlit("Connection: close\r\n");
    reveal_strlit("\r\n");
}

pub proof fn lemma_opening_is_ascii(status: Seq<char>, ctype: Seq<char>, len: nat)
    requires
        is_ascii_chars(status),
        is_ascii_chars(ctype),
    ensures
        is_ascii_chars(opening(status, ctype, len)),
{
    reveal_strlit("HTTP/1.1 ");
    reveal_strlit("\r\nContent-Type: ");
    reveal_strlit("\r\nContent-Length: ");
    reveal_strlit("\r\n");
    lemma_decimal_plain(len);
    let d = decimal(len);
    assert(is_ascii_chars(d));
}

/// Reading responses as requests are read gives back each response: whatever its body holds, the
/// first message is the whole response, and no more.
pub proof fn law_responses_are_taken_whole(
    status: Seq<char>,
    ctype: Seq<char>,
    path: Seq<char>,
    no_store: bool,
    body: Seq<u8>,
    gzipped: bool,
    keep: bool,
)
    requires
        is_ascii_chars(status),
        one_line(status),
        !status.contains(':'),
        is_ascii_chars(ctype),
        one_line(ctype),
        body.len() <= usize::MAX,
    ensures
        ({
            let head = head_text(status, ctype, path, no_store, body.len(), gzipped, keep);
            message_len(encode_utf8(head) + body) == Some((encode_utf8(head) + body).len() as int)
        }),
{
    let len = body.len();
    let a = opening(status, ctype, len);
    let b = location_line(status);
    let c = cors_line(path);
    let d = "X-Frame-Options: SAMEORIGIN\r\n"@;
    let e = cache_line(no_store);
    let f = vary_line(ctype);
    let g = encoding_line(gzipped);
    let h = connection_lines(keep);
    lemma_opening_is_ascii(status, ctype, len);
    lemma_lines_are_ascii(ctype, gzipped, keep);
    assert(is_ascii_chars(b) && is_ascii_chars(c) && is_ascii_chars(d) && is_ascii_chars(e)) by {
        reveal_strlit("");
        reveal_strlit("Location: http://10.42.0.1/welcome\r\n");
        reveal_strlit("Access-Control-Allow-Origin: *\r\n");
        reveal_strlit("X-Frame-Options: SAMEORIGIN\r\n");
        reveal_strlit("Cache-Control: no-store\r\n");
    }
    lemma_ascii_join(a, b);
    lemma_ascii_join(a + b, c);
    lemma_ascii_join(a + b + c, d);
    lemma_ascii_join(a + b + c + d, e);
    lemma_ascii_join(a + b + c + d + e, f);
    lemma_ascii_join(a + b + c + d + e + f, g);
    lemma_ascii_join(a + b + c + d + e + f + g, h);
    lemma_ascii_join(a + b + c + d + e + f + g + h, "\r\n"@);
    law_responses_are_framed(status, ctype, path, no_store, len, gzipped, keep);
    lemma_message_is_whole(
        head_text(status, ctype, path, no_store, len, gzipped, keep),
        body,
    );
}

/// Does the text have this line?
pub open spec fn has_line(text: Seq<char>, line: Seq<char>) -> bool {
    line_seq(text).contains(line)
}

pub proof fn lemma_line_in_both(a: Seq<char>, b: Seq<char>, x: Seq<char>)
    requires
        a.len() > 0 ==> a.last() == '\n',
    ensures
        has_line(a + b, x) == (has_line(a, x) || has_line(b, x)),
{
    lemma_lines_join(a, b);
    let (p, q) = (line_seq(a), line_seq(b));
    if p.contains(x) {
        assert((p + q)[p.index_of(x)] == x);
    }
    if q.contains(x) {
        assert((p + q)[p.len() + q.index_of(x)] == x);
    }
    if (p + q).contains(x) {
        let k = (p + q).index_of(x);
        if k < p.len() {
            assert(p[k] == x);
        } else {
            assert(q[k - p.len()] == x);
        }
    }
}

pub proof fn lemma_line_alone(line: Seq<char>, x: Seq<char>)
    requires
        one_line(line),
    ensures
        has_line(line + "\r\n"@, x) == (x == line),
{
    let none = Seq::<char>::empty();
    lemma_first_line(line, none);
    assert(line + "\r\n"@ + none =~= line + "\r\n"@);
    assert(line_seq(none) =~= Seq::<Seq<char>>::empty());
    assert(line_seq(line + "\r\n"@) =~= seq![line]);
    assert(seq![line][0] == line);
}

proof fn lemma_no_line(x: Seq<char>)
    ensures
        !has_line(""@, x),
{
    reveal_strlit("");
    assert(""@ =~= Seq::<char>::empty());
}

pub proof fn lemma_opening_lines(status: Seq<char>, ctype: Seq<char>, len: nat, x: Seq<char>)
    requires
        one_line(status),
        one_line(ctype),
    ensures
        has_line(opening(status, ctype, len), x) == (x == "HTTP/1.1 "@ + status || x
            == "Content-Type: "@ + ctype || x == "Content-Length: "@ + decimal(len)),
        opening(status, ctype, len).last() == '\n',
{
    reveal_strlit("HTTP/1.1 ");
    reveal_strlit("Content-Type: ");
    reveal_strlit("Content-Length: ");
    reveal_strlit("\r\nContent-Type: ");
    reveal_strlit("\r\nContent-Length: ");
    reveal_strlit("\r\n");
    lemma_decimal_plain(len);
    let d = decimal(len);
    let l1 = "HTTP/1.1 "@ + status;
    let l2 = "Content-Type: "@ + ctype;
    let l3 = "Content-Length: "@ + d;
    let e = "\r\n"@;
    assert(one_line(l1)) by {
        assert forall|i: int| 0 <= i < l1.len() implies l1[i] != '\n' && l1[i] != '\r' by {
            if i >= 9 {
                assert(status.contains(status[i - 9]));
            }
        }
    }
    assert(one_line(l2)) by {
        assert forall|i: int| 0 <= i < l2.len() implies l2[i] != '\n' && l2[i] != '\r' by {
            if i >= 14 {
                assert(ctype.contains(ctype[i - 14]));
            }
        }
    }
    assert(one_line(l3)) by {
        assert forall|i: int| 0 <= i < l3.len() implies l3[i] != '\n' && l3[i] != '\r' by {
            if i >= 16 {
                assert(l3[i] == d[i - 16]);
            }
        }
    }
    lemma_line_alone(l1, x);
    lemma_line_alone(l2, x);
    lemma_line_alone(l3, x);
    lemma_line_in_both(l1 + e, l2 + e, x);
    lemma_line_in_both((l1 + e) + (l2 + e), l3 + e, x);
    assert(opening(status, ctype, len) =~= (l1 + e) + (l2 + e) + (l3 + e));
}

/// A piece that is one line, or nothing.
proof fn lemma_optional_line(piece: Seq<char>, line: Seq<char>, there: bool, x: Seq<char>)
    requires
        one_line(line),
        there ==> piece == line + "\r\n"@,
        !there ==> piece == ""@,
    ensures
        has_line(piece, x) == (there && x == line),
        piece.len() > 0 ==> piece.last() == '\n',
{
    reveal_strlit("\r\n");
    lemma_line_alone(line, x);
    lemma_no_line(x);
    reveal_strlit("");
}

pub proof fn lemma_pieces(
    status: Seq<char>,
    ctype: Seq<char>,
    path: Seq<char>,
    no_store: bool,
    gzipped: bool,
    x: Seq<char>,
)
    ensures
        has_line(location_line(status), x) == (status == "302 Found"@ && x
            == "Location: http://10.42.0.1/welcome"@),
        has_line(cors_line(path), x) == (path == "/fleet"@ && x
            == "Access-Control-Allow-Origin: *"@),
        has_line("X-Frame-Options: SAMEORIGIN\r\n"@, x) == (x == "X-Frame-Options: SAMEORIGIN"@),
        has_line(cache_line(no_store), x) == (no_store && x == "Cache-Control: no-store"@),
        has_line(vary_line(ctype), x) == (is_compressible(ctype) && x == "Vary: Accept-Encoding"@),
        has_line(encoding_line(gzipped), x) == (gzipped && x == "Content-Encoding: gzip"@),
{
    reveal_strlit("\r\n");
    reveal_strlit("Location: http://10.42.0.1/welcome\r\n");
    reveal_strlit("Location: http://10.42.0.1/welcome");
    reveal_strlit("Access-Control-Allow-Origin: *\r\n");
    reveal_strlit("Access-Control-Allow-Origin: *");
    reveal_strlit("X-Frame-Options: SAMEORIGIN\r\n");
    reveal_strlit("X-Frame-Options: SAMEORIGIN");
    reveal_strlit("Cache-Control: no-store\r\n");
    reveal_strlit("Cache-Control: no-store");
    reveal_strlit("Vary: Accept-Encoding\r\n");
    reveal_strlit("Vary: Accept-Encoding");
    reveal_strlit("Content-Encoding: gzip\r\n");
    reveal_strlit("Content-Encoding: gzip");
    assert("Location: http://10.42.0.1/welcome\r\n"@ =~= "Location: http://10.42.0.1/welcome"@
        + "\r\n"@);
    assert("Access-Control-Allow-Origin: *\r\n"@ =~= "Access-Control-Allow-Origin: *"@ + "\r\n"@);
    assert("X-Frame-Options: SAMEORIGIN\r\n"@ =~= "X-Frame-Options: SAMEORIGIN"@ + "\r\n"@);
    assert("Cache-Control: no-store\r\n"@ =~= "Cache-Control: no-store"@ + "\r\n"@);
    assert("Vary: Accept-Encoding\r\n"@ =~= "Vary: Accept-Encoding"@ + "\r\n"@);
    assert("Content-Encoding: gzip\r\n"@ =~= "Content-Encoding: gzip"@ + "\r\n"@);
    lemma_optional_line(
        location_line(status),
        "Location: http://10.42.0.1/welcome"@,
        status == "302 Found"@,
        x,
    );
    lemma_optional_line(
        cors_line(path),
        "Access-Control-Allow-Origin: *"@,
        path == "/fleet"@,
        x,
    );
    lemma_optional_line(
        "X-Frame-Options: SAMEORIGIN\r\n"@,
        "X-Frame-Options: SAMEORIGIN"@,
        true,
        x,
    );
    lemma_optional_line(cache_line(no_store), "Cache-Control: no-store"@, no_store, x);
    lemma_optional_line(vary_line(ctype), "Vary: Accept-Encoding"@, is_compressible(ctype), x);
    lemma_optional_line(encoding_line(gzipped), "Content-Encoding: gzip"@, gzipped, x);
}

pub proof fn lemma_connection_pieces(keep: bool, x: Seq<char>)
    ensures
        has_line(connection_lines(keep), x) == (if keep {
            x == "Connection: keep-alive"@ || x == "Keep-Alive: timeout=15"@
        } else {
            x == "Connection: close"@
        }),
        has_line("\r\n"@, x) ==> x.len() == 0,
{
    reveal_strlit("\r\n");
    reveal_strlit("Connection: keep-alive\r\nKeep-Alive: timeout=15\r\n");
    reveal_strlit("Connection: keep-alive");
    reveal_strlit("Keep-Alive: timeout=15");
    reveal_strlit("Connection: close\r\n");
    reveal_strlit("Connection: close");
    let a = "Connection: keep-alive"@ + "\r\n"@;
    let b = "Keep-Alive: timeout=15"@ + "\r\n"@;
    assert("Connection: keep-alive\r\nKeep-Alive: timeout=15\r\n"@ =~= a + b);
    assert("Connection: close\r\n"@ =~= "Connection: close"@ + "\r\n"@);
    lemma_line_alone("Connection: keep-alive"@, x);
    lemma_line_alone("Keep-Alive: timeout=15"@, x);
    lemma_line_alone("Connection: close"@, x);
    lemma_line_in_both(a, b, x);
    let none = Seq::<char>::empty();
    lemma_line_alone(none, x);
    assert(none + "\r\n"@ =~= "\r\n"@);
}

/// The lines of a head, each with when it is there.
proof fn lemma_head_has(
    status: Seq<char>,
    ctype: Seq<char>,
    path: Seq<char>,
    no_store: bool,
    len: nat,
    gzipped: bool,
    keep: bool,
    x: Seq<char>,
)
    requires
        one_line(status),
        one_line(ctype),
    ensures
        has_line(head_text(status, ctype, path, no_store, len, gzipped, keep), x) == {
            ||| has_line(opening(status, ctype, len), x)
            ||| has_line(location_line(status), x)
            ||| has_line(cors_line(path), x)
            ||| has_line("X-Frame-Options: SAMEORIGIN\r\n"@, x)
            ||| has_line(cache_line(no_store), x)
            ||| has_line(vary_line(ctype), x)
            ||| has_line(encoding_line(gzipped), x)
            ||| has_line(connection_lines(keep), x)
            ||| has_line("\r\n"@, x)
        },
{
    let a = opening(status, ctype, len);
    let b = location_line(status);
    let c = cors_line(path);
    let d = "X-Frame-Options: SAMEORIGIN\r\n"@;
    let e = cache_line(no_store);
    let f = vary_line(ctype);
    let g = encoding_line(gzipped);
    let h = connection_lines(keep);
    lemma_opening_lines(status, ctype, len, x);
    lemma_location_is_whole(status);
    lemma_cors_is_whole(path);
    lemma_frame_is_whole();
    lemma_cache_is_whole(no_store);
    lemma_vary_is_whole(ctype);
    lemma_encoding_is_whole(gzipped);
    lemma_connection_is_whole(keep);
    lemma_ends_join(a, b);
    lemma_ends_join(a + b, c);
    lemma_ends_join(a + b + c, d);
    lemma_ends_join(a + b + c + d, e);
    lemma_ends_join(a + b + c + d + e, f);
    lemma_ends_join(a + b + c + d + e + f, g);
    lemma_ends_join(a + b + c + d + e + f + g, h);
    lemma_line_in_both(a, b, x);
    lemma_line_in_both(a + b, c, x);
    lemma_line_in_both(a + b + c, d, x);
    lemma_line_in_both(a + b + c + d, e, x);
    lemma_line_in_both(a + b + c + d + e, f, x);
    lemma_line_in_both(a + b + c + d + e + f, g, x);
    lemma_line_in_both(a + b + c + d + e + f + g, h, x);
    lemma_line_in_both(a + b + c + d + e + f + g + h, "\r\n"@, x);
}

pub proof fn lemma_ends_join(a: Seq<char>, b: Seq<char>)
    requires
        a.len() > 0,
        a.last() == '\n',
        whole_lines(b) || b.len() == 0,
    ensures
        (a + b).len() > 0,
        (a + b).last() == '\n',
{
    reveal(whole_lines);
    if b.len() == 0 {
        assert(a + b =~= a);
    }
}

/// The lines of a head: it always names the length and forbids foreign frames; it is open to other
/// origins exactly for the fleet, says that the body is gzip exactly if it was made for one, points
/// to the greeting exactly if it redirects, and forbids remembering exactly where that was asked.
pub proof fn law_heads_say_what_they_should(
    status: Seq<char>,
    ctype: Seq<char>,
    path: Seq<char>,
    no_store: bool,
    len: nat,
    gzipped: bool,
    keep: bool,
)
    requires
        one_line(status),
        one_line(ctype),
    ensures
        ({
            let head = head_text(status, ctype, path, no_store, len, gzipped, keep);
            &&& has_line(head, "HTTP/1.1 "@ + status)
            &&& has_line(head, "Content-Type: "@ + ctype)
            &&& has_line(head, "Content-Length: "@ + decimal(len))
            &&& has_line(head, "X-Frame-Options: SAMEORIGIN"@)
            &&& has_line(head, "Access-Control-Allow-Origin: *"@) == (path == "/fleet"@)
            &&& has_line(head, "Content-Encoding: gzip"@) == gzipped
            &&& has_line(head, "Location: http://10.42.0.1/welcome"@) == (status == "302 Found"@)
            &&& has_line(head, "Cache-Control: no-store"@) == no_store
        }),
{
    let frame = "X-Frame-Options: SAMEORIGIN"@;
    let cors = "Access-Control-Allow-Origin: *"@;
    let enc = "Content-Encoding: gzip"@;
    let loc = "Location: http://10.42.0.1/welcome"@;
    let store = "Cache-Control: no-store"@;
    let l1 = "HTTP/1.1 "@ + status;
    let l2 = "Content-Type: "@ + ctype;
    let l3 = "Content-Length: "@ + decimal(len);
    lemma_said(status, ctype, path, no_store, len, gzipped, keep, l1);
    lemma_said(status, ctype, path, no_store, len, gzipped, keep, l2);
    lemma_said(status, ctype, path, no_store, len, gzipped, keep, l3);
    lemma_said(status, ctype, path, no_store, len, gzipped, keep, frame);
    lemma_said(status, ctype, path, no_store, len, gzipped, keep, cors);
    lemma_said(status, ctype, path, no_store, len, gzipped, keep, enc);
    lemma_said(status, ctype, path, no_store, len, gzipped, keep, loc);
    lemma_said(status, ctype, path, no_store, len, gzipped, keep, store);
    lemma_lines_differ(status, ctype, len);
}

proof fn lemma_said(
    status: Seq<char>,
    ctype: Seq<char>,
    path: Seq<char>,
    no_store: bool,
    len: nat,
    gzipped: bool,
    keep: bool,
    x: Seq<char>,
)
    requires
        one_line(status),
        one_line(ctype),
    ensures
        ({
            let head = head_text(status, ctype, path, no_store, len, gzipped, keep);
            let known = {
                ||| x == "HTTP/1.1 "@ + status
                ||| x == "Content-Type: "@ + ctype
                ||| x == "Content-Length: "@ + decimal(len)
                ||| status == "302 Found"@ && x == "Location: http://10.42.0.1/welcome"@
                ||| path == "/fleet"@ && x == "Access-Control-Allow-Origin: *"@
                ||| x == "X-Frame-Options: SAMEORIGIN"@
                ||| no_store && x == "Cache-Control: no-store"@
                ||| is_compressible(ctype) && x == "Vary: Accept-Encoding"@
                ||| gzipped && x == "Content-Encoding: gzip"@
            };
            &&& known ==> has_line(head, x)
            &&& has_line(head, x) ==> known || x == "Connection: keep-alive"@ || x
                == "Keep-Alive: timeout=15"@ || x == "Connection: close"@ || x.len() == 0
        }),
{
    lemma_head_has(status, ctype, path, no_store, len, gzipped, keep, x);
    lemma_opening_lines(status, ctype, len, x);
    lemma_pieces(status, ctype, path, no_store, gzipped, x);
    lemma_connection_pieces(keep, x);
}

/// Is this the line of none of the headers that every head may have?
spec fn apart(x: Seq<char>, status: Seq<char>, ctype: Seq<char>, len: nat) -> bool {
    &&& x != "HTTP/1.1 "@ + status
    &&& x != "Content-Type: "@ + ctype
    &&& x != "Content-Length: "@ + decimal(len)
    &&& x != "X-Frame-Options: SAMEORIGIN"@
    &&& x != "Vary: Accept-Encoding"@
    &&& x != "Connection: keep-alive"@
    &&& x != "Keep-Alive: timeout=15"@
    &&& x != "Connection: close"@
    &&& x.len() > 0
}

proof fn lemma_lines_differ(status: Seq<char>, ctype: Seq<char>, len: nat)
    ensures
        apart("Access-Control-Allow-Origin: *"@, status, ctype, len),
        apart("Location: http://10.42.0.1/welcome"@, status, ctype, len),
        apart("Content-Encoding: gzip"@, status, ctype, len),
        apart("Cache-Control: no-store"@, status, ctype, len),
        "Access-Control-Allow-Origin: *"@ != "Location: http://10.42.0.1/welcome"@,
        "Access-Control-Allow-Origin: *"@ != "Content-Encoding: gzip"@,
        "Access-Control-Allow-Origin: *"@ != "Cache-Control: no-store"@,
        "Location: http://10.42.0.1/welcome"@ != "Content-Encoding: gzip"@,
        "Location: http://10.42.0.1/welcome"@ != "Cache-Control: no-store"@,
        "Content-Encoding: gzip"@ != "Cache-Control: no-store"@,
{
    reveal_strlit("HTTP/1.1 ");
    reveal_strlit("Content-Type: ");
    reveal_strlit("Content-Length: ");
    reveal_strlit("X-Frame-Options: SAMEORIGIN");
    reveal_strlit("Vary: Accept-Encoding");
    reveal_strlit("Connection: keep-alive");
    reveal_strlit("Keep-Alive: timeout=15");
    reveal_strlit("Connection: close");
    reveal_strlit("Access-Control-Allow-Origin: *");
    reveal_strlit("Location: http://10.42.0.1/welcome");
    reveal_strlit("Content-Encoding: gzip");
    reveal_strlit("Cache-Control: no-store");
    let l1 = "HTTP/1.1 "@ + status;
    let l2 = "Content-Type: "@ + ctype;
    let l3 = "Content-Length: "@ + decimal(len);
    assert(l1[0] == 'H');
    assert(l2[0] == 'C' && l2[1] == 'o' && l2[8] == 'T');
    assert(l3[0] == 'C' && l3[1] == 'o' && l3[8] == 'L');
    assert("X-Frame-Options: SAMEORIGIN"@[0] == 'X');
    assert("Vary: Accept-Encoding"@[0] == 'V');
    assert("Connection: keep-alive"@[0] == 'C' && "Connection: keep-alive"@[1] == 'o'
        && "Connection: keep-alive"@[3] == 'n');
    assert("Keep-Alive: timeout=15"@[0] == 'K');
    assert("Connection: close"@[0] == 'C' && "Connection: close"@[1] == 'o'
        && "Connection: close"@[3] == 'n');
    assert("Access-Control-Allow-Origin: *"@[0] == 'A');
    assert("Location: http://10.42.0.1/welcome"@[0] == 'L');
    assert("Content-Encoding: gzip"@[0] == 'C' && "Content-Encoding: gzip"@[1] == 'o'
        && "Content-Encoding: gzip"@[3] == 't' && "Content-Encoding: gzip"@[8] == 'E');
    assert("Cache-Control: no-store"@[0] == 'C' && "Cache-Control: no-store"@[1] == 'a');
}

/// The lines of a head about how it goes out: it says that there are two encodings exactly where
/// the type shrinks, and that the connection stays open or closes as was decided, never both. There
/// are no other lines than these and those that every head may have.
pub proof fn law_heads_say_how_they_go_out(
    status: Seq<char>,
    ctype: Seq<char>,
    path: Seq<char>,
    no_store: bool,
    len: nat,
    gzipped: bool,
    keep: bool,
    x: Seq<char>,
)
    requires
        one_line(status),
        one_line(ctype),
    ensures
        ({
            let head = head_text(status, ctype, path, no_store, len, gzipped, keep);
            &&& has_line(head, "Vary: Accept-Encoding"@) == is_compressible(ctype)
            &&& has_line(head, "Connection: close"@) == !keep
            &&& has_line(head, "Connection: keep-alive"@) == keep
            &&& has_line(head, "Keep-Alive: timeout=15"@) == keep
            &&& has_line(head, x) && x.len() > 0 ==> {
                ||| x == "HTTP/1.1 "@ + status
                ||| x == "Content-Type: "@ + ctype
                ||| x == "Content-Length: "@ + decimal(len)
                ||| x == "Location: http://10.42.0.1/welcome"@
                ||| x == "Access-Control-Allow-Origin: *"@
                ||| x == "X-Frame-Options: SAMEORIGIN"@
                ||| x == "Cache-Control: no-store"@
                ||| x == "Vary: Accept-Encoding"@
                ||| x == "Content-Encoding: gzip"@
                ||| x == "Connection: close"@
                ||| x == "Connection: keep-alive"@
                ||| x == "Keep-Alive: timeout=15"@
            }
        }),
{
    let vary = "Vary: Accept-Encoding"@;
    let close = "Connection: close"@;
    let open = "Connection: keep-alive"@;
    let time = "Keep-Alive: timeout=15"@;
    lemma_lines_differ(status, ctype, len);
    lemma_other_lines_differ(status, ctype, len);
    lemma_said(status, ctype, path, no_store, len, gzipped, keep, x);
    lemma_head_has(status, ctype, path, no_store, len, gzipped, keep, vary);
    lemma_head_has(status, ctype, path, no_store, len, gzipped, keep, close);
    lemma_head_has(status, ctype, path, no_store, len, gzipped, keep, open);
    lemma_head_has(status, ctype, path, no_store, len, gzipped, keep, time);
    lemma_opening_lines(status, ctype, len, vary);
    lemma_opening_lines(status, ctype, len, close);
    lemma_opening_lines(status, ctype, len, open);
    lemma_opening_lines(status, ctype, len, time);
    lemma_pieces(status, ctype, path, no_store, gzipped, vary);
    lemma_pieces(status, ctype, path, no_store, gzipped, close);
    lemma_pieces(status, ctype, path, no_store, gzipped, open);
    lemma_pieces(status, ctype, path, no_store, gzipped, time);
    lemma_connection_pieces(keep, vary);
    lemma_connection_pieces(keep, close);
    lemma_connection_pieces(keep, open);
    lemma_connection_pieces(keep, time);
}

proof fn lemma_other_lines_differ(status: Seq<char>, ctype: Seq<char>, len: nat)
    ensures
        "Vary: Accept-Encoding"@ != "HTTP/1.1 "@ + status,
        "Vary: Accept-Encoding"@ != "Content-Type: "@ + ctype,
        "Vary: Accept-Encoding"@ != "Content-Length: "@ + decimal(len),
        "Connection: close"@ != "HTTP/1.1 "@ + status,
        "Connection: close"@ != "Content-Type: "@ + ctype,
        "Connection: close"@ != "Content-Length: "@ + decimal(len),
        "Connection: keep-alive"@ != "HTTP/1.1 "@ + status,
        "Connection: keep-alive"@ != "Content-Type: "@ + ctype,
        "Connection: keep-alive"@ != "Content-Length: "@ + decimal(len),
        "Keep-Alive: timeout=15"@ != "HTTP/1.1 "@ + status,
        "Keep-Alive: timeout=15"@ != "Content-Type: "@ + ctype,
        "Keep-Alive: timeout=15"@ != "Content-Length: "@ + decimal(len),
        "Connection: close"@ != "Connection: keep-alive"@,
        "Connection: close"@ != "Keep-Alive: timeout=15"@,
        "Connection: keep-alive"@ != "Keep-Alive: timeout=15"@,
        "X-Frame-Options: SAMEORIGIN"@ != "Vary: Accept-Encoding"@,
        "X-Frame-Options: SAMEORIGIN"@ != "Connection: close"@,
        "X-Frame-Options: SAMEORIGIN"@ != "Connection: keep-alive"@,
        "X-Frame-Options: SAMEORIGIN"@ != "Keep-Alive: timeout=15"@,
        "Vary: Accept-Encoding"@ != "Connection: close"@,
        "Vary: Accept-Encoding"@ != "Connection: keep-alive"@,
        "Vary: Accept-Encoding"@ != "Keep-Alive: timeout=15"@,
        "Vary: Accept-Encoding"@.len() > 0,
        "Connection: close"@.len() > 0,
        "Connection: keep-alive"@.len() > 0,
        "Keep-Alive: timeout=15"@.len() > 0,
{
    reveal_strlit("HTTP/1.1 ");
    reveal_strlit("Content-Type: ");
    reveal_strlit("Content-Length: ");
    reveal_strlit("X-Frame-Options: SAMEORIGIN");
    reveal_strlit("Vary: Accept-Encoding");
    reveal_strlit("Connection: keep-alive");
    reveal_strlit("Keep-Alive: timeout=15");
    reveal_strlit("Connection: close");
    let l1 = "HTTP/1.1 "@ + status;
    let l2 = "Content-Type: "@ + ctype;
    let l3 = "Content-Length: "@ + decimal(len);
    assert(l1[0] == 'H');
    assert(l2[0] == 'C' && l2[3] == 't');
    assert(l3[0] == 'C' && l3[3] == 't');
    assert("X-Frame-Options: SAMEORIGIN"@[0] == 'X');
    assert("Vary: Accept-Encoding"@[0] == 'V');
    assert("Connection: keep-alive"@[0] == 'C' && "Connection: keep-alive"@[3] == 'n');
    assert("Keep-Alive: timeout=15"@[0] == 'K');
    assert("Connection: close"@[0] == 'C' && "Connection: close"@[3] == 'n');
    assert("Connection: close"@.len() != "Connection: keep-alive"@.len());
}

} // verus!
