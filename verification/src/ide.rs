//! The IDE bundle, served from disk at `/ide/`.
//!
//! Which file a path names, whether the client's copy is still good, and what is sent. Looking up
//! and reading the file is the caller's part, between the steps.
use vstd::prelude::*;
use vstd::string::*;
use vstd::utf8::{encode_utf8, is_ascii_chars};

use crate::bytes::{extend, utf8_bytes};
use crate::gzip::GZIP_MIN;
use crate::http::{
    accepts_gzip, compressible, conn_hdr, connection_lines, declared_length, entry_begins,
    entry_ends, has_token, header_of, header_value, is_compressible, law_lists_list_their_entries,
    lists, message_len, seek, takes_gzip, vary, vary_line,
};
use crate::number::{decimal, digit_char, hex, hex_text};
use crate::response::{
    encoding_line, has_line, law_heads_declare_their_length, lemma_ascii_join,
    lemma_blank_line_is_last, lemma_connection_is_whole, lemma_connection_pieces,
    lemma_encoding_is_whole, lemma_ends_join, lemma_line_alone, lemma_line_in_both,
    lemma_lines_are_ascii, lemma_message_is_whole, lemma_opening_is_ascii, lemma_opening_is_whole,
    lemma_opening_lines, lemma_pieces, lemma_vary_is_whole, lemma_whole_lines_join, one_line,
    open_head, opening, whole_lines,
};
use crate::text::{
    before, blank, chars, fields, head_field, law_line_feeds_end_lines, law_separators_cut,
    lemma_append, lemma_field_stands, lemma_fields_join, lemma_find, lemma_spaces_is, line_seq,
    listed, same, snug, split, string_of, trimmed,
};

verus! {

// ---- Content types ----

/// The last part of a path that names something: empty parts and `.` name nothing.
pub open spec fn last_named(parts: Seq<Seq<char>>) -> Option<Seq<char>>
    decreases parts.len(),
{
    if parts.len() == 0 {
        None
    } else if parts.last().len() == 0 || parts.last() == "."@ {
        last_named(parts.drop_last())
    } else {
        Some(parts.last())
    }
}

/// The position of the last dot; -1 where there is none.
pub open spec fn last_dot(name: Seq<char>) -> int
    decreases name.len(),
{
    if name.len() == 0 {
        -1
    } else if name.last() == '.' {
        name.len() - 1
    } else {
        last_dot(name.drop_last())
    }
}

/// What follows the last dot of a name, unless the name starts with that dot.
pub open spec fn name_extension(name: Seq<char>) -> Seq<char> {
    if last_dot(name) > 0 {
        name.skip(last_dot(name) + 1)
    } else {
        Seq::empty()
    }
}

/// The extension of the file that a path names; empty where it has none.
pub open spec fn extension(path: Seq<char>) -> Seq<char> {
    match last_named(fields(path, '/')) {
        Some(name) => if name == ".."@ {
            Seq::empty()
        } else {
            name_extension(name)
        },
        None => Seq::empty(),
    }
}

/// The content type for an extension.
pub open spec fn mime_of(ext: Seq<char>) -> Seq<char> {
    if ext == "html"@ {
        "text/html; charset=utf-8"@
    } else if ext == "js"@ || ext == "mjs"@ {
        "application/javascript; charset=utf-8"@
    } else if ext == "css"@ {
        "text/css; charset=utf-8"@
    } else if ext == "json"@ || ext == "map"@ {
        "application/json; charset=utf-8"@
    } else if ext == "svg"@ {
        "image/svg+xml"@
    } else if ext == "png"@ {
        "image/png"@
    } else if ext == "jpg"@ || ext == "jpeg"@ {
        "image/jpeg"@
    } else if ext == "ico"@ {
        "image/x-icon"@
    } else if ext == "webmanifest"@ {
        "application/manifest+json"@
    } else if ext == "woff2"@ {
        "font/woff2"@
    } else if ext == "wasm"@ {
        "application/wasm"@
    } else if ext == "md"@ || ext == "txt"@ {
        "text/plain; charset=utf-8"@
    } else {
        "application/octet-stream"@
    }
}

fn extension_of(path: &str) -> (r: String)
    ensures
        r@ == extension(path@),
{
    let parts = split(path, '/');
    let ghost dv = fields(path@, '/');
    let mut n: usize = parts.len();
    assert(dv.take(n as int) =~= dv);
    while n > 0
        invariant
            parts.deep_view() == dv,
            dv == fields(path@, '/'),
            n <= parts@.len(),
            last_named(dv.take(n as int)) == last_named(dv),
        decreases n,
    {
        let ghost t = dv.take(n as int);
        assert(t.drop_last() =~= dv.take(n - 1));
        assert(t.last() == parts@[n - 1]@);
        let part = parts[n - 1].as_str();
        if part.is_empty() || same(part, ".") {
            n -= 1;
        } else {
            if same(part, "..") {
                return String::new();
            }
            let name = chars(part);
            let mut k: usize = name.len();
            assert(name@.take(k as int) =~= name@);
            while k > 0 && name[k - 1] != '.'
                invariant
                    k <= name@.len(),
                    last_dot(name@.take(k as int)) == last_dot(name@),
                decreases k,
            {
                assert(name@.take(k as int).drop_last() =~= name@.take(k - 1));
                k -= 1;
            }
            assert(k > 0 ==> name@.take(k as int).last() == '.');
            if k > 1 {
                let r = string_of(&name, k, name.len());
                assert(r@ =~= name@.skip(k as int));
                return r;
            }
            return String::new();
        }
    }
    String::new()
}

/// The content type of a file of the bundle.
pub fn ide_mime(path: &str) -> (r: &'static str)
    ensures
        r@ == mime_of(extension(path@)),
{
    let e = extension_of(path);
    let ext = e.as_str();
    if same(ext, "html") {
        "text/html; charset=utf-8"
    } else if same(ext, "js") || same(ext, "mjs") {
        // The browser refuses to import a module that does not come as JavaScript.
        "application/javascript; charset=utf-8"
    } else if same(ext, "css") {
        "text/css; charset=utf-8"
    } else if same(ext, "json") || same(ext, "map") {
        "application/json; charset=utf-8"
    } else if same(ext, "svg") {
        "image/svg+xml"
    } else if same(ext, "png") {
        "image/png"
    } else if same(ext, "jpg") || same(ext, "jpeg") {
        "image/jpeg"
    } else if same(ext, "ico") {
        "image/x-icon"
    } else if same(ext, "webmanifest") {
        "application/manifest+json"
    } else if same(ext, "woff2") {
        "font/woff2"
    } else if same(ext, "wasm") {
        "application/wasm"
    } else if same(ext, "md") || same(ext, "txt") {
        "text/plain; charset=utf-8"
    } else {
        "application/octet-stream"
    }
}

// ---- Which file ----

/// The path without the `/ide/` that it starts with, however often.
pub open spec fn below_ide(path: Seq<char>) -> Seq<char>
    decreases path.len(),
{
    if path.len() >= 5 && path.take(5) == "/ide/"@ {
        below_ide(path.skip(5))
    } else {
        path
    }
}

/// The file that a path names, relative to the bundle.
pub open spec fn file_named(path: Seq<char>) -> Seq<char> {
    if below_ide(path).len() == 0 {
        "index.html"@
    } else {
        below_ide(path)
    }
}

/// Would the file stand outside the bundle?
pub open spec fn escapes(rel: Seq<char>) -> bool {
    fields(rel, '/').contains(".."@) || (rel.len() > 0 && rel[0] == '/')
}

/// What is done with a path.
pub enum Target {
    /// To the directory: relative imports of the page resolve against it.
    Redirect,
    /// The path leads out of the bundle.
    Forbidden,
    /// This file of the bundle.
    File(String),
}

/// What a request path, with or without a query, names.
pub fn ide_target(raw_path: &str) -> (t: Target)
    ensures
        ({
            let path = head_field(raw_path@, '?');
            match t {
                Target::Redirect => path == "/ide"@,
                Target::Forbidden => path != "/ide"@ && escapes(file_named(path)),
                Target::File(rel) => {
                    &&& path != "/ide"@
                    &&& rel@ == file_named(path)
                    &&& !escapes(file_named(path))
                },
            }
        }),
{
    let path = before(raw_path, '?');
    if same(path.as_str(), "/ide") {
        return Target::Redirect;
    }
    proof {
        reveal_strlit("/ide/");
    }
    let v = chars(path.as_str());
    let len: usize = v.len();
    let mut at: usize = 0;
    assert(v@.skip(0) =~= v@);
    while len - at >= 5 && v[at] == '/' && v[at + 1] == 'i' && v[at + 2] == 'd' && v[at + 3] == 'e'
        && v[at + 4] == '/'
        invariant
            len == v@.len(),
            at <= len,
            v@ == path@,
            below_ide(v@.skip(at as int)) == below_ide(path@),
            "/ide/"@ == seq!['/', 'i', 'd', 'e', '/'],
        decreases len - at,
    {
        assert(v@.skip(at as int).take(5) =~= "/ide/"@);
        assert(v@.skip(at as int).skip(5) =~= v@.skip(at + 5));
        at += 5;
    }
    let ghost rest = v@.skip(at as int);
    assert(below_ide(rest) == rest) by {
        if rest.len() >= 5 && rest.take(5) == "/ide/"@ {
            assert(rest.take(5)[0] == v@[at as int]);
            assert(rest.take(5)[1] == v@[at + 1]);
            assert(rest.take(5)[2] == v@[at + 2]);
            assert(rest.take(5)[3] == v@[at + 3]);
            assert(rest.take(5)[4] == v@[at + 4]);
        }
    }
    let below = string_of(&v, at, len);
    assert(below@ =~= rest);
    let rel = if below.as_str().is_empty() {
        "index.html".to_owned()
    } else {
        below
    };
    let first = chars(rel.as_str());
    if listed(&split(rel.as_str(), '/'), "..") || (first.len() > 0 && first[0] == '/') {
        return Target::Forbidden;
    }
    Target::File(rel)
}

// ---- Validators ----

/// What is known of a file before it is read.
pub struct FileMeta {
    pub len: u64,
    /// Seconds since the epoch, if the file has a time after it.
    pub modified: Option<u64>,
}

/// A validator from the time and the size of a file; the two encodings of a file have two.
pub open spec fn tag_text(modified: u64, len: u64, gz: bool) -> Seq<char> {
    "\""@ + hex(modified as nat) + "-"@ + hex(len as nat) + (if gz {
        "-gz"@
    } else {
        ""@
    }) + "\""@
}

/// The validator of a file in an encoding, if its time is known.
pub open spec fn etag_of(meta: Option<FileMeta>, gz: bool) -> Option<Seq<char>> {
    match meta {
        Some(m) => match m.modified {
            Some(t) => Some(tag_text(t, m.len, gz)),
            None => None,
        },
        None => None,
    }
}

fn etag(meta: &Option<FileMeta>, gz: bool) -> (r: Option<String>)
    ensures
        match r {
            Some(t) => etag_of(*meta, gz) == Some(t@),
            None => etag_of(*meta, gz) is None,
        },
{
    match meta {
        Some(m) => match m.modified {
            Some(t) => {
                let mut s = "\"".to_owned();
                s.append(hex_text(t).as_str());
                s.append("-");
                s.append(hex_text(m.len).as_str());
                if gz {
                    s.append("-gz");
                } else {
                    s.append("");
                }
                s.append("\"");
                Some(s)
            },
            None => None,
        },
        None => None,
    }
}

/// Is the file to be sent compressed? Decided before it is read.
pub open spec fn sends_gzip(rel: Seq<char>, req: Seq<char>, meta: Option<FileMeta>) -> bool {
    &&& takes_gzip(req)
    &&& is_compressible(mime_of(extension(rel)))
    &&& meta matches Some(m) && m.len >= GZIP_MIN
}

/// Does the client hold what it would be sent?
pub open spec fn is_current(rel: Seq<char>, req: Seq<char>, meta: Option<FileMeta>) -> bool {
    match (etag_of(meta, sends_gzip(rel, req, meta)), header_of(req, "if-none-match"@)) {
        (Some(tag), Some(want)) => lists(want, tag),
        _ => false,
    }
}

// ---- Responses ----

pub open spec fn redirect_text(keep: bool) -> Seq<char> {
    "HTTP/1.1 301 Moved Permanently\r\nLocation: /ide/\r\nContent-Length: 0\r\n"@
        + connection_lines(keep) + "\r\n"@
}

pub open spec fn forbidden_text(keep: bool) -> Seq<char> {
    "HTTP/1.1 403 Forbidden\r\nContent-Length: 0\r\n"@ + connection_lines(keep) + "\r\n"@
}

pub open spec fn not_modified_text(tag: Seq<char>, ctype: Seq<char>, keep: bool) -> Seq<char> {
    "HTTP/1.1 304 Not Modified\r\nETag: "@ + tag + "\r\nCache-Control: no-cache\r\n"@ + vary_line(
        ctype,
    ) + "Access-Control-Allow-Origin: *\r\n"@ + connection_lines(keep) + "\r\n"@
}

pub open spec fn etag_line(tag: Option<Seq<char>>) -> Seq<char> {
    match tag {
        Some(t) => "ETag: "@ + t + "\r\n"@,
        None => ""@,
    }
}

pub open spec fn file_head(
    ctype: Seq<char>,
    len: nat,
    tag: Option<Seq<char>>,
    gzipped: bool,
    keep: bool,
) -> Seq<char> {
    opening("200 OK"@, ctype, len) + "Cache-Control: no-cache\r\n"@ + vary_line(ctype)
        + encoding_line(gzipped) + etag_line(tag) + "Access-Control-Allow-Origin: *\r\n"@
        + connection_lines(keep) + "\r\n"@
}

pub open spec fn missing_body(installed: bool) -> Seq<char> {
    if installed {
        "not found"@
    } else {
        "IDE bundle not installed — run deploy/install.sh (needs internet), or place better-robotics/ide's built dist at /usr/share/hub/ide"@
    }
}

pub open spec fn missing_head(len: nat, keep: bool) -> Seq<char> {
    opening("404 Not Found"@, "text/plain; charset=utf-8"@, len) + connection_lines(keep)
        + "\r\n"@
}

/// What to do after a path was looked at.
pub enum Opened {
    /// Send this; the request is answered.
    Send(Vec<u8>),
    /// Look up this file of the bundle.
    Stat(String),
}

/// What to do after a file was looked up.
pub enum Validated {
    /// Send this; the request is answered.
    Send(Vec<u8>),
    /// Read the file, and compress it if `gz` says so; under the key, if there is one, what is
    /// compressed may be remembered.
    Read { gz: bool, key: Option<String> },
}

/// First step: which file a path names.
pub fn ide_open(raw_path: &str, keep: bool) -> (r: Opened)
    ensures
        ({
            let path = head_field(raw_path@, '?');
            match r {
                Opened::Send(b) => {
                    ||| path == "/ide"@ && b@ == encode_utf8(redirect_text(keep))
                    ||| path != "/ide"@ && escapes(file_named(path)) && b@ == encode_utf8(
                        forbidden_text(keep),
                    )
                },
                Opened::Stat(rel) => {
                    &&& path != "/ide"@
                    &&& rel@ == file_named(path)
                    &&& !escapes(file_named(path))
                },
            }
        }),
{
    match ide_target(raw_path) {
        Target::Redirect => {
            let mut s =
                "HTTP/1.1 301 Moved Permanently\r\nLocation: /ide/\r\nContent-Length: 0\r\n".to_owned();
            s.append(conn_hdr(keep));
            s.append("\r\n");
            Opened::Send(utf8_bytes(s.as_str()))
        },
        Target::Forbidden => {
            let mut s = "HTTP/1.1 403 Forbidden\r\nContent-Length: 0\r\n".to_owned();
            s.append(conn_hdr(keep));
            s.append("\r\n");
            Opened::Send(utf8_bytes(s.as_str()))
        },
        Target::File(rel) => Opened::Stat(rel),
    }
}

/// The key under which the compressed form of a version of a file is remembered: its path, and
/// the validator of its compressed form.
pub open spec fn cache_key(rel: Seq<char>, meta: Option<FileMeta>) -> Option<Seq<char>> {
    match etag_of(meta, true) {
        Some(t) => Some(rel + ":"@ + t),
        None => None,
    }
}

/// Second step: whether the client's copy is still good, without reading the file.
pub fn ide_validate(rel: &str, req: &str, meta: &Option<FileMeta>, keep: bool) -> (r: Validated)
    ensures
        match r {
            Validated::Send(b) => {
                &&& is_current(rel@, req@, *meta)
                &&& b@ == encode_utf8(
                    not_modified_text(
                        etag_of(*meta, sends_gzip(rel@, req@, *meta))->0,
                        mime_of(extension(rel@)),
                        keep,
                    ),
                )
            },
            Validated::Read { gz, key } => {
                &&& !is_current(rel@, req@, *meta)
                &&& gz == sends_gzip(rel@, req@, *meta)
                &&& match key {
                    Some(k) => cache_key(rel@, *meta) == Some(k@),
                    None => cache_key(rel@, *meta) is None,
                }
            },
        },
{
    let ctype = ide_mime(rel);
    let large = match meta {
        Some(m) => m.len >= GZIP_MIN as u64,
        None => false,
    };
    let gz = accepts_gzip(req) && compressible(ctype) && large;
    match (etag(meta, gz), header_value(req, "if-none-match")) {
        (Some(tag), Some(want)) => {
            if has_token(want.as_str(), tag.as_str()) {
                let mut s = "HTTP/1.1 304 Not Modified\r\nETag: ".to_owned();
                s.append(tag.as_str());
                s.append("\r\nCache-Control: no-cache\r\n");
                s.append(vary(ctype));
                s.append("Access-Control-Allow-Origin: *\r\n");
                s.append(conn_hdr(keep));
                s.append("\r\n");
                return Validated::Send(utf8_bytes(s.as_str()));
            }
        },
        _ => {},
    }
    let key = match etag(meta, true) {
        Some(t) => {
            let mut k = rel.to_owned();
            k.append(":");
            k.append(t.as_str());
            Some(k)
        },
        None => None,
    };
    Validated::Read { gz, key }
}

/// Last step, with what was read: the file as it goes out, compressed or not.
pub fn ide_send(
    rel: &str,
    meta: &Option<FileMeta>,
    body: &[u8],
    gzipped: bool,
    keep: bool,
) -> (r: Vec<u8>)
    ensures
        r@ == encode_utf8(
            file_head(
                mime_of(extension(rel@)),
                body@.len(),
                etag_of(*meta, gzipped),
                gzipped,
                keep,
            ),
        ) + body@,
{
    let ctype = ide_mime(rel);
    let mut s = open_head("200 OK", ctype, body.len());
    s.append("Cache-Control: no-cache\r\n");
    s.append(vary(ctype));
    if gzipped {
        s.append("Content-Encoding: gzip\r\n");
    } else {
        s.append("");
    }
    match etag(meta, gzipped) {
        Some(t) => {
            let mut line = "ETag: ".to_owned();
            line.append(t.as_str());
            line.append("\r\n");
            s.append(line.as_str());
        },
        None => {
            s.append("");
        },
    }
    s.append("Access-Control-Allow-Origin: *\r\n");
    s.append(conn_hdr(keep));
    s.append("\r\n");
    let mut r = utf8_bytes(s.as_str());
    extend(&mut r, body);
    r
}

/// Last step, where the file cannot be read: whether the bundle is there at all makes the text.
pub fn ide_missing(installed: bool, keep: bool) -> (r: Vec<u8>)
    ensures
        r@ == encode_utf8(missing_head(encode_utf8(missing_body(installed)).len(), keep))
            + encode_utf8(missing_body(installed)),
{
    let body = if installed {
        utf8_bytes("not found")
    } else {
        utf8_bytes(
            "IDE bundle not installed — run deploy/install.sh (needs internet), or place better-robotics/ide's built dist at /usr/share/hub/ide",
        )
    };
    let mut s = open_head("404 Not Found", "text/plain; charset=utf-8", body.len());
    s.append(conn_hdr(keep));
    s.append("\r\n");
    let mut r = utf8_bytes(s.as_str());
    extend(&mut r, body.as_slice());
    r
}

// ---- Laws ----

/// How many directories below the bundle a path has come to after its parts.
pub open spec fn level(parts: Seq<Seq<char>>) -> int
    decreases parts.len(),
{
    if parts.len() == 0 {
        0
    } else {
        level(parts.drop_last()) + (if parts.last() == ".."@ {
            -1int
        } else if parts.last().len() == 0 || parts.last() == "."@ {
            0
        } else {
            1
        })
    }
}

/// A file that is looked up stands in the bundle: on no part of its way does the path leave it,
/// and it does not start anew at the root.
pub proof fn law_files_stay_in_the_bundle(path: Seq<char>, i: int)
    requires
        !escapes(file_named(path)),
        0 <= i <= fields(file_named(path), '/').len(),
    ensures
        level(fields(file_named(path), '/').take(i)) >= 0,
        file_named(path).len() > 0 && file_named(path)[0] != '/',
    decreases i,
{
    reveal_strlit("index.html");
    let parts = fields(file_named(path), '/');
    if i > 0 {
        law_files_stay_in_the_bundle(path, i - 1);
        assert(parts.take(i).drop_last() =~= parts.take(i - 1));
        assert(parts.take(i).last() == parts[i - 1]);
        assert(parts.contains(parts[i - 1]));
    }
}

proof fn lemma_hex_plain(n: nat)
    ensures
        hex(n).len() > 0,
        forall|i: int|
            0 <= i < hex(n).len() ==> '0' <= #[trigger] hex(n)[i] <= '9' || 'a' <= hex(n)[i] <= 'f',
    decreases n,
{
    if n >= 16 {
        lemma_hex_plain(n / 16);
        let t = hex(n / 16);
        assert forall|i: int| 0 <= i < hex(n).len() implies '0' <= #[trigger] hex(n)[i] <= '9'
            || 'a' <= hex(n)[i] <= 'f' by {
            if i < t.len() {
                assert(hex(n)[i] == t[i]);
            }
        }
    }
}

proof fn lemma_hex_injective(m: nat, n: nat)
    requires
        hex(m) == hex(n),
    ensures
        m == n,
    decreases m,
{
    lemma_hex_plain(m / 16);
    lemma_hex_plain(n / 16);
    assert(hex(m).last() == digit_char((m % 16) as int));
    assert(hex(n).last() == digit_char((n % 16) as int));
    if m >= 16 && n >= 16 {
        assert(hex(m).drop_last() =~= hex(m / 16));
        assert(hex(n).drop_last() =~= hex(n / 16));
        lemma_hex_injective(m / 16, n / 16);
    }
}

/// The characters of a validator: hexadecimal digits, quotes, hyphens and the letters of `gz`.
proof fn lemma_tag_plain(modified: u64, len: u64, gz: bool)
    ensures
        ({
            let t = tag_text(modified, len, gz);
            &&& t.len() > 0
            &&& t[0] == '"'
            &&& t.last() == '"'
            &&& forall|i: int|
                0 <= i < t.len() ==> '0' <= #[trigger] t[i] <= '9' || 'a' <= t[i] <= 'z' || t[i]
                    == '-' || t[i] == '"'
        }),
{
    reveal_strlit("\"");
    reveal_strlit("-");
    reveal_strlit("-gz");
    reveal_strlit("");
    lemma_hex_plain(modified as nat);
    lemma_hex_plain(len as nat);
    let a = hex(modified as nat);
    let b = hex(len as nat);
    let c = if gz {
        "-gz"@
    } else {
        ""@
    };
    let t = tag_text(modified, len, gz);
    assert forall|i: int| 0 <= i < t.len() implies '0' <= #[trigger] t[i] <= '9' || 'a' <= t[i]
        <= 'z' || t[i] == '-' || t[i] == '"' by {
        let x = 1 + a.len() as int;
        let y = x + 1 + b.len();
        if 1 <= i < x {
            assert(t[i] == a[i - 1]);
        } else if x < i < y {
            assert(t[i] == b[i - x - 1]);
        } else if y <= i < y + c.len() {
            assert(t[i] == c[i - y]);
        }
    }
}

/// A validator tells what it stands for apart: another time, another size or another encoding has
/// another validator.
pub proof fn law_tags_tell_versions_apart(m1: u64, l1: u64, g1: bool, m2: u64, l2: u64, g2: bool)
    requires
        tag_text(m1, l1, g1) == tag_text(m2, l2, g2),
    ensures
        m1 == m2 && l1 == l2 && g1 == g2,
{
    reveal_strlit("\"");
    reveal_strlit("-");
    reveal_strlit("-gz");
    reveal_strlit("");
    lemma_hex_plain(m1 as nat);
    lemma_hex_plain(l1 as nat);
    lemma_hex_plain(m2 as nat);
    lemma_hex_plain(l2 as nat);
    let a1 = hex(m1 as nat);
    let a2 = hex(m2 as nat);
    let b1 = hex(l1 as nat);
    let b2 = hex(l2 as nat);
    let t1 = tag_text(m1, l1, g1);
    let t2 = tag_text(m2, l2, g2);
    let p1 = a1.len() as int;
    let p2 = a2.len() as int;
    let q1 = b1.len() as int;
    let q2 = b2.len() as int;
    assert(t1[1 + p1] == '-');
    assert(t2[1 + p2] == '-');
    if p1 < p2 {
        assert(t2[1 + p1] == a2[p1]);
    }
    if p2 < p1 {
        assert(t1[1 + p2] == a1[p2]);
    }
    assert(a1 =~= t1.subrange(1, 1 + p1));
    assert(a2 =~= t2.subrange(1, 1 + p2));
    lemma_hex_injective(m1 as nat, m2 as nat);
    let x = 2 + p1;
    assert(!g1 ==> t1.len() == x + q1 + 1);
    assert(!g2 ==> t2.len() == x + q2 + 1);
    assert(g1 ==> t1.len() == x + q1 + 4 && t1[x + q1] == '-');
    assert(g2 ==> t2.len() == x + q2 + 4 && t2[x + q2] == '-');
    if g1 && !g2 {
        assert(t2[x + q1] == b2[q1]);
    }
    if g2 && !g1 {
        assert(t1[x + q2] == b1[q2]);
    }
    assert(b1 =~= t1.subrange(x, x + q1));
    assert(b2 =~= t2.subrange(x, x + q2));
    lemma_hex_injective(l1 as nat, l2 as nat);
}

/// Two versions of files share a place in the cache only if they are the same version of the same
/// file.
pub proof fn law_cache_keys_tell_files_apart(
    rel1: Seq<char>,
    meta1: FileMeta,
    rel2: Seq<char>,
    meta2: FileMeta,
)
    requires
        cache_key(rel1, Some(meta1)) is Some,
        cache_key(rel1, Some(meta1)) == cache_key(rel2, Some(meta2)),
    ensures
        rel1 == rel2,
        meta1 == meta2,
{
    reveal_strlit(":");
    let m1 = meta1.modified->0;
    let m2 = meta2.modified->0;
    let t1 = tag_text(m1, meta1.len, true);
    let t2 = tag_text(m2, meta2.len, true);
    let n1 = rel1.len() as int;
    let n2 = rel2.len() as int;
    let k1 = rel1 + ":"@ + t1;
    let k2 = rel2 + ":"@ + t2;
    assert(k1 == k2);
    lemma_tag_plain(m1, meta1.len, true);
    lemma_tag_plain(m2, meta2.len, true);
    assert(k1[n1] == ':');
    assert(k2[n2] == ':');
    if n1 < n2 {
        assert(k1[n2] == t1[n2 - n1 - 1]);
    }
    if n2 < n1 {
        assert(k2[n1] == t2[n1 - n2 - 1]);
    }
    assert(rel1 =~= k1.take(n1));
    assert(rel2 =~= k2.take(n2));
    assert(t1 =~= k1.skip(n1 + 1));
    assert(t2 =~= k2.skip(n2 + 1));
    law_tags_tell_versions_apart(m1, meta1.len, true, m2, meta2.len, true);
}

/// The key of a file ends as its validator does, in a quotation mark.
pub proof fn law_file_keys_end_in_a_tag(rel: Seq<char>, meta: Option<FileMeta>)
    requires
        cache_key(rel, meta) is Some,
    ensures
        cache_key(rel, meta)->0.len() > 0,
        cache_key(rel, meta)->0.last() == '"',
{
    let m = meta->0;
    lemma_tag_plain(m.modified->0, m.len, true);
}

proof fn lemma_tag_lists_itself(modified: u64, len: u64, gz: bool, token: Seq<char>)
    ensures
        lists(tag_text(modified, len, gz), token) == (token == tag_text(modified, len, gz)),
{
    let t = tag_text(modified, len, gz);
    lemma_tag_plain(modified, len, gz);
    lemma_find(t, ',');
    assert(!t.contains(','));
    assert(fields(t, ',') =~= seq![t]);
    lemma_spaces_is(t, 0);
    assert(t.skip(0) =~= t);
    assert(trimmed(t) == t);
    assert(trimmed(fields(t, ',')[0]) == t);
}

/// A client that gives back the validator of what it holds is told whether that is still what it
/// would be sent: yes exactly if the file has the time and the size it had, and the encoding is
/// the one it had.
pub proof fn law_validators_are_honoured(
    rel: Seq<char>,
    req: Seq<char>,
    meta: FileMeta,
    modified: u64,
    len: u64,
    gz: bool,
)
    requires
        header_of(req, "if-none-match"@) == Some(tag_text(modified, len, gz)),
    ensures
        is_current(rel, req, Some(meta)) == (meta.modified == Some(modified) && meta.len == len
            && sends_gzip(rel, req, Some(meta)) == gz),
{
    let now_gz = sends_gzip(rel, req, Some(meta));
    match meta.modified {
        Some(t) => {
            lemma_tag_lists_itself(modified, len, gz, tag_text(t, meta.len, now_gz));
            if tag_text(t, meta.len, now_gz) == tag_text(modified, len, gz) {
                law_tags_tell_versions_apart(t, meta.len, now_gz, modified, len, gz);
            }
        },
        None => {},
    }
}

proof fn lemma_mime_is_one_line(ext: Seq<char>)
    ensures
        one_line(mime_of(ext)),
{
    reveal_strlit("text/html; charset=utf-8");
    reveal_strlit("application/javascript; charset=utf-8");
    reveal_strlit("text/css; charset=utf-8");
    reveal_strlit("application/json; charset=utf-8");
    reveal_strlit("image/svg+xml");
    reveal_strlit("image/png");
    reveal_strlit("image/jpeg");
    reveal_strlit("image/x-icon");
    reveal_strlit("application/manifest+json");
    reveal_strlit("font/woff2");
    reveal_strlit("application/wasm");
    reveal_strlit("text/plain; charset=utf-8");
    reveal_strlit("application/octet-stream");
}

proof fn lemma_etag_is_whole(meta: Option<FileMeta>, gz: bool)
    ensures
        whole_lines(etag_line(etag_of(meta, gz))) || etag_line(etag_of(meta, gz)).len() == 0,
{
    reveal(whole_lines);
    reveal_strlit("");
    reveal_strlit("ETag: ");
    reveal_strlit("\r\n");
    match etag_of(meta, gz) {
        Some(t) => {
            let m = meta->0;
            lemma_tag_plain(m.modified->0, m.len, gz);
            let s = etag_line(Some(t));
            assert forall|i: int| 0 <= i < s.len() && #[trigger] s[i] == '\n' implies i == s.len()
                - 1 by {
                if 6 <= i < 6 + t.len() {
                    assert(s[i] == t[i - 6]);
                }
            }
        },
        None => {},
    }
}

proof fn lemma_no_cache_is_whole()
    ensures
        whole_lines("Cache-Control: no-cache\r\n"@),
        whole_lines("Access-Control-Allow-Origin: *\r\n"@),
{
    reveal(whole_lines);
    reveal_strlit("Cache-Control: no-cache\r\n");
    reveal_strlit("Access-Control-Allow-Origin: *\r\n");
}

/// A file is framed: its head ends at its first blank line, and declares exactly the length of
/// the body that follows.
pub proof fn law_files_are_framed(
    ext: Seq<char>,
    len: nat,
    meta: Option<FileMeta>,
    gzipped: bool,
    keep: bool,
)
    requires
        len <= usize::MAX,
    ensures
        ({
            let head = file_head(mime_of(ext), len, etag_of(meta, gzipped), gzipped, keep);
            &&& seek(head, "\r\n\r\n"@) == Some(head.len() - 4)
            &&& declared_length(head) == len
        }),
{
    let ctype = mime_of(ext);
    let a = opening("200 OK"@, ctype, len);
    let b = "Cache-Control: no-cache\r\n"@;
    let c = vary_line(ctype);
    let d = encoding_line(gzipped);
    let e = etag_line(etag_of(meta, gzipped));
    let f = "Access-Control-Allow-Origin: *\r\n"@;
    let g = connection_lines(keep);
    assert(one_line("200 OK"@) && !"200 OK"@.contains(':')) by {
        reveal_strlit("200 OK");
    }
    lemma_mime_is_one_line(ext);
    lemma_no_cache_is_whole();
    lemma_vary_is_whole(ctype);
    lemma_encoding_is_whole(gzipped);
    lemma_etag_is_whole(meta, gzipped);
    lemma_connection_is_whole(keep);
    lemma_opening_is_whole("200 OK"@, ctype, len);
    lemma_whole_lines_join(a, b);
    lemma_whole_lines_join(a + b, c);
    lemma_whole_lines_join(a + b + c, d);
    lemma_whole_lines_join(a + b + c + d, e);
    lemma_whole_lines_join(a + b + c + d + e, f);
    lemma_whole_lines_join(a + b + c + d + e + f, g);
    let s = a + b + c + d + e + f + g;
    lemma_blank_line_is_last(s);
    let rest = b + c + d + e + f + g + "\r\n"@;
    let head = file_head(ctype, len, etag_of(meta, gzipped), gzipped, keep);
    lemma_append(a, b, c);
    lemma_append(a, b + c, d);
    lemma_append(a, b + c + d, e);
    lemma_append(a, b + c + d + e, f);
    lemma_append(a, b + c + d + e + f, g);
    lemma_append(a, b + c + d + e + f + g, "\r\n"@);
    assert(head == a + rest);
    reveal_strlit("\r\n");
    law_heads_declare_their_length("200 OK"@, ctype, len, rest);
}

/// The answer for a missing file is framed in the same way.
pub proof fn law_missing_files_are_framed(len: nat, keep: bool)
    requires
        len <= usize::MAX,
    ensures
        ({
            let head = missing_head(len, keep);
            &&& seek(head, "\r\n\r\n"@) == Some(head.len() - 4)
            &&& declared_length(head) == len
        }),
{
    let status = "404 Not Found"@;
    let ctype = "text/plain; charset=utf-8"@;
    let a = opening(status, ctype, len);
    let b = connection_lines(keep);
    assert(one_line(status) && !status.contains(':')) by {
        reveal_strlit("404 Not Found");
    }
    assert(one_line(ctype)) by {
        reveal_strlit("text/plain; charset=utf-8");
    }
    lemma_connection_is_whole(keep);
    lemma_opening_is_whole(status, ctype, len);
    lemma_whole_lines_join(a, b);
    lemma_blank_line_is_last(a + b);
    lemma_append(a, b, "\r\n"@);
    reveal_strlit("\r\n");
    law_heads_declare_their_length(status, ctype, len, b + "\r\n"@);
}

proof fn lemma_mime_is_ascii(ext: Seq<char>)
    ensures
        is_ascii_chars(mime_of(ext)),
{
    reveal_strlit("text/html; charset=utf-8");
    reveal_strlit("application/javascript; charset=utf-8");
    reveal_strlit("text/css; charset=utf-8");
    reveal_strlit("application/json; charset=utf-8");
    reveal_strlit("image/svg+xml");
    reveal_strlit("image/png");
    reveal_strlit("image/jpeg");
    reveal_strlit("image/x-icon");
    reveal_strlit("application/manifest+json");
    reveal_strlit("font/woff2");
    reveal_strlit("application/wasm");
    reveal_strlit("text/plain; charset=utf-8");
    reveal_strlit("application/octet-stream");
}

/// Reading what is sent as requests are read gives back each file, whatever bytes it holds: the
/// first message is the whole answer, and no more. The same holds of the answer for a missing file.
pub proof fn law_files_are_taken_whole(
    ext: Seq<char>,
    body: Seq<u8>,
    meta: Option<FileMeta>,
    gzipped: bool,
    keep: bool,
)
    requires
        body.len() <= usize::MAX,
    ensures
        ({
            let head = file_head(mime_of(ext), body.len(), etag_of(meta, gzipped), gzipped, keep);
            message_len(encode_utf8(head) + body) == Some((encode_utf8(head) + body).len() as int)
        }),
        ({
            let head = missing_head(body.len(), keep);
            message_len(encode_utf8(head) + body) == Some((encode_utf8(head) + body).len() as int)
        }),
{
    let ctype = mime_of(ext);
    let len = body.len();
    let a = opening("200 OK"@, ctype, len);
    let b = "Cache-Control: no-cache\r\n"@;
    let c = vary_line(ctype);
    let d = encoding_line(gzipped);
    let e = etag_line(etag_of(meta, gzipped));
    let f = "Access-Control-Allow-Origin: *\r\n"@;
    let g = connection_lines(keep);
    assert(is_ascii_chars("200 OK"@) && is_ascii_chars(b) && is_ascii_chars(f)) by {
        reveal_strlit("200 OK");
        reveal_strlit("Cache-Control: no-cache\r\n");
        reveal_strlit("Access-Control-Allow-Origin: *\r\n");
    }
    lemma_mime_is_ascii(ext);
    lemma_opening_is_ascii("200 OK"@, ctype, len);
    lemma_lines_are_ascii(ctype, gzipped, keep);
    assert(is_ascii_chars(e)) by {
        reveal_strlit("");
        reveal_strlit("ETag: ");
        reveal_strlit("\r\n");
        if let Some(t) = etag_of(meta, gzipped) {
            let m = meta->0;
            lemma_tag_plain(m.modified->0, m.len, gzipped);
            assert(is_ascii_chars(t));
            lemma_ascii_join("ETag: "@, t);
            lemma_ascii_join("ETag: "@ + t, "\r\n"@);
        }
    }
    lemma_ascii_join(a, b);
    lemma_ascii_join(a + b, c);
    lemma_ascii_join(a + b + c, d);
    lemma_ascii_join(a + b + c + d, e);
    lemma_ascii_join(a + b + c + d + e, f);
    lemma_ascii_join(a + b + c + d + e + f, g);
    lemma_ascii_join(a + b + c + d + e + f + g, "\r\n"@);
    law_files_are_framed(ext, len, meta, gzipped, keep);
    lemma_message_is_whole(file_head(ctype, len, etag_of(meta, gzipped), gzipped, keep), body);
    let status = "404 Not Found"@;
    let plain = "text/plain; charset=utf-8"@;
    assert(is_ascii_chars(status) && is_ascii_chars(plain)) by {
        reveal_strlit("404 Not Found");
        reveal_strlit("text/plain; charset=utf-8");
    }
    lemma_opening_is_ascii(status, plain, len);
    lemma_ascii_join(opening(status, plain, len), g);
    lemma_ascii_join(opening(status, plain, len) + g, "\r\n"@);
    law_missing_files_are_framed(len, keep);
    lemma_message_is_whole(missing_head(len, keep), body);
}

/// The answers without a body end at their first blank line, and nothing follows it.
pub proof fn law_bodyless_answers_end_with_their_head(
    meta: FileMeta,
    gz: bool,
    ctype: Seq<char>,
    keep: bool,
)
    requires
        meta.modified is Some,
    ensures
        seek(redirect_text(keep), "\r\n\r\n"@) == Some(redirect_text(keep).len() - 4),
        seek(forbidden_text(keep), "\r\n\r\n"@) == Some(forbidden_text(keep).len() - 4),
        ({
            let head = not_modified_text(etag_of(Some(meta), gz)->0, ctype, keep);
            seek(head, "\r\n\r\n"@) == Some(head.len() - 4)
        }),
{
    let conn = connection_lines(keep);
    lemma_connection_is_whole(keep);
    let a = "HTTP/1.1 301 Moved Permanently\r\nLocation: /ide/\r\nContent-Length: 0\r\n"@;
    assert(whole_lines(a)) by {
        reveal(whole_lines);
        reveal_strlit("HTTP/1.1 301 Moved Permanently\r\nLocation: /ide/\r\nContent-Length: 0\r\n");
    }
    lemma_whole_lines_join(a, conn);
    lemma_blank_line_is_last(a + conn);
    let b = "HTTP/1.1 403 Forbidden\r\nContent-Length: 0\r\n"@;
    assert(whole_lines(b)) by {
        reveal(whole_lines);
        reveal_strlit("HTTP/1.1 403 Forbidden\r\nContent-Length: 0\r\n");
    }
    lemma_whole_lines_join(b, conn);
    lemma_blank_line_is_last(b + conn);
    let tag = etag_of(Some(meta), gz)->0;
    let p = "HTTP/1.1 304 Not Modified\r\nETag: "@;
    let q = "\r\nCache-Control: no-cache\r\n"@;
    let c = p + tag + q;
    assert(whole_lines(c)) by {
        reveal(whole_lines);
        reveal_strlit("HTTP/1.1 304 Not Modified\r\nETag: ");
        reveal_strlit("\r\nCache-Control: no-cache\r\n");
        lemma_tag_plain(meta.modified->0, meta.len, gz);
        assert forall|i: int| 0 <= i < c.len() && #[trigger] c[i] == '\n' implies i == 26 || i
            == p.len() + tag.len() + 1 || i == c.len() - 1 by {
            if i < p.len() {
                assert(c[i] == p[i]);
            } else if i < p.len() + tag.len() {
                assert(c[i] == tag[i - p.len()]);
            } else {
                assert(c[i] == q[i - p.len() - tag.len()]);
            }
        }
    }
    let d = vary_line(ctype);
    let e = "Access-Control-Allow-Origin: *\r\n"@;
    lemma_vary_is_whole(ctype);
    lemma_no_cache_is_whole();
    lemma_whole_lines_join(c, d);
    lemma_whole_lines_join(c + d, e);
    lemma_whole_lines_join(c + d + e, conn);
    lemma_blank_line_is_last(c + d + e + conn);
    reveal_strlit("\r\n");
}

proof fn lemma_last_dot(stem: Seq<char>, ext: Seq<char>)
    requires
        !ext.contains('.'),
    ensures
        last_dot(stem + seq!['.'] + ext) == stem.len(),
        last_dot(ext) == -1,
    decreases ext.len(),
{
    let s = stem + seq!['.'] + ext;
    if ext.len() > 0 {
        let less = ext.drop_last();
        assert(ext.contains(ext[ext.len() - 1]));
        assert(s.last() == ext.last());
        assert(s.drop_last() =~= stem + seq!['.'] + less);
        assert(!less.contains('.')) by {
            assert forall|i: int| 0 <= i < less.len() implies less[i] != '.' by {
                assert(ext.contains(ext[i]));
            }
        }
        lemma_last_dot(stem, less);
    }
}

/// The extension is what follows the last dot of the file's name, whatever the directories on the
/// way are called; a name without a dot, or with its only dot in front, has none.
pub proof fn law_extensions_follow_the_last_dot(dir: Seq<char>, stem: Seq<char>, ext: Seq<char>)
    requires
        dir.len() > 0 ==> dir.last() == '/',
        stem.len() > 0,
        !stem.contains('/'),
        ext.len() > 0,
        !ext.contains('/'),
        !ext.contains('.'),
    ensures
        extension(dir + (stem + seq!['.'] + ext)) == ext,
        extension(dir + ext).len() == 0,
        extension(dir + (seq!['.'] + ext)).len() == 0,
{
    reveal_strlit(".");
    reveal_strlit("..");
    let name = stem + seq!['.'] + ext;
    let hidden = seq!['.'] + ext;
    let none = Seq::<char>::empty();
    assert(!name.contains('/')) by {
        assert forall|i: int| 0 <= i < name.len() implies name[i] != '/' by {
            if i < stem.len() {
                assert(stem.contains(stem[i]));
            } else if i > stem.len() {
                assert(ext.contains(ext[i - stem.len() - 1]));
            }
        }
    }
    assert(!hidden.contains('/')) by {
        assert forall|i: int| 0 <= i < hidden.len() implies hidden[i] != '/' by {
            if i > 0 {
                assert(ext.contains(ext[i - 1]));
            }
        }
    }
    lemma_last_part(dir, name);
    lemma_last_part(dir, ext);
    lemma_last_part(dir, hidden);
    lemma_last_dot(stem, ext);
    lemma_last_dot(none, ext);
    assert(none + seq!['.'] + ext =~= hidden);
    assert(ext.contains(ext[ext.len() - 1]));
    assert(name.last() == ext.last() && hidden.last() == ext.last());
    assert(name != ".."@ && name != "."@);
    assert(hidden != ".."@ && hidden != "."@);
    assert(ext != ".."@ && ext != "."@);
    assert(name.skip(stem.len() as int + 1) =~= ext);
}

proof fn lemma_last_part(dir: Seq<char>, name: Seq<char>)
    requires
        dir.len() > 0 ==> dir.last() == '/',
        !name.contains('/'),
    ensures
        fields(dir + name, '/').len() > 0,
        fields(dir + name, '/').last() == name,
{
    lemma_fields_join(dir, name, '/');
    law_separators_cut(name, '/', name);
}

/// The content types of a bundle: what a browser runs, shows or reads goes out as what it is, and
/// everything else as bytes.
pub proof fn law_types_go_by_extension(ext: Seq<char>)
    ensures
        mime_of("html"@) == "text/html; charset=utf-8"@,
        mime_of("css"@) == "text/css; charset=utf-8"@,
        mime_of("js"@) == "application/javascript; charset=utf-8"@,
        mime_of("mjs"@) == mime_of("js"@),
        mime_of("json"@) == "application/json; charset=utf-8"@,
        mime_of("map"@) == mime_of("json"@),
        mime_of("svg"@) == "image/svg+xml"@,
        mime_of("png"@) == "image/png"@,
        mime_of("jpg"@) == "image/jpeg"@,
        mime_of("jpeg"@) == mime_of("jpg"@),
        mime_of("ico"@) == "image/x-icon"@,
        mime_of("webmanifest"@) == "application/manifest+json"@,
        mime_of("woff2"@) == "font/woff2"@,
        mime_of("wasm"@) == "application/wasm"@,
        mime_of("md"@) == "text/plain; charset=utf-8"@,
        mime_of("txt"@) == mime_of("md"@),
        mime_of(ext) == "application/octet-stream"@ || ext == "html"@ || ext == "css"@ || ext
            == "js"@ || ext == "mjs"@ || ext == "json"@ || ext == "map"@ || ext == "svg"@ || ext
            == "png"@ || ext == "jpg"@ || ext == "jpeg"@ || ext == "ico"@ || ext == "webmanifest"@
            || ext == "woff2"@ || ext == "wasm"@ || ext == "md"@ || ext == "txt"@,
{
    reveal_strlit("html");
    reveal_strlit("css");
    reveal_strlit("js");
    reveal_strlit("mjs");
    reveal_strlit("json");
    reveal_strlit("map");
    reveal_strlit("svg");
    reveal_strlit("png");
    reveal_strlit("jpg");
    reveal_strlit("jpeg");
    reveal_strlit("ico");
    reveal_strlit("webmanifest");
    reveal_strlit("woff2");
    reveal_strlit("wasm");
    reveal_strlit("md");
    reveal_strlit("txt");
    assert("html"@[0] == 'h' && "json"@[0] == 'j' && "json"@[1] == 's' && "jpeg"@[0] == 'j'
        && "jpeg"@[1] == 'p' && "wasm"@[0] == 'w');
    assert("css"@[0] == 'c' && "mjs"@[0] == 'm' && "mjs"@[1] == 'j' && "map"@[0] == 'm'
        && "map"@[1] == 'a' && "svg"@[0] == 's' && "png"@[0] == 'p' && "jpg"@[0] == 'j'
        && "ico"@[0] == 'i' && "txt"@[0] == 't');
    assert("js"@[0] == 'j' && "md"@[0] == 'm');
    assert("html"@.len() == 4 && "js"@.len() == 2 && "css"@.len() == 3 && "webmanifest"@.len() == 11
        && "woff2"@.len() == 5);
}

/// What follows `/ide/` names the file, and nothing names the page of the bundle.
pub proof fn law_paths_name_files(rel: Seq<char>)
    ensures
        rel.len() > 0 && !"/ide/"@.is_prefix_of(rel) ==> file_named("/ide/"@ + rel) == rel,
        file_named("/ide/"@) == "index.html"@,
        file_named("/ide/"@ + rel) == file_named("/ide/"@ + ("/ide/"@ + rel)),
{
    reveal_strlit("/ide/");
    lemma_below(rel);
    lemma_below("/ide/"@ + rel);
    let none = Seq::<char>::empty();
    lemma_below(none);
    assert("/ide/"@ + none =~= "/ide/"@);
    assert(rel.len() >= 5 ==> rel.subrange(0, 5) =~= rel.take(5));
}

proof fn lemma_below(rel: Seq<char>)
    ensures
        below_ide("/ide/"@ + rel) == below_ide(rel),
        below_ide(Seq::<char>::empty()).len() == 0,
{
    reveal_strlit("/ide/");
    let s = "/ide/"@ + rel;
    assert(s.take(5) =~= "/ide/"@);
    assert(s.skip(5) =~= rel);
}

/// A path leads out of the bundle exactly if one of its parts is two dots, or it begins at the root:
/// dots within a name do not.
pub proof fn law_what_leaves_the_bundle(dir: Seq<char>, rest: Seq<char>, rel: Seq<char>)
    requires
        dir.len() > 0 ==> dir.last() == '/',
        rest.len() > 0 ==> rest[0] == '/',
    ensures
        escapes(dir + ".."@ + rest),
        rel.len() > 0 && rel[0] == '/' ==> escapes(rel),
        escapes(rel) && !(rel.len() > 0 && rel[0] == '/') ==> exists|i: int|
            {
                &&& 0 <= i
                &&& i + 2 <= rel.len()
                &&& #[trigger] rel.subrange(i, i + 2) == ".."@
                &&& i == 0 || rel[i - 1] == '/'
                &&& i + 2 == rel.len() || rel[i + 2] == '/'
            },
{
    reveal_strlit("..");
    let up = ".."@;
    let tail = up + rest;
    assert(!up.contains('/'));
    assert(dir + up + rest =~= dir + tail);
    lemma_fields_join(dir, tail, '/');
    if rest.len() > 0 {
        assert(tail =~= up + seq!['/'] + rest.skip(1));
        law_separators_cut(up, '/', rest.skip(1));
    } else {
        assert(tail =~= up);
        law_separators_cut(up, '/', rest);
    }
    let all = fields(dir + tail, '/');
    let k = fields(dir, '/').len() - 1;
    assert(fields(tail, '/')[0] == up);
    assert(all[k] == up);
    if escapes(rel) && !(rel.len() > 0 && rel[0] == '/') {
        let parts = fields(rel, '/');
        let j = parts.index_of(up);
        let p = lemma_field_stands(rel, '/', j);
        assert(rel.subrange(p, p + 2) == up);
    }
}

/// A file goes out compressed exactly if it has a kilobyte or more, is of a type that shrinks, and
/// the client takes gzip; of a file that nothing is known of nothing is assumed.
pub proof fn law_which_files_are_compressed(rel: Seq<char>, req: Seq<char>, meta: FileMeta)
    ensures
        sends_gzip(rel, req, Some(meta)) <==> meta.len >= 1024 && is_compressible(
            mime_of(extension(rel)),
        ) && takes_gzip(req),
        !sends_gzip(rel, req, None),
{
}

/// A client that lists the validator of what it would be sent, among whatever others, holds it; one
/// that sends none, or a file without a time, is always sent anew.
pub proof fn law_listed_validators_are_honoured(
    rel: Seq<char>,
    req: Seq<char>,
    meta: FileMeta,
    modified: u64,
    a: Seq<char>,
    pad: Seq<char>,
    end: Seq<char>,
    b: Seq<char>,
)
    requires
        meta.modified == Some(modified),
        entry_begins(a),
        blank(pad),
        blank(end),
        entry_ends(b),
        header_of(req, "if-none-match"@) == Some(
            a + (pad + tag_text(modified, meta.len, sends_gzip(rel, req, Some(meta))) + end) + b,
        ),
    ensures
        is_current(rel, req, Some(meta)),
        !is_current(rel, req, None),
        !is_current(rel, req, Some(FileMeta { len: meta.len, modified: None })),
{
    let gz = sends_gzip(rel, req, Some(meta));
    let tag = tag_text(modified, meta.len, gz);
    lemma_tag_plain(modified, meta.len, gz);
    assert(!tag.contains(','));
    assert(snug(tag));
    law_lists_list_their_entries(a, pad, tag, end, b, tag);
}

/// A validator is the time and the size in hexadecimal, between quotation marks; that of the
/// compressed form is told apart by its ending.
pub proof fn law_validators_name_time_and_size(modified: u64, len: u64, gz: bool)
    ensures
        ({
            let t = tag_text(modified, len, gz);
            let inner = t.subrange(1, t.len() - 1);
            &&& t.len() >= 2 && t[0] == '"' && t.last() == '"'
            &&& fields(inner, '-')[0] == hex(modified as nat)
            &&& fields(inner, '-')[1] == hex(len as nat)
            &&& fields(inner, '-').len() == (if gz {
                3int
            } else {
                2
            })
        }),
        etag_of(Some(FileMeta { len, modified: Some(modified) }), gz) == Some(
            tag_text(modified, len, gz),
        ),
        etag_of(Some(FileMeta { len, modified: None }), gz) is None,
        etag_of(None, gz) is None,
{
    reveal_strlit("\"");
    reveal_strlit("-");
    reveal_strlit("-gz");
    reveal_strlit("");
    let a = hex(modified as nat);
    let b = hex(len as nat);
    lemma_hex_plain(modified as nat);
    lemma_hex_plain(len as nat);
    let t = tag_text(modified, len, gz);
    let inner = t.subrange(1, t.len() - 1);
    assert(!a.contains('-'));
    assert(!b.contains('-'));
    if gz {
        let g = seq!['g', 'z'];
        assert(inner =~= a + seq!['-'] + (b + seq!['-'] + g));
        law_separators_cut(a, '-', b + seq!['-'] + g);
        law_separators_cut(b, '-', g);
        law_separators_cut(g, '-', g);
    } else {
        assert(inner =~= a + seq!['-'] + b);
        law_separators_cut(a, '-', b);
        law_separators_cut(b, '-', b);
    }
}

/// A file says of itself what it is: success, its type and its length always, that it is gzip
/// exactly if it is, its validator exactly if it has one, that it must be asked about again, that
/// any origin may read it, and what becomes of the connection.
pub proof fn law_files_say_what_they_are(
    ext: Seq<char>,
    len: nat,
    meta: Option<FileMeta>,
    gzipped: bool,
    keep: bool,
    tag: Seq<char>,
)
    ensures
        ({
            let head = file_head(mime_of(ext), len, etag_of(meta, gzipped), gzipped, keep);
            &&& has_line(head, "HTTP/1.1 200 OK"@)
            &&& has_line(head, "Content-Type: "@ + mime_of(ext))
            &&& has_line(head, "Content-Length: "@ + decimal(len))
            &&& has_line(head, "Cache-Control: no-cache"@)
            &&& has_line(head, "Access-Control-Allow-Origin: *"@)
            &&& has_line(head, "Content-Encoding: gzip"@) == gzipped
            &&& has_line(head, "Vary: Accept-Encoding"@) == is_compressible(mime_of(ext))
            &&& has_line(head, "ETag: "@ + tag) == (etag_of(meta, gzipped) == Some(tag))
            &&& has_line(head, "Connection: keep-alive"@) == keep
            &&& has_line(head, "Connection: close"@) == !keep
        }),
{
    reveal_strlit("HTTP/1.1 ");
    reveal_strlit("200 OK");
    reveal_strlit("HTTP/1.1 200 OK");
    assert("HTTP/1.1 "@ + "200 OK"@ =~= "HTTP/1.1 200 OK"@);
    let ctype = mime_of(ext);
    lemma_file_has(ext, len, meta, gzipped, keep, "HTTP/1.1 200 OK"@);
    lemma_file_has(ext, len, meta, gzipped, keep, "Content-Type: "@ + ctype);
    lemma_file_has(ext, len, meta, gzipped, keep, "Content-Length: "@ + decimal(len));
    lemma_file_has(ext, len, meta, gzipped, keep, "Cache-Control: no-cache"@);
    lemma_file_has(ext, len, meta, gzipped, keep, "Access-Control-Allow-Origin: *"@);
    lemma_file_has(ext, len, meta, gzipped, keep, "Content-Encoding: gzip"@);
    lemma_file_has(ext, len, meta, gzipped, keep, "Vary: Accept-Encoding"@);
    lemma_file_has(ext, len, meta, gzipped, keep, "Connection: keep-alive"@);
    lemma_file_has(ext, len, meta, gzipped, keep, "Connection: close"@);
    lemma_file_has(ext, len, meta, gzipped, keep, "ETag: "@ + tag);
    lemma_file_lines_differ(ctype, len, tag);
    if let Some(t) = etag_of(meta, gzipped) {
        lemma_file_lines_differ(ctype, len, t);
        reveal_strlit("ETag: ");
        assert(("ETag: "@ + t).skip(6) =~= t);
        assert(("ETag: "@ + tag).skip(6) =~= tag);
    }
}

proof fn lemma_file_lines_differ(ctype: Seq<char>, len: nat, tag: Seq<char>)
    ensures
        ({
            let kind = "Content-Type: "@ + ctype;
            let size = "Content-Length: "@ + decimal(len);
            let mark = "ETag: "@ + tag;
            &&& "HTTP/1.1 "@[0] == 'H' && "HTTP/1.1 "@.len() == 9
            &&& kind.len() > 8 && kind[0] == 'C' && kind[1] == 'o' && kind[3] == 't' && kind[8] == 'T'
            &&& size.len() > 8 && size[0] == 'C' && size[1] == 'o' && size[3] == 't' && size[8] == 'L'
            &&& mark.len() > 0 && mark[0] == 'E'
            &&& "Cache-Control: no-cache"@[0] == 'C' && "Cache-Control: no-cache"@[1] == 'a'
            &&& "Vary: Accept-Encoding"@[0] == 'V' && "Vary: Accept-Encoding"@.len() > 0
            &&& "Content-Encoding: gzip"@[0] == 'C' && "Content-Encoding: gzip"@[1] == 'o'
            &&& "Content-Encoding: gzip"@[3] == 't' && "Content-Encoding: gzip"@[8] == 'E'
            &&& "Content-Encoding: gzip"@.len() > 8
            &&& "Access-Control-Allow-Origin: *"@[0] == 'A'
            &&& "Connection: keep-alive"@[0] == 'C' && "Connection: keep-alive"@[1] == 'o'
            &&& "Connection: keep-alive"@[3] == 'n' && "Connection: keep-alive"@.len() == 22
            &&& "Connection: close"@[0] == 'C' && "Connection: close"@[1] == 'o'
            &&& "Connection: close"@[3] == 'n' && "Connection: close"@.len() == 17
            &&& "Keep-Alive: timeout=15"@[0] == 'K'
            &&& ("HTTP/1.1 "@ + "200 OK"@)[0] == 'H'
        }),
{
    reveal_strlit("HTTP/1.1 ");
    reveal_strlit("Content-Type: ");
    reveal_strlit("Content-Length: ");
    reveal_strlit("ETag: ");
    reveal_strlit("Cache-Control: no-cache");
    reveal_strlit("Vary: Accept-Encoding");
    reveal_strlit("Content-Encoding: gzip");
    reveal_strlit("Access-Control-Allow-Origin: *");
    reveal_strlit("Connection: keep-alive");
    reveal_strlit("Connection: close");
    reveal_strlit("Keep-Alive: timeout=15");
}

proof fn lemma_file_has(
    ext: Seq<char>,
    len: nat,
    meta: Option<FileMeta>,
    gzipped: bool,
    keep: bool,
    x: Seq<char>,
)
    ensures
        ({
            let ctype = mime_of(ext);
            let tag = etag_of(meta, gzipped);
            has_line(file_head(ctype, len, tag, gzipped, keep), x) == {
                ||| x == "HTTP/1.1 "@ + "200 OK"@
                ||| x == "Content-Type: "@ + ctype
                ||| x == "Content-Length: "@ + decimal(len)
                ||| x == "Cache-Control: no-cache"@
                ||| is_compressible(ctype) && x == "Vary: Accept-Encoding"@
                ||| gzipped && x == "Content-Encoding: gzip"@
                ||| tag is Some && x == "ETag: "@ + tag->0
                ||| x == "Access-Control-Allow-Origin: *"@
                ||| keep && (x == "Connection: keep-alive"@ || x == "Keep-Alive: timeout=15"@)
                ||| !keep && x == "Connection: close"@
                ||| x.len() == 0
            }
        }),
{
    let ctype = mime_of(ext);
    let tag = etag_of(meta, gzipped);
    let a = opening("200 OK"@, ctype, len);
    let b = "Cache-Control: no-cache\r\n"@;
    let c = vary_line(ctype);
    let d = encoding_line(gzipped);
    let e = etag_line(tag);
    let f = "Access-Control-Allow-Origin: *\r\n"@;
    let g = connection_lines(keep);
    assert(one_line("200 OK"@)) by {
        reveal_strlit("200 OK");
    }
    lemma_mime_is_one_line(ext);
    lemma_opening_lines("200 OK"@, ctype, len, x);
    lemma_pieces("200 OK"@, ctype, "/fleet"@, false, gzipped, x);
    lemma_connection_pieces(keep, x);
    lemma_etag_lines(meta, gzipped, x);
    assert(has_line(b, x) == (x == "Cache-Control: no-cache"@)) by {
        reveal_strlit("Cache-Control: no-cache\r\n");
        reveal_strlit("Cache-Control: no-cache");
        reveal_strlit("\r\n");
        assert(b =~= "Cache-Control: no-cache"@ + "\r\n"@);
        lemma_line_alone("Cache-Control: no-cache"@, x);
    }
    assert(has_line("\r\n"@, x) == (x.len() == 0)) by {
        reveal_strlit("\r\n");
        let none = Seq::<char>::empty();
        assert(none + "\r\n"@ =~= "\r\n"@);
        lemma_line_alone(none, x);
        assert(x.len() == 0 ==> x =~= none);
    }
    lemma_no_cache_is_whole();
    lemma_vary_is_whole(ctype);
    lemma_encoding_is_whole(gzipped);
    lemma_etag_is_whole(meta, gzipped);
    lemma_connection_is_whole(keep);
    lemma_ends_join(a, b);
    lemma_ends_join(a + b, c);
    lemma_ends_join(a + b + c, d);
    lemma_ends_join(a + b + c + d, e);
    lemma_ends_join(a + b + c + d + e, f);
    lemma_ends_join(a + b + c + d + e + f, g);
    lemma_line_in_both(a, b, x);
    lemma_line_in_both(a + b, c, x);
    lemma_line_in_both(a + b + c, d, x);
    lemma_line_in_both(a + b + c + d, e, x);
    lemma_line_in_both(a + b + c + d + e, f, x);
    lemma_line_in_both(a + b + c + d + e + f, g, x);
    lemma_line_in_both(a + b + c + d + e + f + g, "\r\n"@, x);
}

proof fn lemma_etag_lines(meta: Option<FileMeta>, gz: bool, x: Seq<char>)
    ensures
        has_line(etag_line(etag_of(meta, gz)), x) == (etag_of(meta, gz) is Some && x == "ETag: "@
            + etag_of(meta, gz)->0),
{
    reveal_strlit("");
    reveal_strlit("ETag: ");
    match etag_of(meta, gz) {
        Some(t) => {
            let m = meta->0;
            lemma_tag_plain(m.modified->0, m.len, gz);
            let line = "ETag: "@ + t;
            assert forall|i: int| 0 <= i < line.len() implies line[i] != '\n' && line[i] != '\r' by {
                if i >= 6 {
                    assert(line[i] == t[i - 6]);
                }
            }
            lemma_line_alone(line, x);
        },
        None => {
            assert(""@ =~= Seq::<char>::empty());
        },
    }
}

/// The answers without a body say why: the directory's path is pointed to, a path out of the bundle
/// is forbidden, and a copy that is still good is confirmed with its validator.
pub proof fn law_bodyless_answers_say_why(meta: FileMeta, gz: bool, ctype: Seq<char>, keep: bool)
    requires
        meta.modified is Some,
    ensures
        has_line(redirect_text(keep), "HTTP/1.1 301 Moved Permanently"@),
        has_line(redirect_text(keep), "Location: /ide/"@),
        has_line(forbidden_text(keep), "HTTP/1.1 403 Forbidden"@),
        has_line(
            not_modified_text(etag_of(Some(meta), gz)->0, ctype, keep),
            "HTTP/1.1 304 Not Modified"@,
        ),
        has_line(
            not_modified_text(etag_of(Some(meta), gz)->0, ctype, keep),
            "ETag: "@ + etag_of(Some(meta), gz)->0,
        ),
{
    reveal_strlit("\r\n");
    reveal_strlit("HTTP/1.1 301 Moved Permanently");
    reveal_strlit("Location: /ide/");
    reveal_strlit("HTTP/1.1 301 Moved Permanently\r\nLocation: /ide/\r\nContent-Length: 0\r\n");
    reveal_strlit("Content-Length: 0\r\n");
    reveal_strlit("HTTP/1.1 403 Forbidden");
    reveal_strlit("HTTP/1.1 403 Forbidden\r\nContent-Length: 0\r\n");
    reveal_strlit("HTTP/1.1 304 Not Modified");
    reveal_strlit("HTTP/1.1 304 Not Modified\r\nETag: ");
    reveal_strlit("ETag: ");
    reveal_strlit("\r\nCache-Control: no-cache\r\n");
    reveal_strlit("Cache-Control: no-cache\r\n");
    let end = connection_lines(keep) + "\r\n"@;
    let l1 = "HTTP/1.1 301 Moved Permanently"@;
    let l2 = "Location: /ide/"@;
    let r1 = "Content-Length: 0\r\n"@ + end;
    assert(redirect_text(keep) =~= l1 + "\r\n"@ + (l2 + "\r\n"@ + r1));
    lemma_leading_line(l1, l2 + "\r\n"@ + r1);
    lemma_leading_line(l2, r1);
    lemma_later_line(l1, l2 + "\r\n"@ + r1, l2);
    let l3 = "HTTP/1.1 403 Forbidden"@;
    assert(forbidden_text(keep) =~= l3 + "\r\n"@ + r1);
    lemma_leading_line(l3, r1);
    let tag = etag_of(Some(meta), gz)->0;
    lemma_tag_plain(meta.modified->0, meta.len, gz);
    let l4 = "HTTP/1.1 304 Not Modified"@;
    let l5 = "ETag: "@ + tag;
    assert forall|i: int| 0 <= i < l5.len() implies l5[i] != '\n' by {
        if i >= 6 {
            assert(l5[i] == tag[i - 6]);
        }
    }
    let r2 = "Cache-Control: no-cache\r\n"@ + vary_line(ctype) + "Access-Control-Allow-Origin: *\r\n"@
        + connection_lines(keep) + "\r\n"@;
    assert(not_modified_text(tag, ctype, keep) =~= l4 + "\r\n"@ + (l5 + "\r\n"@ + r2));
    lemma_leading_line(l4, l5 + "\r\n"@ + r2);
    lemma_leading_line(l5, r2);
    lemma_later_line(l4, l5 + "\r\n"@ + r2, l5);
}

proof fn lemma_leading_line(line: Seq<char>, rest: Seq<char>)
    requires
        !line.contains('\n'),
    ensures
        has_line(line + "\r\n"@ + rest, line),
{
    law_line_feeds_end_lines(line, rest);
    assert((seq![line] + line_seq(rest))[0] == line);
}

proof fn lemma_later_line(line: Seq<char>, rest: Seq<char>, x: Seq<char>)
    requires
        !line.contains('\n'),
        has_line(rest, x),
    ensures
        has_line(line + "\r\n"@ + rest, x),
{
    law_line_feeds_end_lines(line, rest);
    let k = line_seq(rest).index_of(x);
    assert((seq![line] + line_seq(rest))[k + 1] == x);
}

/// A file that is not there is not found, as plain text, whether or not the bundle is installed;
/// which of the two it is, the text tells.
pub proof fn law_missing_files_are_not_found(len: nat, keep: bool)
    ensures
        has_line(missing_head(len, keep), "HTTP/1.1 404 Not Found"@),
        has_line(missing_head(len, keep), "Content-Type: text/plain; charset=utf-8"@),
        missing_body(true) == "not found"@,
        missing_body(true) != missing_body(false),
{
    reveal_strlit("HTTP/1.1 ");
    reveal_strlit("404 Not Found");
    reveal_strlit("HTTP/1.1 404 Not Found");
    reveal_strlit("Content-Type: ");
    reveal_strlit("text/plain; charset=utf-8");
    reveal_strlit("Content-Type: text/plain; charset=utf-8");
    reveal_strlit("not found");
    reveal_strlit(
        "IDE bundle not installed — run deploy/install.sh (needs internet), or place better-robotics/ide's built dist at /usr/share/hub/ide",
    );
    let a = opening("404 Not Found"@, "text/plain; charset=utf-8"@, len);
    let rest = connection_lines(keep) + "\r\n"@;
    assert(missing_head(len, keep) =~= a + rest);
    let l1 = "HTTP/1.1 404 Not Found"@;
    let l2 = "Content-Type: text/plain; charset=utf-8"@;
    assert("HTTP/1.1 "@ + "404 Not Found"@ =~= l1);
    assert("Content-Type: "@ + "text/plain; charset=utf-8"@ =~= l2);
    lemma_opening_lines("404 Not Found"@, "text/plain; charset=utf-8"@, len, l1);
    lemma_opening_lines("404 Not Found"@, "text/plain; charset=utf-8"@, len, l2);
    lemma_line_in_both(a, rest, l1);
    lemma_line_in_both(a, rest, l2);
    assert(missing_body(true).len() == 9);
    assert(missing_body(false)[0] == 'I');
}

/// The bundle's own path is pointed to its directory, a path that leads out is forbidden, and every
/// other path is the file it names; a query does not matter.
pub proof fn law_paths_are_opened(raw: &str, path: Seq<char>, query: Seq<char>, t: Target)
    requires
        call_ensures(ide_target, (raw,), t),
        raw@ == path || raw@ == path + seq!['?'] + query,
        !path.contains('?'),
    ensures
        t is Redirect <==> path == "/ide"@,
        t is Forbidden <==> path != "/ide"@ && escapes(file_named(path)),
        t is File ==> t->File_0@ == file_named(path),
{
    law_separators_cut(path, '?', query);
}

} // verus!
