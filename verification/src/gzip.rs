//! Compressed bodies, and the memory of those that were compressed before.
use vstd::prelude::*;

use crate::text::same;

verus! {

/// Bodies below this size are sent as they are: they fit one segment anyway.
pub const GZIP_MIN: usize = 1024;

/// What `flate2`'s gzip encoder makes of bytes at its default level; `None` where it fails.
pub uninterp spec fn gzipped(bytes: Seq<u8>) -> Option<Seq<u8>>;

/// `flate2::write::GzEncoder` over a `Vec`, at `Compression::default()`: its output depends on the
/// bytes alone (the header carries no time and no system), and has a name.
#[verifier::external_body]
fn encode(bytes: &[u8]) -> (r: Option<Vec<u8>>)
    ensures
        match r {
            Some(gz) => gzipped(bytes@) == Some(gz@),
            None => gzipped(bytes@) is None,
        },
{
    let mut e = flate2::write::GzEncoder::new(Vec::new(), flate2::Compression::default());
    match std::io::Write::write_all(&mut e, bytes) {
        Ok(_) => e.finish().ok(),
        Err(_) => None,
    }
}

/// Compresses a body.
pub fn compress(body: &[u8]) -> (r: Option<Vec<u8>>)
    ensures
        match r {
            Some(gz) => gzipped(body@) == Some(gz@),
            None => gzipped(body@) is None,
        },
{
    encode(body)
}

/// Compressed bodies under the keys of what they were made of.
pub struct GzCache {
    entries: Vec<(String, Vec<u8>)>,
}

/// The map that entries stand for: a later entry replaces an earlier one under its key.
spec fn as_map(entries: Seq<(String, Vec<u8>)>) -> Map<Seq<char>, Seq<u8>>
    decreases entries.len(),
{
    if entries.len() == 0 {
        Map::empty()
    } else {
        as_map(entries.drop_last()).insert(entries.last().0@, entries.last().1@)
    }
}

/// What is to be sent for a body, and whether that is gzip: what the cache has under the key, or
/// what compressing gives, or the body itself.
pub open spec fn outcome(
    cache: Map<Seq<char>, Seq<u8>>,
    key: Option<Seq<char>>,
    body: Seq<u8>,
) -> (Seq<u8>, bool) {
    match key {
        Some(k) if cache.contains_key(k) => (cache[k], true),
        _ => match gzipped(body) {
            Some(gz) => (gz, true),
            None => (body, false),
        },
    }
}

/// The cache afterwards: what was compressed under a key is remembered.
pub open spec fn remembered(
    cache: Map<Seq<char>, Seq<u8>>,
    key: Option<Seq<char>>,
    body: Seq<u8>,
) -> Map<Seq<char>, Seq<u8>> {
    match (key, gzipped(body)) {
        (Some(k), Some(gz)) if !cache.contains_key(k) => cache.insert(k, gz),
        _ => cache,
    }
}

/// The text of a key.
pub open spec fn key_text(key: Option<String>) -> Option<Seq<char>> {
    match key {
        Some(k) => Some(k@),
        None => None,
    }
}

impl GzCache {
    pub closed spec fn view(&self) -> Map<Seq<char>, Seq<u8>> {
        as_map(self.entries@)
    }

    pub fn new() -> (c: GzCache)
        ensures
            c@ == Map::<Seq<char>, Seq<u8>>::empty(),
    {
        GzCache { entries: Vec::new() }
    }

    /// What was compressed under the key. Without a key nothing is remembered: the only safe
    /// answer for a body that is computed anew for each request.
    pub fn lookup(&self, key: &Option<String>) -> (r: Option<Vec<u8>>)
        ensures
            match r {
                Some(gz) => key_text(*key) matches Some(k) && self@.contains_key(k) && self@[k]
                    == gz@,
                None => key_text(*key) matches Some(k) ==> !self@.contains_key(k),
            },
    {
        let k = match key {
            Some(k) => k,
            None => {
                return None;
            },
        };
        let mut i: usize = self.entries.len();
        assert(self.entries@.take(i as int) =~= self.entries@);
        while i > 0
            invariant
                i <= self.entries@.len(),
                key_text(*key) == Some(k@),
                self@.contains_key(k@) == as_map(self.entries@.take(i as int)).contains_key(k@),
                self@.contains_key(k@) ==> self@[k@] == as_map(self.entries@.take(i as int))[k@],
            decreases i,
        {
            let ghost t = self.entries@.take(i as int);
            assert(t.drop_last() =~= self.entries@.take(i - 1));
            assert(t.last() == self.entries@[i - 1]);
            let e = &self.entries[i - 1];
            if same(e.0.as_str(), k.as_str()) {
                let gz = vstd::slice::slice_to_vec(e.1.as_slice());
                return Some(gz);
            }
            i -= 1;
        }
        None
    }

    /// Takes in what compressing a body gave, and decides what is sent. Where it gave nothing, the
    /// body goes out as it is: the flag says what happened, not what was meant to.
    pub fn settle(&mut self, key: Option<String>, body: Vec<u8>, out: Option<Vec<u8>>) -> (r: (
        Vec<u8>,
        bool,
    ))
        ensures
            match out {
                Some(gz) => {
                    &&& r.0@ == gz@
                    &&& r.1
                    &&& final(self)@ == match key_text(key) {
                        Some(k) => old(self)@.insert(k, gz@),
                        None => old(self)@,
                    }
                },
                None => {
                    &&& r.0@ == body@
                    &&& !r.1
                    &&& final(self)@ == old(self)@
                },
            },
    {
        match out {
            Some(gz) => {
                match key {
                    Some(k) => {
                        let copy = vstd::slice::slice_to_vec(gz.as_slice());
                        let ghost before = self.entries@;
                        self.entries.push((k, copy));
                        assert(self.entries@.drop_last() =~= before);
                    },
                    None => {},
                }
                (gz, true)
            },
            None => (body, false),
        }
    }

    /// Compresses a body, or finds it compressed already, or hands it back as it is.
    pub fn gzip_body(&mut self, key: Option<String>, body: Vec<u8>) -> (r: (Vec<u8>, bool))
        ensures
            (r.0@, r.1) == outcome(old(self)@, key_text(key), body@),
            final(self)@ == remembered(old(self)@, key_text(key), body@),
    {
        match self.lookup(&key) {
            Some(gz) => {
                return (gz, true);
            },
            None => {},
        }
        let out = compress(body.as_slice());
        self.settle(key, body, out)
    }
}

// ---- Laws ----

/// Everything in the cache is gzip of what its key stands for.
pub open spec fn faithful(
    cache: Map<Seq<char>, Seq<u8>>,
    content: spec_fn(Seq<char>) -> Seq<u8>,
) -> bool {
    forall|k: Seq<char>| #[trigger]
        cache.contains_key(k) ==> gzipped(content(k)) == Some(cache[k])
}

/// A cache that nothing was put into is faithful.
pub proof fn law_a_new_cache_is_faithful(content: spec_fn(Seq<char>) -> Seq<u8>)
    ensures
        faithful(Map::empty(), content),
{
}

/// Taking in what compressing the content of a key gave keeps the cache faithful, also where the
/// key was filled in the meantime.
pub proof fn law_settling_keeps_faith(
    cache: Map<Seq<char>, Seq<u8>>,
    content: spec_fn(Seq<char>) -> Seq<u8>,
    k: Seq<char>,
    gz: Seq<u8>,
)
    requires
        faithful(cache, content),
        gzipped(content(k)) == Some(gz),
    ensures
        faithful(cache.insert(k, gz), content),
{
}

/// Where a key always stands for the same content, the cache changes nothing of what is sent, and
/// it stays faithful.
pub proof fn law_the_cache_is_invisible(
    cache: Map<Seq<char>, Seq<u8>>,
    content: spec_fn(Seq<char>) -> Seq<u8>,
    k: Seq<char>,
)
    requires
        faithful(cache, content),
    ensures
        outcome(cache, Some(k), content(k)) == outcome(Map::empty(), None, content(k)),
        faithful(remembered(cache, Some(k), content(k)), content),
{
}

/// The flag never claims gzip over plain bytes: what goes out flagged is gzip of the content, and
/// what goes out unflagged, because it could not be compressed, is the content. What was compressed
/// under a key is remembered, and nothing else is.
pub proof fn law_the_flag_is_true(
    cache: Map<Seq<char>, Seq<u8>>,
    content: spec_fn(Seq<char>) -> Seq<u8>,
    k: Seq<char>,
)
    requires
        faithful(cache, content),
    ensures
        ({
            let (sent, flagged) = outcome(cache, Some(k), content(k));
            &&& flagged == (gzipped(content(k)) is Some)
            &&& if flagged {
                gzipped(content(k)) == Some(sent)
            } else {
                sent == content(k)
            }
        }),
        gzipped(content(k)) is Some ==> remembered(cache, Some(k), content(k)).contains_key(k),
        remembered(cache, None, content(k)) == cache,
{
}

} // verus!
