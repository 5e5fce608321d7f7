//! Text as the hub reads it: lines, fields, words and trimming, over sequences of characters.
//!
//! The specification functions say what a piece of text *is* (its lines, the fields between
//! separators, its words); the executable functions compute it.
use vstd::prelude::*;
use vstd::string::*;
use vstd::utf8::is_ascii_chars;

verus! {

// ---- Characters ----

/// Unicode's `White_Space` property.
pub open spec fn is_space(c: char) -> bool {
    ||| '\u{9}' <= c <= '\u{d}'
    ||| c == ' '
    ||| c == '\u{85}'
    ||| c == '\u{a0}'
    ||| c == '\u{1680}'
    ||| '\u{2000}' <= c <= '\u{200a}'
    ||| c == '\u{2028}'
    ||| c == '\u{2029}'
    ||| c == '\u{202f}'
    ||| c == '\u{205f}'
    ||| c == '\u{3000}'
}

/// Unicode's general category `Cc`: the C0 controls, DEL and the C1 controls.
pub open spec fn is_control(c: char) -> bool {
    c <= '\u{1f}' || '\u{7f}' <= c <= '\u{9f}'
}

/// `A`-`Z` to `a`-`z`; every other character stays.
pub open spec fn lower_char(c: char) -> char {
    if 'A' <= c <= 'Z' {
        ((c as u32 + 32) as u32) as char
    } else {
        c
    }
}

/// The text with its ASCII capitals lowered.
pub open spec fn lowered(s: Seq<char>) -> Seq<char> {
    s.map_values(|c: char| lower_char(c))
}

pub fn space(c: char) -> (r: bool)
    ensures
        r == is_space(c),
{
    ('\u{9}' <= c && c <= '\u{d}') || c == ' ' || c == '\u{85}' || c == '\u{a0}' || c == '\u{1680}'
        || ('\u{2000}' <= c && c <= '\u{200a}') || c == '\u{2028}' || c == '\u{2029}'
        || c == '\u{202f}' || c == '\u{205f}' || c == '\u{3000}'
}

pub fn control(c: char) -> (r: bool)
    ensures
        r == is_control(c),
{
    c <= '\u{1f}' || ('\u{7f}' <= c && c <= '\u{9f}')
}

fn lower(c: char) -> (r: char)
    ensures
        r == lower_char(c),
{
    if 'A' <= c && c <= 'Z' {
        ((c as u8) + 32) as char
    } else {
        c
    }
}

// ---- Building strings ----

/// `String::push` appends the given character to the end of the string.
pub assume_specification[ String::push ](s: &mut String, c: char)
    ensures
        final(s)@ == old(s)@.push(c),
;

/// The characters of a string, in order.
pub fn chars(s: &str) -> (r: Vec<char>)
    ensures
        r@ == s@,
{
    let mut out: Vec<char> = Vec::new();
    for c in it: s.chars()
        invariant
            out@ == s@.take(it.index() as int),
            it.seq() == s@,
    {
        assert(s@.take(it.index() as int + 1) =~= s@.take(it.index() as int).push(c));
        out.push(c);
    }
    assert(s@.take(s@.len() as int) =~= s@);
    out
}

/// The string made of the characters `from..to`.
pub fn string_of(v: &Vec<char>, from: usize, to: usize) -> (r: String)
    requires
        from <= to <= v@.len(),
    ensures
        r@ == v@.subrange(from as int, to as int),
{
    let mut out = String::new();
    let mut i: usize = from;
    while i < to
        invariant
            from <= i <= to <= v@.len(),
            out@ == v@.subrange(from as int, i as int),
        decreases to - i,
    {
        assert(v@.subrange(from as int, i + 1) =~= v@.subrange(from as int, i as int).push(v@[i as int]));
        out.push(v[i]);
        i += 1;
    }
    out
}

/// Are the two texts the same?
pub fn same(a: &str, b: &str) -> (r: bool)
    ensures
        r == (a@ == b@),
{
    let x = chars(a);
    let y = chars(b);
    if x.len() != y.len() {
        return false;
    }
    let mut i: usize = 0;
    while i < x.len()
        invariant
            x@ == a@,
            y@ == b@,
            x@.len() == y@.len(),
            i <= x@.len(),
            x@.take(i as int) == y@.take(i as int),
        decreases x@.len() - i,
    {
        if x[i] != y[i] {
            return false;
        }
        assert(x@.take(i + 1) =~= x@.take(i as int).push(x@[i as int]));
        assert(y@.take(i + 1) =~= y@.take(i as int).push(y@[i as int]));
        i += 1;
    }
    assert(x@.take(x@.len() as int) =~= x@);
    assert(y@.take(y@.len() as int) =~= y@);
    true
}

/// Does the text stand in the list?
pub fn listed(list: &Vec<String>, s: &str) -> (r: bool)
    ensures
        r == list.deep_view().contains(s@),
{
    let mut i: usize = 0;
    while i < list.len()
        invariant
            i <= list@.len(),
            forall|j: int| 0 <= j < i ==> list.deep_view()[j] != s@,
        decreases list@.len() - i,
    {
        if same(list[i].as_str(), s) {
            assert(list.deep_view()[i as int] == s@);
            return true;
        }
        i += 1;
    }
    false
}

/// The ASCII-lowered copy of a text.
pub fn ascii_lower(s: &str) -> (r: String)
    ensures
        r@ == lowered(s@),
{
    let mut out = String::new();
    for c in it: s.chars()
        invariant
            out@ == lowered(s@.take(it.index() as int)),
            it.seq() == s@,
    {
        assert(lowered(s@.take(it.index() as int + 1)) =~= lowered(s@.take(it.index() as int)).push(
            lower_char(c),
        ));
        out.push(lower(c));
    }
    assert(s@.take(s@.len() as int) =~= s@);
    out
}

/// Are the two texts the same but for ASCII case?
pub fn same_ignoring_case(a: &str, b: &str) -> (r: bool)
    ensures
        r == (lowered(a@) == lowered(b@)),
{
    ascii_lower(a) == ascii_lower(b)
}

/// `a`-`z` to `A`-`Z`; every other character stays.
pub open spec fn upper_char(c: char) -> char {
    if 'a' <= c <= 'z' {
        ((c as u32 - 32) as u32) as char
    } else {
        c
    }
}

/// The text with its ASCII small letters raised.
pub open spec fn uppered(s: Seq<char>) -> Seq<char> {
    s.map_values(|c: char| upper_char(c))
}

/// The text that `str::to_lowercase` gives.
pub uninterp spec fn unicode_lower(s: Seq<char>) -> Seq<char>;

/// The text that `str::to_uppercase` gives.
pub uninterp spec fn unicode_upper(s: Seq<char>) -> Seq<char>;

/// `str::to_lowercase` lowers a text as Unicode says. Of ASCII text that is the ASCII-lowered text;
/// of other text the result has a name and no more.
#[verifier::external_body]
fn to_lower(s: &str) -> (r: String)
    ensures
        r@ == unicode_lower(s@),
        is_ascii_chars(s@) ==> r@ == lowered(s@),
{
    s.to_lowercase()
}

/// `str::to_uppercase` raises a text as Unicode says. Of ASCII text that is the ASCII-raised text;
/// of other text the result has a name and no more.
#[verifier::external_body]
fn to_upper(s: &str) -> (r: String)
    ensures
        r@ == unicode_upper(s@),
        is_ascii_chars(s@) ==> r@ == uppered(s@),
{
    s.to_uppercase()
}

/// The text in small letters.
pub open spec fn small(s: Seq<char>) -> Seq<char> {
    if is_ascii_chars(s) {
        lowered(s)
    } else {
        unicode_lower(s)
    }
}

/// The text in capitals.
pub open spec fn capital(s: Seq<char>) -> Seq<char> {
    if is_ascii_chars(s) {
        uppered(s)
    } else {
        unicode_upper(s)
    }
}

pub fn small_letters(s: &str) -> (r: String)
    ensures
        r@ == small(s@),
{
    to_lower(s)
}

pub fn capitals(s: &str) -> (r: String)
    ensures
        r@ == capital(s@),
{
    to_upper(s)
}

/// It does not matter how joined texts are grouped.
pub proof fn lemma_append(a: Seq<char>, b: Seq<char>, c: Seq<char>)
    ensures
        (a + b) + c == a + (b + c),
{
    assert((a + b) + c =~= a + (b + c));
}

// ---- Parts of a text ----

/// Does `needle` occur in `s`?
pub open spec fn occurs(s: Seq<char>, needle: Seq<char>) -> bool {
    exists|i: int|
        0 <= i && i + needle.len() <= s.len() && #[trigger] s.subrange(i, i + needle.len())
            == needle
}

fn matches_at(s: &Vec<char>, at: usize, needle: &Vec<char>) -> (r: bool)
    requires
        at + needle@.len() <= s@.len(),
    ensures
        r == (s@.subrange(at as int, at + needle@.len()) == needle@),
{
    let len: usize = s.len();
    let mut i: usize = 0;
    while i < needle.len()
        invariant
            len == s@.len(),
            at + needle@.len() <= len,
            i <= needle@.len(),
            forall|j: int| 0 <= j < i ==> s@[at + j] == needle@[j],
        decreases needle@.len() - i,
    {
        if s[at + i] != needle[i] {
            assert(s@.subrange(at as int, at + needle@.len())[i as int] != needle@[i as int]);
            return false;
        }
        i += 1;
    }
    assert(s@.subrange(at as int, at + needle@.len()) =~= needle@);
    true
}

pub fn starts_with(s: &str, prefix: &str) -> (r: bool)
    ensures
        r == prefix@.is_prefix_of(s@),
{
    let v = chars(s);
    let p = chars(prefix);
    p.len() <= v.len() && matches_at(&v, 0, &p)
}

pub fn ends_with(s: &str, suffix: &str) -> (r: bool)
    ensures
        r == suffix@.is_suffix_of(s@),
{
    let v = chars(s);
    let p = chars(suffix);
    p.len() <= v.len() && matches_at(&v, v.len() - p.len(), &p)
}

pub fn contains(s: &str, needle: &str) -> (r: bool)
    ensures
        r == occurs(s@, needle@),
{
    let v = chars(s);
    let p = chars(needle);
    if p.len() > v.len() {
        return false;
    }
    let last: usize = v.len() - p.len();
    let mut i: usize = 0;
    while i <= last
        invariant
            v@ == s@,
            p@ == needle@,
            p@.len() <= v@.len(),
            last == v@.len() - p@.len(),
            i <= last + 1,
            forall|j: int| 0 <= j < i ==> #[trigger] s@.subrange(j, j + needle@.len()) != needle@,
        decreases last + 1 - i,
    {
        if matches_at(&v, i, &p) {
            return true;
        }
        if i == last {
            return false;
        }
        i += 1;
    }
    false
}

/// Where `c` first stands in `s`; the length of `s` where it does not.
pub open spec fn find(s: Seq<char>, c: char) -> int
    decreases s.len(),
{
    if s.len() == 0 || s[0] == c {
        0
    } else {
        1 + find(s.skip(1), c)
    }
}

pub proof fn lemma_find(s: Seq<char>, c: char)
    ensures
        0 <= find(s, c) <= s.len(),
        find(s, c) < s.len() ==> s[find(s, c)] == c,
        forall|j: int| 0 <= j < find(s, c) ==> s[j] != c,
        find(s, c) < s.len() <==> s.contains(c),
    decreases s.len(),
{
    if s.len() > 0 && s[0] != c {
        let t = s.skip(1);
        lemma_find(t, c);
        assert forall|j: int| 0 <= j < find(s, c) implies s[j] != c by {
            if j > 0 {
                assert(s[j] == t[j - 1]);
            }
        }
        if s.contains(c) {
            let k = s.index_of(c);
            assert(t[k - 1] == c);
        }
    }
}

pub proof fn lemma_find_is(s: Seq<char>, c: char, i: int)
    requires
        0 <= i <= s.len(),
        forall|j: int| 0 <= j < i ==> s[j] != c,
        i < s.len() ==> s[i] == c,
    ensures
        find(s, c) == i,
{
    lemma_find(s, c);
}

/// The position of `c` from `start` on.
fn seek(v: &Vec<char>, start: usize, c: char) -> (r: usize)
    requires
        start <= v@.len(),
    ensures
        start <= r <= v@.len(),
        r == start + find(v@.skip(start as int), c),
{
    let mut i: usize = start;
    while i < v.len() && v[i] != c
        invariant
            start <= i <= v@.len(),
            forall|j: int| start <= j < i ==> v@[j] != c,
        decreases v@.len() - i,
    {
        i += 1;
    }
    proof {
        lemma_find_is(v@.skip(start as int), c, i - start);
    }
    i
}

/// The text before the first `c` and the text after it.
pub open spec fn cut(s: Seq<char>, c: char) -> Option<(Seq<char>, Seq<char>)> {
    let i = find(s, c);
    if i < s.len() {
        Some((s.take(i), s.skip(i + 1)))
    } else {
        None
    }
}

/// Splits a text at the first `c`.
pub fn split_once(s: &str, c: char) -> (r: Option<(String, String)>)
    ensures
        match r {
            Some(p) => cut(s@, c) == Some((p.0@, p.1@)),
            None => cut(s@, c) is None,
        },
{
    let v = chars(s);
    let i = seek(&v, 0, c);
    assert(v@.skip(0) =~= v@);
    if i < v.len() {
        let a = string_of(&v, 0, i);
        let b = string_of(&v, i + 1, v.len());
        assert(a@ =~= s@.take(i as int));
        assert(b@ =~= s@.skip(i + 1));
        Some((a, b))
    } else {
        None
    }
}

/// The fields of a text between the separators `c`: always one more than there are separators.
pub open spec fn fields(s: Seq<char>, c: char) -> Seq<Seq<char>>
    decreases s.len(),
{
    let i = find(s, c);
    if 0 <= i < s.len() {
        seq![s.take(i)] + fields(s.skip(i + 1), c)
    } else {
        seq![s]
    }
}

/// The text before the first `c`: the whole of it where there is none.
pub open spec fn head_field(s: Seq<char>, c: char) -> Seq<char> {
    s.take(find(s, c))
}

pub proof fn lemma_fields_first(s: Seq<char>, c: char)
    ensures
        fields(s, c).len() >= 1,
        fields(s, c)[0] == head_field(s, c),
{
    lemma_find(s, c);
    if find(s, c) == s.len() {
        assert(s.take(s.len() as int) =~= s);
    }
}

pub fn split(s: &str, c: char) -> (r: Vec<String>)
    ensures
        r.deep_view() == fields(s@, c),
{
    let v = chars(s);
    let mut out: Vec<String> = Vec::new();
    let mut start: usize = 0;
    assert(v@.skip(0) =~= v@);
    assert(out.deep_view() =~= Seq::<Seq<char>>::empty());
    loop
        invariant_except_break
            v@ == s@,
            start <= v@.len(),
            fields(s@, c) =~= out.deep_view() + fields(v@.skip(start as int), c),
        ensures
            fields(s@, c) =~= out.deep_view(),
        decreases v@.len() - start,
    {
        let ghost rest = v@.skip(start as int);
        let end = seek(&v, start, c);
        let f = string_of(&v, start, end);
        let ghost before = out.deep_view();
        out.push(f);
        assert(out.deep_view() =~= before.push(f@));
        if end == v.len() {
            assert(f@ =~= rest);
            break;
        }
        assert(f@ =~= rest.take(end - start));
        assert(rest.skip(end - start + 1) =~= v@.skip(end + 1));
        start = end + 1;
    }
    out
}

pub fn before(s: &str, c: char) -> (r: String)
    ensures
        r@ == head_field(s@, c),
{
    let v = chars(s);
    let i = seek(&v, 0, c);
    assert(v@.skip(0) =~= v@);
    let r = string_of(&v, 0, i);
    assert(r@ =~= s@.take(i as int));
    r
}

// ---- Lines ----

/// A line without the carriage return that belongs to its line ending.
pub open spec fn chomp(line: Seq<char>) -> Seq<char> {
    if line.len() > 0 && line.last() == '\r' {
        line.drop_last()
    } else {
        line
    }
}

/// The lines of a text. A line ends in `\n` or `\r\n`; the ending of the last line is optional.
pub open spec fn line_seq(s: Seq<char>) -> Seq<Seq<char>>
    decreases s.len(),
{
    let i = find(s, '\n');
    if s.len() == 0 {
        Seq::empty()
    } else if 0 <= i < s.len() {
        seq![chomp(s.take(i))] + line_seq(s.skip(i + 1))
    } else {
        seq![s]
    }
}

pub fn lines(s: &str) -> (r: Vec<String>)
    ensures
        r.deep_view() == line_seq(s@),
{
    let v = chars(s);
    let mut out: Vec<String> = Vec::new();
    let mut start: usize = 0;
    assert(v@.skip(0) =~= v@);
    assert(out.deep_view() =~= Seq::<Seq<char>>::empty());
    while start < v.len()
        invariant
            v@ == s@,
            start <= v@.len(),
            line_seq(s@) =~= out.deep_view() + line_seq(v@.skip(start as int)),
        decreases v@.len() - start,
    {
        let ghost rest = v@.skip(start as int);
        let ghost before = out.deep_view();
        let end = seek(&v, start, '\n');
        if end == v.len() {
            let line = string_of(&v, start, end);
            assert(line@ =~= rest);
            out.push(line);
            assert(out.deep_view() =~= before.push(line@));
            assert(v@.skip(end as int) =~= Seq::<char>::empty());
            start = end;
        } else {
            let ghost raw = rest.take(end - start);
            let stop: usize = if end > start && v[end - 1] == '\r' {
                end - 1
            } else {
                end
            };
            let line = string_of(&v, start, stop);
            assert(line@ =~= chomp(raw));
            out.push(line);
            assert(out.deep_view() =~= before.push(line@));
            assert(rest.skip(end - start + 1) =~= v@.skip(end + 1));
            start = end + 1;
        }
    }
    assert(v@.skip(start as int) =~= Seq::<char>::empty());
    out
}

// ---- White space ----

/// How many white-space characters a text starts with.
pub open spec fn spaces(s: Seq<char>) -> int
    decreases s.len(),
{
    if s.len() > 0 && is_space(s[0]) {
        1 + spaces(s.skip(1))
    } else {
        0
    }
}

/// How many characters a text has before its first white space.
pub open spec fn word_len(s: Seq<char>) -> int
    decreases s.len(),
{
    if s.len() > 0 && !is_space(s[0]) {
        1 + word_len(s.skip(1))
    } else {
        0
    }
}

pub proof fn lemma_spaces(s: Seq<char>)
    ensures
        0 <= spaces(s) <= s.len(),
        forall|j: int| 0 <= j < spaces(s) ==> is_space(s[j]),
        spaces(s) < s.len() ==> !is_space(s[spaces(s)]),
    decreases s.len(),
{
    if s.len() > 0 && is_space(s[0]) {
        let t = s.skip(1);
        lemma_spaces(t);
        assert forall|j: int| 0 <= j < spaces(s) implies is_space(s[j]) by {
            if j > 0 {
                assert(s[j] == t[j - 1]);
            }
        }
    }
}

pub proof fn lemma_spaces_is(s: Seq<char>, i: int)
    requires
        0 <= i <= s.len(),
        forall|j: int| 0 <= j < i ==> is_space(s[j]),
        i < s.len() ==> !is_space(s[i]),
    ensures
        spaces(s) == i,
{
    lemma_spaces(s);
}

pub proof fn lemma_word_len(s: Seq<char>)
    ensures
        0 <= word_len(s) <= s.len(),
        forall|j: int| 0 <= j < word_len(s) ==> !is_space(s[j]),
        word_len(s) < s.len() ==> is_space(s[word_len(s)]),
    decreases s.len(),
{
    if s.len() > 0 && !is_space(s[0]) {
        let t = s.skip(1);
        lemma_word_len(t);
        assert forall|j: int| 0 <= j < word_len(s) implies !is_space(s[j]) by {
            if j > 0 {
                assert(s[j] == t[j - 1]);
            }
        }
    }
}

pub proof fn lemma_word_len_is(s: Seq<char>, i: int)
    requires
        0 <= i <= s.len(),
        forall|j: int| 0 <= j < i ==> !is_space(s[j]),
        i < s.len() ==> is_space(s[i]),
    ensures
        word_len(s) == i,
{
    lemma_word_len(s);
}

/// The words of a text: its maximal runs of characters that are not white space.
pub open spec fn word_seq(s: Seq<char>) -> Seq<Seq<char>>
    decreases s.len(),
{
    proof {
        lemma_spaces(s);
        lemma_word_len(s.skip(spaces(s)));
    }
    let t = s.skip(spaces(s));
    if t.len() == 0 {
        Seq::empty()
    } else {
        seq![t.take(word_len(t))] + word_seq(t.skip(word_len(t)))
    }
}

fn skip_spaces(v: &Vec<char>, start: usize) -> (r: usize)
    requires
        start <= v@.len(),
    ensures
        start <= r <= v@.len(),
        r == start + spaces(v@.skip(start as int)),
{
    let mut i: usize = start;
    while i < v.len() && space(v[i])
        invariant
            start <= i <= v@.len(),
            forall|j: int| start <= j < i ==> is_space(v@[j]),
        decreases v@.len() - i,
    {
        i += 1;
    }
    proof {
        lemma_spaces_is(v@.skip(start as int), i - start);
    }
    i
}

fn skip_word(v: &Vec<char>, start: usize) -> (r: usize)
    requires
        start <= v@.len(),
    ensures
        start <= r <= v@.len(),
        r == start + word_len(v@.skip(start as int)),
{
    let mut i: usize = start;
    while i < v.len() && !space(v[i])
        invariant
            start <= i <= v@.len(),
            forall|j: int| start <= j < i ==> !is_space(v@[j]),
        decreases v@.len() - i,
    {
        i += 1;
    }
    proof {
        lemma_word_len_is(v@.skip(start as int), i - start);
    }
    i
}

pub fn words(s: &str) -> (r: Vec<String>)
    ensures
        r.deep_view() == word_seq(s@),
{
    let v = chars(s);
    let mut out: Vec<String> = Vec::new();
    let mut at: usize = 0;
    assert(v@.skip(0) =~= v@);
    assert(out.deep_view() =~= Seq::<Seq<char>>::empty());
    loop
        invariant
            v@ == s@,
            at <= v@.len(),
            word_seq(s@) =~= out.deep_view() + word_seq(v@.skip(at as int)),
        ensures
            word_seq(s@) =~= out.deep_view(),
        decreases v@.len() - at,
    {
        let ghost rest = v@.skip(at as int);
        let start = skip_spaces(&v, at);
        let ghost t = rest.skip(spaces(rest));
        assert(t =~= v@.skip(start as int));
        if start == v.len() {
            break;
        }
        let end = skip_word(&v, start);
        let w = string_of(&v, start, end);
        assert(w@ =~= t.take(word_len(t)));
        assert(t.skip(word_len(t)) =~= v@.skip(end as int));
        let ghost before = out.deep_view();
        out.push(w);
        assert(out.deep_view() =~= before.push(w@));
        proof {
            lemma_word_len(t);
        }
        at = end;
    }
    out
}

/// The text without the white space at its end.
pub open spec fn trim_end(s: Seq<char>) -> Seq<char>
    decreases s.len(),
{
    if s.len() > 0 && is_space(s.last()) {
        trim_end(s.drop_last())
    } else {
        s
    }
}

/// The text without the white space at either end.
pub open spec fn trimmed(s: Seq<char>) -> Seq<char> {
    trim_end(s.skip(spaces(s)))
}

pub fn trim(s: &str) -> (r: String)
    ensures
        r@ == trimmed(s@),
{
    let v = chars(s);
    let start = skip_spaces(&v, 0);
    assert(v@.skip(0) =~= v@);
    let mut end: usize = v.len();
    assert(v@.subrange(start as int, end as int) =~= s@.skip(spaces(s@)));
    while end > start && space(v[end - 1])
        invariant
            v@ == s@,
            start <= end <= v@.len(),
            trim_end(v@.subrange(start as int, end as int)) == trimmed(s@),
        decreases end,
    {
        let ghost t = v@.subrange(start as int, end as int);
        assert(t.last() == v@[end - 1]);
        assert(t.drop_last() =~= v@.subrange(start as int, end - 1));
        end -= 1;
    }
    let ghost t = v@.subrange(start as int, end as int);
    assert(end > start ==> t.last() == v@[end - 1]);
    string_of(&v, start, end)
}

// ---- How joined texts are read ----

/// A word at the front of a text is its first word.
pub proof fn lemma_first_word(w: Seq<char>, rest: Seq<char>)
    requires
        w.len() > 0,
        forall|i: int| 0 <= i < w.len() ==> !is_space(#[trigger] w[i]),
        rest.len() > 0 ==> is_space(rest[0]),
    ensures
        word_seq(w + rest) == seq![w] + word_seq(rest),
{
    let s = w + rest;
    assert(s[0] == w[0]);
    lemma_spaces_is(s, 0);
    assert(s.skip(0) =~= s);
    assert(rest.len() > 0 ==> s[w.len() as int] == rest[0]);
    lemma_word_len_is(s, w.len() as int);
    assert(s.take(w.len() as int) =~= w);
    assert(s.skip(w.len() as int) =~= rest);
}

/// White space at the front of a text adds no word.
pub proof fn lemma_space_before_words(c: char, s: Seq<char>)
    requires
        is_space(c),
    ensures
        word_seq(seq![c] + s) == word_seq(s),
{
    let t = seq![c] + s;
    assert(t.skip(1) =~= s);
    lemma_spaces(s);
    assert(spaces(t) == 1 + spaces(s));
    assert(t.skip(spaces(t)) =~= s.skip(spaces(s)));
}

/// Text without a line feed in front of a text lengthens its first line and changes no other.
pub proof fn lemma_longer_first_line(a: Seq<char>, tail: Seq<char>)
    requires
        !a.contains('\n'),
        tail.len() > 0,
        tail[0] != '\n',
        tail[0] != '\r',
    ensures
        line_seq(tail).len() > 0,
        line_seq(tail)[0].len() > 0,
        line_seq(tail)[0][0] == tail[0],
        line_seq(a + tail) == seq![a + line_seq(tail)[0]] + line_seq(tail).skip(1),
{
    let s = a + tail;
    let k = find(tail, '\n');
    lemma_find(tail, '\n');
    assert forall|j: int| 0 <= j < a.len() + k implies s[j] != '\n' by {
        if j < a.len() {
            assert(a.contains(a[j]));
        } else {
            assert(s[j] == tail[j - a.len()]);
        }
    }
    assert(k < tail.len() ==> s[a.len() + k] == tail[k]);
    lemma_find_is(s, '\n', a.len() + k);
    if k < tail.len() {
        let raw = tail.take(k);
        assert(k >= 1);
        assert(raw[0] == tail[0]);
        assert(s.take(a.len() + k) =~= a + raw);
        assert((a + raw).last() == raw.last());
        assert(chomp(a + raw) =~= a + chomp(raw));
        assert(s.skip(a.len() + k + 1) =~= tail.skip(k + 1));
        assert(line_seq(tail).skip(1) =~= line_seq(tail.skip(k + 1)));
        if raw.len() == 1 {
            assert(raw.last() == tail[0]);
        }
    } else {
        assert(line_seq(tail).skip(1) =~= Seq::<Seq<char>>::empty());
    }
    assert(line_seq(s) =~= seq![a + line_seq(tail)[0]] + line_seq(tail).skip(1));
}

/// Whole lines, and then another text, are the lines of both.
pub proof fn lemma_lines_join(a: Seq<char>, b: Seq<char>)
    requires
        a.len() > 0 ==> a.last() == '\n',
    ensures
        line_seq(a + b) == line_seq(a) + line_seq(b),
    decreases a.len(),
{
    let s = a + b;
    if a.len() == 0 {
        assert(s =~= b);
    } else {
        let i = find(a, '\n');
        lemma_find(a, '\n');
        assert(a.contains(a[a.len() - 1]));
        assert forall|j: int| 0 <= j < i implies s[j] != '\n' by {
            assert(s[j] == a[j]);
        }
        assert(s[i] == a[i]);
        lemma_find_is(s, '\n', i);
        let rest = a.skip(i + 1);
        assert(rest.len() > 0 ==> rest.last() == a.last());
        lemma_lines_join(rest, b);
        assert(s.take(i) =~= a.take(i));
        assert(s.skip(i + 1) =~= rest + b);
        assert(line_seq(s) =~= line_seq(a) + line_seq(b));
    }
}

// ---- Laws ----

/// In ASCII, white space is the blank and the five characters from the tab to the carriage return;
/// beyond ASCII it is what Unicode says.
pub proof fn law_what_white_space_is(c: char)
    ensures
        c as int <= 0x7f ==> (is_space(c) <==> c == ' ' || c == '\t' || c == '\n' || c == '\r' || c
            == '\u{b}' || c == '\u{c}'),
        c as int > 0x7f ==> (is_space(c) <==> c as int == 0x85 || c as int == 0xa0 || c as int
            == 0x1680 || 0x2000 <= c as int <= 0x200a || c as int == 0x2028 || c as int == 0x2029
            || c as int == 0x202f || c as int == 0x205f || c as int == 0x3000),
{
}

/// The control characters are the first thirty-two of ASCII, the last of it, and the thirty-two
/// that follow ASCII; nothing that is written is one.
pub proof fn law_what_control_characters_are(c: char)
    ensures
        is_control(c) <==> (c as int) < 32 || 127 <= (c as int) < 160,
{
}

/// Lowering turns each capital of the alphabet into its small letter and leaves everything else,
/// character by character; raising does the opposite.
pub proof fn law_letters_change_case(s: Seq<char>, i: int, n: int)
    requires
        0 <= i < s.len(),
        0 <= n < 26,
    ensures
        lowered(s).len() == s.len(),
        uppered(s).len() == s.len(),
        s[i] == "ABCDEFGHIJKLMNOPQRSTUVWXYZ"@[n] ==> lowered(s)[i]
            == "abcdefghijklmnopqrstuvwxyz"@[n],
        s[i] == "abcdefghijklmnopqrstuvwxyz"@[n] ==> uppered(s)[i]
            == "ABCDEFGHIJKLMNOPQRSTUVWXYZ"@[n],
        !"ABCDEFGHIJKLMNOPQRSTUVWXYZ"@.contains(s[i]) ==> lowered(s)[i] == s[i],
        !"abcdefghijklmnopqrstuvwxyz"@.contains(s[i]) ==> uppered(s)[i] == s[i],
{
    reveal_strlit("ABCDEFGHIJKLMNOPQRSTUVWXYZ");
    reveal_strlit("abcdefghijklmnopqrstuvwxyz");
    let c = s[i];
    if 'A' <= c <= 'Z' {
        assert("ABCDEFGHIJKLMNOPQRSTUVWXYZ"@[c as int - 65] == c);
    }
    if 'a' <= c <= 'z' {
        assert("abcdefghijklmnopqrstuvwxyz"@[c as int - 97] == c);
    }
}

/// Is the text white space throughout?
pub open spec fn blank(s: Seq<char>) -> bool {
    forall|i: int| 0 <= i < s.len() ==> is_space(#[trigger] s[i])
}

/// Does the text neither begin nor end in white space?
pub open spec fn snug(s: Seq<char>) -> bool {
    s.len() > 0 ==> !is_space(s[0]) && !is_space(s.last())
}

pub proof fn lemma_trim_end_joins(a: Seq<char>, b: Seq<char>)
    requires
        a.len() > 0 ==> !is_space(a.last()),
    ensures
        trim_end(a + b) == a + trim_end(b),
        blank(b) ==> trim_end(a + b) == a,
    decreases b.len(),
{
    let s = a + b;
    if b.len() == 0 {
        assert(s =~= a);
        assert(a + b =~= a);
    } else {
        assert(s.last() == b.last());
        if is_space(b.last()) {
            assert(s.drop_last() =~= a + b.drop_last());
            lemma_trim_end_joins(a, b.drop_last());
            if blank(b) {
                assert(blank(b.drop_last())) by {
                    assert forall|i: int| 0 <= i < b.len() - 1 implies is_space(
                        #[trigger] b.drop_last()[i],
                    ) by {
                        assert(is_space(b[i]));
                    }
                }
            }
        } else {
            assert(!is_space(b[b.len() - 1]));
        }
    }
}

/// Trimming takes off the white space at both ends and nothing else.
pub proof fn law_trimming_leaves_the_middle(a: Seq<char>, s: Seq<char>, b: Seq<char>)
    requires
        blank(a),
        snug(s),
        blank(b),
    ensures
        trimmed(a + s + b) == s,
{
    let t = a + s + b;
    let n = a.len() as int;
    if s.len() == 0 {
        let m = t.len() as int;
        assert forall|j: int| 0 <= j < m implies is_space(t[j]) by {
            if j < n {
                assert(is_space(a[j]));
            } else {
                assert(is_space(b[j - n]));
            }
        }
        lemma_spaces_is(t, m);
        assert(t.skip(m) =~= s);
    } else {
        assert forall|j: int| 0 <= j < n implies is_space(t[j]) by {
            assert(is_space(a[j]));
        }
        assert(t[n] == s[0]);
        lemma_spaces_is(t, n);
        assert(t.skip(n) =~= s + b);
        lemma_trim_end_joins(s, b);
    }
}

/// A separator cuts a text in two: what stands before the first one is the first field, and what
/// follows it has its fields of its own. A text without a separator is one field.
pub proof fn law_separators_cut(a: Seq<char>, c: char, b: Seq<char>)
    requires
        !a.contains(c),
    ensures
        fields(a + seq![c] + b, c) == seq![a] + fields(b, c),
        head_field(a + seq![c] + b, c) == a,
        cut(a + seq![c] + b, c) == Some((a, b)),
        fields(a, c) == seq![a],
        head_field(a, c) == a,
        cut(a, c) is None,
{
    let s = a + seq![c] + b;
    let n = a.len() as int;
    assert forall|j: int| 0 <= j < n implies s[j] != c && a[j] != c by {
        assert(a.contains(a[j]));
        assert(s[j] == a[j]);
    }
    assert(s[n] == c);
    lemma_find_is(s, c, n);
    lemma_find_is(a, c, n);
    assert(s.take(n) =~= a);
    assert(s.skip(n + 1) =~= b);
    assert(a.take(n) =~= a);
}

/// Fields that end in a separator, and then another text, are the fields of both.
pub proof fn lemma_fields_join(a: Seq<char>, b: Seq<char>, c: char)
    requires
        a.len() > 0 ==> a.last() == c,
    ensures
        fields(a, c).len() > 0,
        fields(a + b, c) == fields(a, c).drop_last() + fields(b, c),
    decreases a.len(),
{
    if a.len() == 0 {
        assert(a + b =~= b);
        lemma_find(a, c);
        assert(fields(a, c) =~= seq![a]);
        assert(fields(a, c).drop_last() + fields(b, c) =~= fields(b, c));
    } else {
        lemma_find(a, c);
        assert(a.contains(a[a.len() - 1]));
        let i = find(a, c);
        let head = a.take(i);
        let rest = a.skip(i + 1);
        assert(!head.contains(c));
        assert(a =~= head + seq![c] + rest);
        assert(a + b =~= head + seq![c] + (rest + b));
        law_separators_cut(head, c, rest);
        law_separators_cut(head, c, rest + b);
        assert(rest.len() > 0 ==> rest.last() == a.last());
        lemma_fields_join(rest, b, c);
        assert(fields(a, c).drop_last() =~= seq![head] + fields(rest, c).drop_last());
        assert(fields(a + b, c) =~= fields(a, c).drop_last() + fields(b, c));
    }
}

/// Where a field stands: between separators, or at an end of the text.
pub proof fn lemma_field_stands(s: Seq<char>, c: char, k: int) -> (p: int)
    requires
        0 <= k < fields(s, c).len(),
    ensures
        0 <= p <= p + fields(s, c)[k].len() <= s.len(),
        s.subrange(p, p + fields(s, c)[k].len()) == fields(s, c)[k],
        p == 0 || s[p - 1] == c,
        p + fields(s, c)[k].len() == s.len() || s[p + fields(s, c)[k].len()] == c,
        !fields(s, c)[k].contains(c),
    decreases s.len(),
{
    lemma_find(s, c);
    let i = find(s, c);
    if i < s.len() {
        let rest = s.skip(i + 1);
        if k == 0 {
            assert(fields(s, c)[0] == s.take(i));
            assert(s.subrange(0, i) =~= s.take(i));
            assert(!s.take(i).contains(c));
            0
        } else {
            assert(fields(s, c)[k] == fields(rest, c)[k - 1]);
            let q = lemma_field_stands(rest, c, k - 1);
            let f = fields(s, c)[k];
            assert(s.subrange(q + i + 1, q + i + 1 + f.len()) =~= rest.subrange(q, q + f.len()));
            if q > 0 {
                assert(s[q + i] == rest[q - 1]);
            }
            if q + f.len() < rest.len() {
                assert(s[q + i + 1 + f.len()] == rest[q + f.len()]);
            }
            q + i + 1
        }
    } else {
        assert(fields(s, c)[0] == s);
        assert(s.subrange(0, s.len() as int) =~= s);
        0
    }
}

/// A line feed ends a line, and a carriage return right before it belongs to the line's ending;
/// the last line need not end.
pub proof fn law_line_feeds_end_lines(a: Seq<char>, b: Seq<char>)
    requires
        !a.contains('\n'),
    ensures
        line_seq(a + "\r\n"@ + b) == seq![a] + line_seq(b),
        !(a.len() > 0 && a.last() == '\r') ==> line_seq(a + "\n"@ + b) == seq![a] + line_seq(b),
        a.len() > 0 ==> line_seq(a) == seq![a],
        line_seq(Seq::<char>::empty()).len() == 0,
{
    reveal_strlit("\r\n");
    reveal_strlit("\n");
    let n = a.len() as int;
    assert forall|j: int| 0 <= j < n implies a[j] != '\n' by {
        assert(a.contains(a[j]));
    }
    let s = a + "\r\n"@ + b;
    assert forall|j: int| 0 <= j < n + 1 implies s[j] != '\n' by {
        if j < n {
            assert(s[j] == a[j]);
        }
    }
    assert(s[n + 1] == '\n');
    lemma_find_is(s, '\n', n + 1);
    assert(s.take(n + 1).last() == '\r');
    assert(s.take(n + 1).drop_last() =~= a);
    assert(s.skip(n + 2) =~= b);
    let t = a + "\n"@ + b;
    assert forall|j: int| 0 <= j < n implies t[j] != '\n' by {
        assert(t[j] == a[j]);
    }
    assert(t[n] == '\n');
    lemma_find_is(t, '\n', n);
    assert(t.take(n) =~= a);
    assert(t.skip(n + 1) =~= b);
    lemma_find_is(a, '\n', n);
}

/// Words stand between white space: the first one is what stands before the first white space that
/// follows it, and a text that is white space throughout has none.
pub proof fn law_white_space_parts_words(pad: Seq<char>, w: Seq<char>, rest: Seq<char>)
    requires
        blank(pad),
        w.len() > 0,
        forall|i: int| 0 <= i < w.len() ==> !is_space(#[trigger] w[i]),
        rest.len() > 0 ==> is_space(rest[0]),
    ensures
        word_seq(pad + w + rest) == seq![w] + word_seq(rest),
        word_seq(pad).len() == 0,
    decreases pad.len(),
{
    lemma_spaces_is(pad, pad.len() as int);
    assert(pad.skip(pad.len() as int) =~= Seq::<char>::empty());
    if pad.len() == 0 {
        assert(pad + w + rest =~= w + rest);
        lemma_first_word(w, rest);
    } else {
        let less = pad.skip(1);
        assert(blank(less)) by {
            assert forall|i: int| 0 <= i < less.len() implies is_space(#[trigger] less[i]) by {
                assert(is_space(pad[i + 1]));
            }
        }
        law_white_space_parts_words(less, w, rest);
        assert(is_space(pad[0]));
        assert(pad + w + rest =~= seq![pad[0]] + (less + w + rest));
        lemma_space_before_words(pad[0], less + w + rest);
    }
}

/// A text occurs in another exactly if the other is made of something, the text, and something.
pub proof fn law_what_occurs(s: Seq<char>, a: Seq<char>, needle: Seq<char>, b: Seq<char>)
    ensures
        occurs(a + needle + b, needle),
        occurs(s, needle) ==> exists|x: Seq<char>, y: Seq<char>| s == #[trigger] (x + needle + y),
{
    let t = a + needle + b;
    let n = a.len() as int;
    assert(t.subrange(n, n + needle.len()) =~= needle);
    if occurs(s, needle) {
        let i = choose|i: int|
            0 <= i && i + needle.len() <= s.len() && #[trigger] s.subrange(i, i + needle.len())
                == needle;
        assert(s =~= s.take(i) + needle + s.skip(i + needle.len()));
    }
}

/// Where the trimmed text stands: only white space is around it.
pub proof fn lemma_trimmed_stands(s: Seq<char>) -> (k: int)
    ensures
        0 <= k <= k + trimmed(s).len() <= s.len(),
        s.subrange(k, k + trimmed(s).len()) == trimmed(s),
        forall|j: int| 0 <= j < k ==> is_space(#[trigger] s[j]),
        forall|j: int| k + trimmed(s).len() <= j < s.len() ==> is_space(#[trigger] s[j]),
        snug(trimmed(s)),
{
    lemma_spaces(s);
    let k = spaces(s);
    let t = s.skip(k);
    lemma_trim_end_stands(t);
    let n = trimmed(s).len() as int;
    assert(s.subrange(k, k + n) =~= t.take(n));
    assert forall|j: int| k + n <= j < s.len() implies is_space(#[trigger] s[j]) by {
        assert(is_space(t[j - k]));
    }
    assert(n > 0 ==> trimmed(s)[0] == s[k]);
    k
}

proof fn lemma_trim_end_stands(s: Seq<char>)
    ensures
        trim_end(s).len() <= s.len(),
        s.take(trim_end(s).len() as int) == trim_end(s),
        trim_end(s).len() > 0 ==> !is_space(trim_end(s).last()),
        forall|j: int| trim_end(s).len() <= j < s.len() ==> is_space(#[trigger] s[j]),
    decreases s.len(),
{
    if s.len() > 0 && is_space(s.last()) {
        let t = s.drop_last();
        lemma_trim_end_stands(t);
        assert(s.take(trim_end(s).len() as int) =~= t.take(trim_end(s).len() as int));
        assert forall|j: int| trim_end(s).len() <= j < s.len() implies is_space(#[trigger] s[j]) by {
            if j < t.len() {
                assert(is_space(t[j]));
            }
        }
    } else {
        assert(s.take(s.len() as int) =~= s);
    }
}

} // verus!
