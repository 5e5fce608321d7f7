//! The JSON boundary: documents that `serde_json` reads and writes, and what they say.
//!
//! A document is a `serde_json::Value`; contracts speak of the `Doc` that it holds. The functions
//! that only hand a call on to `serde_json` are trusted; everything built on them is verified.
use vstd::prelude::*;

verus! {

/// What a JSON value says. A number is known by its text.
pub enum Doc {
    Null,
    Flag(bool),
    Number(Seq<char>),
    Text(Seq<char>),
    List(Seq<Doc>),
    Object(Map<Seq<char>, Doc>),
}

/// A JSON value of `serde_json`.
#[verifier::external_type_specification]
#[verifier::external_body]
pub struct ExValue(serde_json::Value);

/// The error of `serde_json`, carried through and not looked into.
#[verifier::external_type_specification]
#[verifier::external_body]
pub struct ExJsonError(serde_json::Error);

/// The members of a JSON object in `serde_json`.
#[verifier::external_type_specification]
#[verifier::external_body]
#[verifier::reject_recursive_types(K)]
#[verifier::reject_recursive_types(V)]
pub struct ExJsonMap<K, V>(serde_json::Map<K, V>);

/// What a value of `serde_json` holds.
pub uninterp spec fn doc(v: serde_json::Value) -> Doc;

/// What the members of an object of `serde_json` hold.
pub uninterp spec fn members(m: serde_json::Map<String, serde_json::Value>) -> Map<Seq<char>, Doc>;

/// What `serde_json::from_str` makes of a text; `None` where it fails.
pub uninterp spec fn parsed(text: Seq<char>) -> Option<Doc>;

/// The compact text that a value of `serde_json` displays as.
pub uninterp spec fn rendered(d: Doc) -> Seq<char>;

/// The member of an object under a key.
pub open spec fn member(d: Doc, key: Seq<char>) -> Option<Doc> {
    match d {
        Doc::Object(m) => if m.contains_key(key) {
            Some(m[key])
        } else {
            None
        },
        _ => None,
    }
}

/// The text under `key` in the object that `body` is; empty where there is none.
pub open spec fn text_field(body: Option<Doc>, key: Seq<char>) -> Seq<char> {
    match body {
        Some(d) => match member(d, key) {
            Some(Doc::Text(t)) => t,
            _ => Seq::empty(),
        },
        None => Seq::empty(),
    }
}

/// The members that are not null.
pub open spec fn without_nulls(m: Map<Seq<char>, Doc>) -> Map<Seq<char>, Doc> {
    Map::new(|k: Seq<char>| m.contains_key(k) && !(m[k] is Null), |k: Seq<char>| m[k])
}

/// A text, or null.
pub open spec fn optional_text(t: Option<Seq<char>>) -> Doc {
    match t {
        Some(s) => Doc::Text(s),
        None => Doc::Null,
    }
}

/// A list of texts.
pub open spec fn text_list(l: Seq<Seq<char>>) -> Doc {
    Doc::List(l.map_values(|s: Seq<char>| Doc::Text(s)))
}

// ---- Reading ----

/// `serde_json::from_str` into a `Value`: its result depends on the text alone, and has a name.
#[verifier::external_body]
fn parse(text: &str) -> (r: Result<serde_json::Value, serde_json::Error>)
    ensures
        match r {
            Ok(v) => parsed(text@) == Some(doc(v)),
            Err(_) => parsed(text@) is None,
        },
{
    serde_json::from_str(text)
}

/// `Value::get` with a string: the member of an object under that key, if there is one; nothing
/// for a value that is no object.
#[verifier::external_body]
fn get<'a>(v: &'a serde_json::Value, key: &str) -> (r: Option<&'a serde_json::Value>)
    ensures
        match r {
            Some(m) => member(doc(*v), key@) == Some(doc(*m)),
            None => member(doc(*v), key@) is None,
        },
{
    v.get(key)
}

/// `Value::as_str`: the text, for a value that is a text.
#[verifier::external_body]
fn as_text(v: &serde_json::Value) -> (r: Option<&str>)
    ensures
        match r {
            Some(t) => doc(*v) == Doc::Text(t@),
            None => !(doc(*v) is Text),
        },
{
    v.as_str()
}

/// `Value::is_null`.
#[verifier::external_body]
fn is_null(v: &serde_json::Value) -> (r: bool)
    ensures
        r == (doc(*v) is Null),
{
    v.is_null()
}

/// A request body that has been parsed; nothing where it was no JSON.
pub struct Body {
    value: Option<serde_json::Value>,
}

impl Body {
    pub closed spec fn view(&self) -> Option<Doc> {
        match self.value {
            Some(v) => Some(doc(v)),
            None => None,
        }
    }

    pub fn parse(text: &str) -> (b: Body)
        ensures
            b@ == parsed(text@),
    {
        match parse(text) {
            Ok(v) => Body { value: Some(v) },
            Err(_) => Body { value: None },
        }
    }

    /// The text under a key, or the empty text.
    pub fn text(&self, key: &str) -> (r: String)
        ensures
            r@ == text_field(self@, key@),
    {
        match &self.value {
            Some(v) => match get(v, key) {
                Some(m) => match as_text(m) {
                    Some(t) => t.to_owned(),
                    None => String::new(),
                },
                None => String::new(),
            },
            None => String::new(),
        }
    }
}

// ---- Building ----

/// `Value::Null`.
#[verifier::external_body]
pub(crate) fn null() -> (v: serde_json::Value)
    ensures
        doc(v) == Doc::Null,
{
    serde_json::Value::Null
}

/// `Value::Bool`.
#[verifier::external_body]
pub(crate) fn flag(b: bool) -> (v: serde_json::Value)
    ensures
        doc(v) == Doc::Flag(b),
{
    serde_json::Value::Bool(b)
}

/// `Value::String`.
#[verifier::external_body]
pub(crate) fn text(s: String) -> (v: serde_json::Value)
    ensures
        doc(v) == Doc::Text(s@),
{
    serde_json::Value::String(s)
}

/// `Value::Array`.
#[verifier::external_body]
pub(crate) fn array(items: Vec<serde_json::Value>) -> (v: serde_json::Value)
    ensures
        doc(v) == Doc::List(items@.map_values(|x: serde_json::Value| doc(x))),
{
    serde_json::Value::Array(items)
}

/// `Value::Object`.
#[verifier::external_body]
pub(crate) fn object(m: serde_json::Map<String, serde_json::Value>) -> (v: serde_json::Value)
    ensures
        doc(v) == Doc::Object(members(m)),
{
    serde_json::Value::Object(m)
}

/// `Map::new`: no members.
#[verifier::external_body]
pub(crate) fn new_map() -> (m: serde_json::Map<String, serde_json::Value>)
    ensures
        members(m) =~= Map::empty(),
{
    serde_json::Map::new()
}

/// `Map::insert`: the key gets the value, and the value it had before is handed back.
#[verifier::external_body]
pub(crate) fn insert(
    m: &mut serde_json::Map<String, serde_json::Value>,
    key: String,
    v: serde_json::Value,
) -> (r: Option<serde_json::Value>)
    ensures
        members(*final(m)) == members(*old(m)).insert(key@, doc(v)),
        match r {
            Some(o) => members(*old(m)).contains_key(key@) && doc(o) == members(*old(m))[key@],
            None => !members(*old(m)).contains_key(key@),
        },
{
    m.insert(key, v)
}

fn present(v: &serde_json::Value) -> (r: bool)
    ensures
        r == !(doc(*v) is Null),
{
    !is_null(v)
}

/// `Map::retain` with `present`: the members that are null leave, the others stay as they are.
#[verifier::external_body]
pub(crate) fn drop_nulls(m: &mut serde_json::Map<String, serde_json::Value>)
    ensures
        members(*final(m)) == without_nulls(members(*old(m))),
{
    m.retain(|_, v| present(v))
}

/// `Value`'s `to_string`: compact JSON, with the members of an object in the order of their keys.
/// The text depends on what the value holds alone, and has a name.
#[verifier::external_body]
pub(crate) fn render(v: &serde_json::Value) -> (r: String)
    ensures
        r@ == rendered(doc(*v)),
{
    v.to_string()
}

/// A text or null.
pub(crate) fn text_or_null(t: Option<String>) -> (v: serde_json::Value)
    ensures
        doc(v) == optional_text(
            match t {
                Some(s) => Some(s@),
                None => None,
            },
        ),
{
    match t {
        Some(s) => text(s),
        None => null(),
    }
}

/// A list of texts.
pub(crate) fn texts(l: &Vec<String>) -> (v: serde_json::Value)
    ensures
        doc(v) == text_list(l.deep_view()),
{
    let mut items: Vec<serde_json::Value> = Vec::new();
    let mut i: usize = 0;
    while i < l.len()
        invariant
            i <= l@.len(),
            items@.len() == i,
            forall|j: int| 0 <= j < i ==> doc(#[trigger] items@[j]) == Doc::Text(l@[j]@),
        decreases l@.len() - i,
    {
        items.push(text(l[i].clone()));
        i += 1;
    }
    assert(items@.map_values(|x: serde_json::Value| doc(x)) =~= l.deep_view().map_values(
        |s: Seq<char>| Doc::Text(s),
    ));
    array(items)
}

// ---- Replies ----

/// What an HTTP handler answers: status, content type and body.
pub type Reply = (&'static str, &'static str, String);

/// The reply is JSON with status `200 OK` and this body.
pub open spec fn json_reply(r: Reply, body: Seq<char>) -> bool {
    &&& r.0@ == "200 OK"@
    &&& r.1@ == "application/json"@
    &&& r.2@ == body
}

/// The body `{ok: false, error}`.
pub open spec fn error_body(msg: Seq<char>) -> Seq<char> {
    rendered(
        Doc::Object(map!["ok"@ => Doc::Flag(false), "error"@ => Doc::Text(msg)]),
    )
}

/// A refusal, as every panel shows it.
pub fn err(msg: &str) -> (r: Reply)
    ensures
        json_reply(r, error_body(msg@)),
{
    let mut m = new_map();
    insert(&mut m, "ok".to_owned(), flag(false));
    insert(&mut m, "error".to_owned(), text(msg.to_owned()));
    ("200 OK", "application/json", render(&object(m)))
}

/// The plain success.
pub fn ok() -> (r: Reply)
    ensures
        json_reply(r, "{\"ok\":true}"@),
{
    ("200 OK", "application/json", "{\"ok\":true}".to_owned())
}

// ---- Laws ----

/// A text under a key is found if the body is an object that has it there; everything else, another
/// kind of value, another kind of body or none at all, counts as the empty text.
pub proof fn law_texts_are_found_under_their_keys(
    m: Map<Seq<char>, Doc>,
    key: Seq<char>,
    t: Seq<char>,
    d: Doc,
)
    ensures
        m.contains_key(key) && m[key] == Doc::Text(t) ==> text_field(Some(Doc::Object(m)), key) == t,
        m.contains_key(key) && !(m[key] is Text) ==> text_field(Some(Doc::Object(m)), key).len()
            == 0,
        !m.contains_key(key) ==> text_field(Some(Doc::Object(m)), key).len() == 0,
        !(d is Object) ==> text_field(Some(d), key).len() == 0,
        text_field(None, key).len() == 0,
{
}

/// A list of texts holds each of them, in order; no text is null.
pub proof fn law_texts_are_listed(l: Seq<Seq<char>>, i: int)
    requires
        0 <= i < l.len(),
    ensures
        text_list(l) is List,
        text_list(l)->List_0.len() == l.len(),
        text_list(l)->List_0[i] == Doc::Text(l[i]),
        optional_text(Some(l[i])) == Doc::Text(l[i]),
        optional_text(None) == Doc::Null,
{
}

} // verus!
