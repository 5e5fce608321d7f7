//! Team codes: the classroom's identities, and the queue of teams that ask for one.
//!
//! Identities live in the broker's password file. Every change carries the professor's current
//! code, which the broker itself verifies; here stand the decisions: what a request asks for,
//! whether it may be done, which command does it and what is answered.
//!
//! A team without a code asks for one with a name and gets a token, a claim ticket. The professor
//! approves the name, and the code is handed to whoever holds the token, exactly once. Times are
//! nanoseconds on a clock that never goes back.
use vstd::prelude::*;
use vstd::utf8::encode_utf8;

use crate::json::{
    err, error_body, flag, insert, json_reply, new_map, object, ok, parsed, render, rendered, text,
    text_field, text_list, texts, Body, Doc, Reply,
};
use crate::mqtt::{connect_bytes, connect_packet};
use crate::number::{hex_bytes, hex_of_bytes};
use crate::text::{
    chars, cut, law_line_feeds_end_lines, law_separators_cut, line_seq, lines, listed, same,
    split_once, trim, trimmed,
};

verus! {

/// The broker's password file.
pub const PASSWD: &'static str = "/etc/mosquitto/hub-passwd";

/// Present as long as the class runs the codes that the image was seeded with.
pub const PLACEHOLDER_MARKER: &'static str = "/etc/mosquitto/.placeholder-creds";

/// The identity of fresh boards, compiled into their firmware: it is never changed.
pub const POOL_USER: &'static str = "unassigned";

/// How long a request stays open, and an approved code waits for pickup: half an hour.
pub const REQUEST_TTL: u64 = 1_800_000_000_000;

/// How many requests may be open at once.
pub const REQUEST_CAP: usize = 20;

// ---- Names and codes ----

pub open spec fn is_name_start(c: char) -> bool {
    'a' <= c <= 'z' || '0' <= c <= '9'
}

pub open spec fn is_name_char(c: char) -> bool {
    is_name_start(c) || c == '-' || c == '_'
}

/// A team name: 1 to 32 characters out of `a-z 0-9 - _`, the first a letter or a digit.
pub open spec fn is_name(user: Seq<char>) -> bool {
    &&& 1 <= user.len() <= 32
    &&& is_name_start(user[0])
    &&& forall|i: int| 0 <= i < user.len() ==> is_name_char(#[trigger] user[i])
}

/// A code: 1 to 64 bytes that do not start with `-`.
pub open spec fn is_code(pass: Seq<char>) -> bool {
    &&& pass.len() > 0
    &&& encode_utf8(pass).len() <= 64
    &&& pass[0] != '-'
}

/// A name that no team can have.
pub open spec fn is_reserved(name: Seq<char>) -> bool {
    name == "professor"@ || name == "unassigned"@
}

fn name_start(c: char) -> (r: bool)
    ensures
        r == is_name_start(c),
{
    ('a' <= c && c <= 'z') || ('0' <= c && c <= '9')
}

/// Both a name and a code end up as arguments of a command, where a leading `-` would be read as
/// a flag.
pub fn valid_name(user: &str) -> (r: bool)
    ensures
        r == is_name(user@),
{
    let v = chars(user);
    if v.len() == 0 || v.len() > 32 || !name_start(v[0]) {
        return false;
    }
    let mut i: usize = 0;
    while i < v.len()
        invariant
            v@ == user@,
            i <= v@.len(),
            forall|j: int| 0 <= j < i ==> is_name_char(#[trigger] v@[j]),
        decreases v@.len() - i,
    {
        let c = v[i];
        if !(name_start(c) || c == '-' || c == '_') {
            return false;
        }
        i += 1;
    }
    true
}

pub fn valid_pass(pass: &str) -> (r: bool)
    ensures
        r == is_code(pass@),
{
    let v = chars(pass);
    let b = pass.as_bytes();
    v.len() > 0 && b.len() <= 64 && v[0] != '-'
}

fn reserved(name: &str) -> (r: bool)
    ensures
        r == is_reserved(name@),
{
    same(name, "professor") || same(name, POOL_USER)
}

/// The characters of a minted code: no `0`, `o`, `1`, `l` or `i`, which look alike.
pub const ALPHABET: &'static str = "abcdefghjkmnpqrstuvwxyz23456789";

/// The code that random bytes give: one character of the alphabet for each.
pub open spec fn minted(entropy: Seq<u8>) -> Seq<char> {
    entropy.map_values(|b: u8| ALPHABET@[(b % 31) as int])
}

/// Mints a code that is easy to type, out of eight random bytes.
pub fn gen_code(entropy: &[u8; 8]) -> (r: String)
    ensures
        r@ == minted(entropy@),
        r@.len() == 8,
{
    let alphabet = chars(ALPHABET);
    proof {
        reveal_strlit("abcdefghjkmnpqrstuvwxyz23456789");
    }
    let mut out = String::new();
    let mut i: usize = 0;
    while i < 8
        invariant
            alphabet@ == ALPHABET@,
            alphabet@.len() == 31,
            i <= 8,
            out@ =~= minted(entropy@.take(i as int)),
        decreases 8 - i,
    {
        let k: usize = (entropy[i] % 31) as usize;
        out.push(alphabet[k]);
        i += 1;
    }
    assert(entropy@.take(8) =~= entropy@);
    out
}

/// Writes random bytes as a token.
pub fn rand_hex(entropy: &[u8]) -> (r: String)
    ensures
        r@ == hex_bytes(entropy@),
{
    hex_of_bytes(entropy)
}

// ---- The password file ----

/// The names in lines of the form `name:rest`; other lines name nobody.
pub open spec fn names_in(lines: Seq<Seq<char>>) -> Seq<Seq<char>>
    decreases lines.len(),
{
    if lines.len() == 0 {
        Seq::empty()
    } else {
        let before = names_in(lines.drop_last());
        match cut(lines.last(), ':') {
            Some(p) => before.push(p.0),
            None => before,
        }
    }
}

/// The identities in a password file.
pub open spec fn users_of(passwd: Seq<char>) -> Seq<Seq<char>> {
    names_in(line_seq(passwd))
}

pub fn list_users(passwd: &str) -> (r: Vec<String>)
    ensures
        r.deep_view() == users_of(passwd@),
{
    let all = lines(passwd);
    let ghost ls = all.deep_view();
    let mut out: Vec<String> = Vec::new();
    let mut i: usize = 0;
    assert(ls.take(0) =~= Seq::<Seq<char>>::empty());
    assert(out.deep_view() =~= Seq::<Seq<char>>::empty());
    while i < all.len()
        invariant
            ls == all.deep_view(),
            i <= all@.len(),
            out.deep_view() == names_in(ls.take(i as int)),
        decreases all@.len() - i,
    {
        let ghost t = ls.take(i + 1);
        assert(t.drop_last() =~= ls.take(i as int));
        assert(t.last() == all@[i as int]@);
        let ghost before = out.deep_view();
        match split_once(all[i].as_str(), ':') {
            Some((name, _rest)) => {
                out.push(name);
                assert(out.deep_view() =~= before.push(name@));
            },
            None => {},
        }
        i += 1;
    }
    assert(ls.take(all@.len() as int) =~= ls);
    out
}

/// `GET /codes/list`: the identities, and whether the class still runs seeded codes.
pub fn list_json(passwd: &str, placeholders: bool) -> (r: String)
    ensures
        r@ == rendered(
            Doc::Object(
                map!["users"@ => text_list(users_of(passwd@)), "placeholders"@ => Doc::Flag(placeholders)],
            ),
        ),
{
    let mut m = new_map();
    insert(&mut m, "users".to_owned(), texts(&list_users(passwd)));
    insert(&mut m, "placeholders".to_owned(), flag(placeholders));
    render(&object(m))
}

// ---- Changing identities ----

/// What to do next about a change that was asked for.
pub enum Step {
    /// Answer this; nothing is to be done.
    Answer(Reply),
    /// Run `mosquitto_passwd` with these arguments.
    Run(Vec<String>),
}

/// What to do after `mosquitto_passwd` has run.
pub struct Done {
    pub reply: Reply,
    /// The class no longer runs its seeded codes.
    pub clear_marker: bool,
    /// The broker must read its password file again.
    pub reload: bool,
}

pub open spec fn answers_error(s: Step, msg: Seq<char>) -> bool {
    s matches Step::Answer(r) && json_reply(r, error_body(msg))
}

pub open spec fn runs(s: Step, args: Seq<Seq<char>>) -> bool {
    s matches Step::Run(v) && v.deep_view() == args
}

/// The professor's code that a request carries.
pub fn professor_code(body: &str) -> (r: String)
    ensures
        r@ == text_field(parsed(body@), "auth"@),
{
    Body::parse(body).text("auth")
}

/// The packet that asks the broker whether a request carries the professor's code.
pub fn professor_packet(body: &str) -> (r: Vec<u8>)
    ensures
        r@ == connect_bytes("professor"@, text_field(parsed(body@), "auth"@)),
{
    connect_packet("professor", professor_code(body).as_str())
}

/// The arguments that give `user` the code `pass`.
pub open spec fn set_args(user: Seq<char>, pass: Seq<char>) -> Seq<Seq<char>> {
    seq!["-b"@, "/etc/mosquitto/hub-passwd"@, user, pass]
}

/// The arguments that remove `user`.
pub open spec fn del_args(user: Seq<char>) -> Seq<Seq<char>> {
    seq!["-D"@, "/etc/mosquitto/hub-passwd"@, user]
}

fn set_command(user: &str, pass: &str) -> (r: Vec<String>)
    ensures
        r.deep_view() == set_args(user@, pass@),
{
    let mut v: Vec<String> = Vec::new();
    v.push("-b".to_owned());
    v.push(PASSWD.to_owned());
    v.push(user.to_owned());
    v.push(pass.to_owned());
    assert(v.deep_view() =~= set_args(user@, pass@));
    v
}

/// What to do about giving `user` the code `pass`.
pub open spec fn set_step(accepted: bool, user: Seq<char>, pass: Seq<char>, s: Step) -> bool {
    if !accepted {
        answers_error(s, "professor code rejected"@)
    } else if !is_name(user) {
        answers_error(
            s,
            "names are 1-32 chars: a-z 0-9 - _ (starting with a letter or digit)"@,
        )
    } else if user == "unassigned"@ {
        answers_error(s, "the pool identity is fixed — it matches the firmware default"@)
    } else if !is_code(pass) {
        answers_error(s, "codes are 1-64 chars and can't start with '-'"@)
    } else {
        runs(s, set_args(user, pass))
    }
}

/// Creates or rotates an identity, once the broker has accepted or rejected the professor's code.
pub fn set_code(accepted: bool, user: &str, pass: &str) -> (s: Step)
    ensures
        set_step(accepted, user@, pass@, s),
{
    if !accepted {
        return Step::Answer(err("professor code rejected"));
    }
    if !valid_name(user) {
        return Step::Answer(
            err("names are 1-32 chars: a-z 0-9 - _ (starting with a letter or digit)"),
        );
    }
    if same(user, POOL_USER) {
        return Step::Answer(err("the pool identity is fixed — it matches the firmware default"));
    }
    if !valid_pass(pass) {
        return Step::Answer(err("codes are 1-64 chars and can't start with '-'"));
    }
    Step::Run(set_command(user, pass))
}

/// `POST /codes/set` with body `{auth, user, pass}`.
pub fn set_json(body: &str, accepted: bool) -> (s: Step)
    ensures
        set_step(
            accepted,
            text_field(parsed(body@), "user"@),
            text_field(parsed(body@), "pass"@),
            s,
        ),
{
    let b = Body::parse(body);
    set_code(accepted, b.text("user").as_str(), b.text("pass").as_str())
}

/// After the command of `set_json`.
pub fn set_done(success: bool) -> (d: Done)
    ensures
        d.clear_marker == success,
        d.reload == success,
        json_reply(
            d.reply,
            if success {
                "{\"ok\":true}"@
            } else {
                error_body("mosquitto_passwd failed"@)
            },
        ),
{
    if !success {
        return Done { reply: err("mosquitto_passwd failed"), clear_marker: false, reload: false };
    }
    Done { reply: ok(), clear_marker: true, reload: true }
}

/// What to do about removing `user`.
pub open spec fn del_step(
    accepted: bool,
    user: Seq<char>,
    users: Seq<Seq<char>>,
    s: Step,
) -> bool {
    if !accepted {
        answers_error(s, "professor code rejected"@)
    } else if is_reserved(user) {
        answers_error(s, "professor and the pool identity cannot be deleted"@)
    } else if !is_name(user) || !users.contains(user) {
        answers_error(s, "no such team"@)
    } else {
        runs(s, del_args(user))
    }
}

/// Removes an identity, once the broker has accepted or rejected the professor's code.
pub fn del_code(accepted: bool, user: &str, passwd: &str) -> (s: Step)
    ensures
        del_step(accepted, user@, users_of(passwd@), s),
{
    if !accepted {
        return Step::Answer(err("professor code rejected"));
    }
    if reserved(user) {
        return Step::Answer(err("professor and the pool identity cannot be deleted"));
    }
    if !valid_name(user) || !listed(&list_users(passwd), user) {
        return Step::Answer(err("no such team"));
    }
    let mut v: Vec<String> = Vec::new();
    v.push("-D".to_owned());
    v.push(PASSWD.to_owned());
    v.push(user.to_owned());
    assert(v.deep_view() =~= del_args(user@));
    Step::Run(v)
}

/// `POST /codes/del` with body `{auth, user}`.
pub fn del_json(body: &str, accepted: bool, passwd: &str) -> (s: Step)
    ensures
        del_step(accepted, text_field(parsed(body@), "user"@), users_of(passwd@), s),
{
    del_code(accepted, Body::parse(body).text("user").as_str(), passwd)
}

/// After the command of `del_json`.
pub fn del_done(success: bool) -> (d: Done)
    ensures
        !d.clear_marker,
        d.reload == success,
        json_reply(
            d.reply,
            if success {
                "{\"ok\":true}"@
            } else {
                error_body("mosquitto_passwd failed"@)
            },
        ),
{
    if !success {
        return Done { reply: err("mosquitto_passwd failed"), clear_marker: false, reload: false };
    }
    Done { reply: ok(), clear_marker: false, reload: true }
}

// ---- Access requests ----

/// Where a request stands.
pub enum ReqState {
    Waiting,
    /// The minted code, waiting to be picked up once.
    Approved(String),
    Denied,
}

/// An open request.
pub struct Pending {
    name: String,
    token: String,
    created: u64,
    state: ReqState,
}

/// Where a request stands, in contracts.
pub enum Status {
    Waiting,
    Approved(Seq<char>),
    Denied,
}

/// An open request, in contracts.
pub struct Entry {
    pub name: Seq<char>,
    pub token: Seq<char>,
    pub created: u64,
    pub status: Status,
}

impl View for ReqState {
    type V = Status;

    open spec fn view(&self) -> Status {
        match self {
            ReqState::Waiting => Status::Waiting,
            ReqState::Approved(pass) => Status::Approved(pass@),
            ReqState::Denied => Status::Denied,
        }
    }
}

impl View for Pending {
    type V = Entry;

    closed spec fn view(&self) -> Entry {
        Entry {
            name: self.name@,
            token: self.token@,
            created: self.created,
            status: self.state@,
        }
    }
}

/// The open requests, in the order in which they came.
pub struct Queue {
    entries: Vec<Pending>,
}

impl View for Queue {
    type V = Seq<Entry>;

    closed spec fn view(&self) -> Seq<Entry> {
        Seq::new(self.entries@.len(), |i: int| self.entries@[i]@)
    }
}

/// A request is open for half an hour after it was made or approved.
pub open spec fn is_open(e: Entry, now: u64) -> bool {
    now - e.created < REQUEST_TTL
}

/// The requests that are still open.
pub open spec fn open_entries(q: Seq<Entry>, now: u64) -> Seq<Entry>
    decreases q.len(),
{
    if q.len() == 0 {
        Seq::empty()
    } else if is_open(q.last(), now) {
        open_entries(q.drop_last(), now).push(q.last())
    } else {
        open_entries(q.drop_last(), now)
    }
}

/// Does a request still stand? One that was denied does not: it only waits for its poll.
pub open spec fn stands(e: Entry) -> bool {
    !(e.status is Denied)
}

/// Is this a request under a name that still stands?
pub open spec fn holds_name(e: Entry, name: Seq<char>) -> bool {
    e.name == name && stands(e)
}

/// Does a request under the name still stand?
pub open spec fn has_name(q: Seq<Entry>, name: Seq<char>) -> bool {
    exists|i: int| 0 <= i < q.len() && holds_name(#[trigger] q[i], name)
}

/// How many requests still stand.
pub open spec fn standing(q: Seq<Entry>) -> nat
    decreases q.len(),
{
    if q.len() == 0 {
        0
    } else if stands(q.last()) {
        standing(q.drop_last()) + 1
    } else {
        standing(q.drop_last())
    }
}

pub open spec fn is_waiting(e: Entry, name: Seq<char>) -> bool {
    e.name == name && e.status is Waiting
}

/// Does the name wait for a decision?
pub open spec fn has_waiting(q: Seq<Entry>, name: Seq<char>) -> bool {
    exists|i: int| 0 <= i < q.len() && is_waiting(#[trigger] q[i], name)
}

/// The position of the first request under a name that still stands; the length where there is
/// none.
pub open spec fn name_index(q: Seq<Entry>, name: Seq<char>) -> int
    decreases q.len(),
{
    if q.len() == 0 || holds_name(q[0], name) {
        0
    } else {
        1 + name_index(q.skip(1), name)
    }
}

/// The position of the latest request under a name, whatever became of it; below zero where there
/// is none.
pub open spec fn latest_index(q: Seq<Entry>, name: Seq<char>) -> int
    decreases q.len(),
{
    if q.len() == 0 {
        -1
    } else if q.last().name == name {
        q.len() - 1
    } else {
        latest_index(q.drop_last(), name)
    }
}

/// The position of the first request under a name that waits; the length where there is none.
pub open spec fn waiting_index(q: Seq<Entry>, name: Seq<char>) -> int
    decreases q.len(),
{
    if q.len() == 0 || is_waiting(q[0], name) {
        0
    } else {
        1 + waiting_index(q.skip(1), name)
    }
}

/// The position of the first request with a token; the length where there is none.
pub open spec fn token_index(q: Seq<Entry>, token: Seq<char>) -> int
    decreases q.len(),
{
    if q.len() == 0 || q[0].token == token {
        0
    } else {
        1 + token_index(q.skip(1), token)
    }
}

pub proof fn lemma_name_index(q: Seq<Entry>, name: Seq<char>)
    ensures
        0 <= name_index(q, name) <= q.len(),
        name_index(q, name) < q.len() ==> holds_name(q[name_index(q, name)], name),
        forall|j: int| 0 <= j < name_index(q, name) ==> !holds_name(#[trigger] q[j], name),
        name_index(q, name) < q.len() <==> has_name(q, name),
    decreases q.len(),
{
    if q.len() > 0 {
        if !holds_name(q[0], name) {
            let t = q.skip(1);
            lemma_name_index(t, name);
            assert forall|j: int| 0 <= j < name_index(q, name) implies !holds_name(
                #[trigger] q[j],
                name,
            ) by {
                if j > 0 {
                    assert(q[j] == t[j - 1]);
                }
            }
        }
    }
}

pub proof fn lemma_latest_index(q: Seq<Entry>, name: Seq<char>)
    ensures
        -1 <= latest_index(q, name) < q.len(),
        0 <= latest_index(q, name) ==> q[latest_index(q, name)].name == name,
        forall|j: int| latest_index(q, name) < j < q.len() ==> (#[trigger] q[j]).name != name,
    decreases q.len(),
{
    if q.len() > 0 && q.last().name != name {
        let s = q.drop_last();
        lemma_latest_index(s, name);
        assert forall|j: int| latest_index(q, name) < j < q.len() implies (#[trigger] q[j]).name
            != name by {
            if j < s.len() {
                assert(q[j] == s[j]);
            }
        }
    }
}

pub proof fn lemma_waiting_index(q: Seq<Entry>, name: Seq<char>)
    ensures
        0 <= waiting_index(q, name) <= q.len(),
        waiting_index(q, name) < q.len() ==> is_waiting(q[waiting_index(q, name)], name),
        forall|j: int| 0 <= j < waiting_index(q, name) ==> !is_waiting(#[trigger] q[j], name),
        waiting_index(q, name) < q.len() <==> has_waiting(q, name),
    decreases q.len(),
{
    if q.len() > 0 {
        if !is_waiting(q[0], name) {
            let t = q.skip(1);
            lemma_waiting_index(t, name);
            assert forall|j: int| 0 <= j < waiting_index(q, name) implies !is_waiting(
                #[trigger] q[j],
                name,
            ) by {
                if j > 0 {
                    assert(q[j] == t[j - 1]);
                }
            }
        }
    }
}

pub proof fn lemma_token_index(q: Seq<Entry>, token: Seq<char>)
    ensures
        0 <= token_index(q, token) <= q.len(),
        token_index(q, token) < q.len() ==> q[token_index(q, token)].token == token,
        forall|j: int| 0 <= j < token_index(q, token) ==> (#[trigger] q[j]).token != token,
    decreases q.len(),
{
    if q.len() > 0 {
        if q[0].token != token {
            let t = q.skip(1);
            lemma_token_index(t, token);
            assert forall|j: int| 0 <= j < token_index(q, token) implies (#[trigger] q[j]).token
                != token by {
                if j > 0 {
                    assert(q[j] == t[j - 1]);
                }
            }
        }
    }
}

/// Why a request for a code is refused.
pub enum Refusal {
    NotAName,
    Reserved,
    HasCode,
    AlreadyAsked,
    TooMany,
}

pub open spec fn refusal_text(r: Refusal) -> Seq<char> {
    match r {
        Refusal::NotAName => "names are 1-32 chars: a-z 0-9 - _ (starting with a letter or digit)"@,
        Refusal::Reserved => "that name is reserved"@,
        Refusal::HasCode => "that team already has a code — ask the professor for it"@,
        Refusal::AlreadyAsked =>
            "that name is already requested — if that wasn't you, tell the professor"@,
        Refusal::TooMany => "too many open requests — ask the professor to clear some"@,
    }
}

/// Whether a name may ask for a code, and the queue that is then left to add it to. A request that
/// was denied stands in nobody's way: whoever lost their token has it denied, and asks again.
pub open spec fn admission(
    q: Seq<Entry>,
    users: Seq<Seq<char>>,
    name: Seq<char>,
    now: u64,
) -> (Option<Refusal>, Seq<Entry>) {
    if !is_name(name) {
        (Some(Refusal::NotAName), q)
    } else if is_reserved(name) {
        (Some(Refusal::Reserved), q)
    } else if users.contains(name) {
        (Some(Refusal::HasCode), q)
    } else if has_name(open_entries(q, now), name) {
        (Some(Refusal::AlreadyAsked), open_entries(q, now))
    } else if standing(open_entries(q, now)) >= REQUEST_CAP {
        (Some(Refusal::TooMany), open_entries(q, now))
    } else {
        (None, open_entries(q, now))
    }
}

/// The queue after a name has asked for a code.
pub open spec fn requested(
    q: Seq<Entry>,
    users: Seq<Seq<char>>,
    name: Seq<char>,
    token: Seq<char>,
    now: u64,
) -> Seq<Entry> {
    let (refusal, left) = admission(q, users, name, now);
    if refusal is Some {
        left
    } else {
        left.push(Entry { name, token, created: now, status: Status::Waiting })
    }
}

/// The body that is answered to a request.
pub open spec fn request_body(refusal: Option<Refusal>, token: Seq<char>) -> Seq<char> {
    match refusal {
        Some(r) => error_body(refusal_text(r)),
        None => rendered(
            Doc::Object(map!["ok"@ => Doc::Flag(true), "token"@ => Doc::Text(token)]),
        ),
    }
}

/// What a poll with a token finds. The empty token finds nothing.
pub open spec fn polled(q: Seq<Entry>, token: Seq<char>, now: u64) -> Option<Entry> {
    let left = open_entries(q, now);
    let i = token_index(left, token);
    if token.len() > 0 && i < left.len() {
        Some(left[i])
    } else {
        None
    }
}

/// The queue after a poll: a decision that was delivered is forgotten.
pub open spec fn after_poll(q: Seq<Entry>, token: Seq<char>, now: u64) -> Seq<Entry> {
    let left = open_entries(q, now);
    match polled(q, token, now) {
        Some(e) => if e.status is Waiting {
            left
        } else {
            left.remove(token_index(left, token))
        },
        None => left,
    }
}

/// The body that is answered to a poll.
pub open spec fn poll_body(found: Option<Entry>) -> Seq<char> {
    match found {
        None => "{\"status\":\"unknown\"}"@,
        Some(e) => match e.status {
            Status::Waiting => "{\"status\":\"waiting\"}"@,
            Status::Denied => "{\"status\":\"denied\"}"@,
            Status::Approved(pass) => rendered(
                Doc::Object(
                    map![
                        "status"@ => Doc::Text("approved"@),
                        "user"@ => Doc::Text(e.name),
                        "pass"@ => Doc::Text(pass)
                    ],
                ),
            ),
        },
    }
}

/// The names that wait for a decision.
pub open spec fn waiting_names(q: Seq<Entry>) -> Seq<Seq<char>>
    decreases q.len(),
{
    if q.len() == 0 {
        Seq::empty()
    } else if q.last().status is Waiting {
        waiting_names(q.drop_last()).push(q.last().name)
    } else {
        waiting_names(q.drop_last())
    }
}

/// The body of the public list of requests.
pub open spec fn requests_body(q: Seq<Entry>, now: u64) -> Seq<char> {
    rendered(Doc::Object(map!["requests"@ => text_list(waiting_names(open_entries(q, now)))]))
}

/// The queue after a name was approved: its latest request holds the code, and the time for pickup
/// starts anew. That is the request that stands, if one does; where it was denied while the code
/// was minted, the approval wins, for the broker has the code by then.
pub open spec fn approved(q: Seq<Entry>, name: Seq<char>, pass: Seq<char>, now: u64) -> Seq<
    Entry,
> {
    let i = latest_index(q, name);
    if 0 <= i {
        q.update(i, Entry { created: now, status: Status::Approved(pass), ..q[i] })
    } else {
        q
    }
}

/// The queue after a name was denied: its first waiting request is marked.
pub open spec fn denied(q: Seq<Entry>, name: Seq<char>) -> Seq<Entry> {
    let i = waiting_index(q, name);
    if i < q.len() {
        q.update(i, Entry { status: Status::Denied, ..q[i] })
    } else {
        q
    }
}

/// What to do next about an approval.
pub enum Approval {
    /// Answer this; nothing is to be done.
    Answer(Reply),
    /// Run `mosquitto_passwd` with the arguments, which give the name the minted code.
    Mint { args: Vec<String>, name: String, pass: String },
}

/// What to do about approving a name.
pub open spec fn approve_step(
    q: Seq<Entry>,
    name: Seq<char>,
    accepted: bool,
    entropy: Seq<u8>,
    now: u64,
    a: Approval,
) -> bool {
    if !accepted {
        a matches Approval::Answer(r) && json_reply(r, error_body("professor code rejected"@))
    } else if !has_waiting(open_entries(q, now), name) {
        a matches Approval::Answer(r) && json_reply(
            r,
            error_body("no such request — it may have expired"@),
        )
    } else {
        a matches Approval::Mint { args, name: n, pass } && n@ == name && pass@ == minted(entropy)
            && args.deep_view() == set_args(name, minted(entropy))
    }
}

/// The body that is answered to a denial.
pub open spec fn deny_body(q: Seq<Entry>, name: Seq<char>, accepted: bool) -> Seq<char> {
    if !accepted {
        error_body("professor code rejected"@)
    } else if has_waiting(q, name) {
        "{\"ok\":true}"@
    } else {
        error_body("no such request"@)
    }
}

impl Queue {
    pub fn new() -> (q: Queue)
        ensures
            q@ == Seq::<Entry>::empty(),
    {
        let q = Queue { entries: Vec::new() };
        assert(q@ =~= Seq::<Entry>::empty());
        q
    }

    /// Drops the requests whose time has passed.
    pub fn prune(&mut self, now: u64)
        ensures
            final(self)@ == open_entries(old(self)@, now),
    {
        let ghost q = self@;
        let ghost mut done: int = 0;
        let mut i: usize = 0;
        assert(q.take(0) =~= Seq::<Entry>::empty());
        assert(self@ =~= open_entries(q.take(0), now) + q.skip(0));
        while i < self.entries.len()
            invariant
                0 <= done <= q.len(),
                i <= self@.len(),
                self@.len() - i == q.len() - done,
                self@.take(i as int) == open_entries(q.take(done), now),
                self@.skip(i as int) == q.skip(done),
            decreases self@.len() - i,
        {
            let ghost before = self@;
            let ghost t = q.take(done + 1);
            assert(t.drop_last() =~= q.take(done));
            assert(t.last() == q.skip(done)[0]);
            assert(before.skip(i as int)[0] == before[i as int]);
            let created = self.entries[i].created;
            if now >= created && now - created >= REQUEST_TTL {
                self.entries.remove(i);
                assert(self@ =~= before.remove(i as int));
                assert(self@.take(i as int) =~= before.take(i as int));
                assert(self@.skip(i as int) =~= before.skip(i as int).skip(1));
            } else {
                i += 1;
                assert(self@.take(i as int) =~= before.take(i - 1).push(before[i - 1]));
                assert(self@.skip(i as int) =~= before.skip(i - 1).skip(1));
            }
            assert(q.skip(done).skip(1) =~= q.skip(done + 1));
            proof {
                done = done + 1;
            }
        }
        assert(q.take(q.len() as int) =~= q);
        assert(self@.take(i as int) =~= self@);
    }

    fn find_name(&self, name: &str) -> (r: usize)
        ensures
            r == name_index(self@, name@),
    {
        let mut i: usize = 0;
        assert(self@.skip(0) =~= self@);
        while i < self.entries.len()
            invariant
                i <= self@.len(),
                i + name_index(self@.skip(i as int), name@) == name_index(self@, name@),
            decreases self@.len() - i,
        {
            assert(self@.skip(i as int)[0] == self@[i as int]);
            let denied = match &self.entries[i].state {
                ReqState::Denied => true,
                _ => false,
            };
            if !denied && same(self.entries[i].name.as_str(), name) {
                return i;
            }
            assert(self@.skip(i as int).skip(1) =~= self@.skip(i + 1));
            i += 1;
        }
        i
    }

    fn find_latest(&self, name: &str) -> (r: Option<usize>)
        ensures
            match r {
                Some(i) => i == latest_index(self@, name@),
                None => latest_index(self@, name@) < 0,
            },
    {
        let mut i: usize = self.entries.len();
        assert(self@.take(i as int) =~= self@);
        while i > 0
            invariant
                i <= self@.len(),
                latest_index(self@.take(i as int), name@) == latest_index(self@, name@),
            decreases i,
        {
            let ghost t = self@.take(i as int);
            assert(t.drop_last() =~= self@.take(i - 1));
            assert(t.last() == self@[i - 1]);
            i -= 1;
            if same(self.entries[i].name.as_str(), name) {
                return Some(i);
            }
        }
        None
    }

    fn count_standing(&self) -> (r: usize)
        ensures
            r == standing(self@),
    {
        let ghost q = self@;
        let mut n: usize = 0;
        let mut i: usize = 0;
        assert(q.take(0) =~= Seq::<Entry>::empty());
        while i < self.entries.len()
            invariant
                q == self@,
                i <= self@.len(),
                n <= i,
                n == standing(q.take(i as int)),
            decreases self@.len() - i,
        {
            let ghost t = q.take(i + 1);
            assert(t.drop_last() =~= q.take(i as int));
            assert(t.last() == self.entries@[i as int]@);
            match &self.entries[i].state {
                ReqState::Denied => {},
                _ => {
                    n += 1;
                },
            }
            i += 1;
        }
        assert(q.take(i as int) =~= q);
        n
    }

    fn find_waiting(&self, name: &str) -> (r: usize)
        ensures
            r == waiting_index(self@, name@),
    {
        let mut i: usize = 0;
        assert(self@.skip(0) =~= self@);
        while i < self.entries.len()
            invariant
                i <= self@.len(),
                i + waiting_index(self@.skip(i as int), name@) == waiting_index(self@, name@),
            decreases self@.len() - i,
        {
            assert(self@.skip(i as int)[0] == self@[i as int]);
            let waits = match &self.entries[i].state {
                ReqState::Waiting => true,
                _ => false,
            };
            if waits && same(self.entries[i].name.as_str(), name) {
                return i;
            }
            assert(self@.skip(i as int).skip(1) =~= self@.skip(i + 1));
            i += 1;
        }
        i
    }

    fn find_token(&self, token: &str) -> (r: usize)
        ensures
            r == token_index(self@, token@),
    {
        let mut i: usize = 0;
        assert(self@.skip(0) =~= self@);
        while i < self.entries.len()
            invariant
                i <= self@.len(),
                i + token_index(self@.skip(i as int), token@) == token_index(self@, token@),
            decreases self@.len() - i,
        {
            assert(self@.skip(i as int)[0] == self@[i as int]);
            if same(self.entries[i].token.as_str(), token) {
                return i;
            }
            assert(self@.skip(i as int).skip(1) =~= self@.skip(i + 1));
            i += 1;
        }
        i
    }

    /// Asks for a code under a name. A name with a request that still stands is refused and keeps
    /// its token: the list of names is public, and replacing the token would hand the approval to
    /// whoever asked last. A name whose request was denied may ask again.
    pub fn request(&mut self, name: String, token: String, passwd: &str, now: u64) -> (r: Reply)
        ensures
            final(self)@ == requested(old(self)@, users_of(passwd@), name@, token@, now),
            json_reply(
                r,
                request_body(admission(old(self)@, users_of(passwd@), name@, now).0, token@),
            ),
    {
        if !valid_name(name.as_str()) {
            return err("names are 1-32 chars: a-z 0-9 - _ (starting with a letter or digit)");
        }
        if reserved(name.as_str()) {
            return err("that name is reserved");
        }
        if listed(&list_users(passwd), name.as_str()) {
            return err("that team already has a code — ask the professor for it");
        }
        self.prune(now);
        let ghost left = self@;
        proof {
            lemma_name_index(left, name@);
        }
        if self.find_name(name.as_str()) < self.entries.len() {
            return err("that name is already requested — if that wasn't you, tell the professor");
        }
        if self.count_standing() >= REQUEST_CAP {
            return err("too many open requests — ask the professor to clear some");
        }
        let mut m = new_map();
        insert(&mut m, "ok".to_owned(), flag(true));
        insert(&mut m, "token".to_owned(), text(token.clone()));
        self.entries.push(Pending { name, token, created: now, state: ReqState::Waiting });
        assert(self@ =~= left.push(
            Entry { name: name@, token: token@, created: now, status: Status::Waiting },
        ));
        ("200 OK", "application/json", render(&object(m)))
    }

    /// Looks up the decision on a request. A decision is delivered once.
    pub fn poll(&mut self, token: &str, now: u64) -> (r: Reply)
        ensures
            final(self)@ == after_poll(old(self)@, token@, now),
            json_reply(r, poll_body(polled(old(self)@, token@, now))),
    {
        self.prune(now);
        let ghost left = self@;
        proof {
            lemma_token_index(left, token@);
        }
        let i = self.find_token(token);
        if token.is_empty() || i >= self.entries.len() {
            return ("200 OK", "application/json", "{\"status\":\"unknown\"}".to_owned());
        }
        assert(left[i as int] == self.entries@[i as int]@);
        match &self.entries[i].state {
            ReqState::Waiting => {
                return ("200 OK", "application/json", "{\"status\":\"waiting\"}".to_owned());
            },
            _ => {},
        }
        let e = self.entries.remove(i);
        assert(self@ =~= left.remove(i as int));
        let out = match e.state {
            ReqState::Approved(pass) => {
                let mut m = new_map();
                insert(&mut m, "status".to_owned(), text("approved".to_owned()));
                insert(&mut m, "user".to_owned(), text(e.name));
                insert(&mut m, "pass".to_owned(), text(pass));
                render(&object(m))
            },
            _ => "{\"status\":\"denied\"}".to_owned(),
        };
        ("200 OK", "application/json", out)
    }

    /// The names that wait for a decision.
    fn waiting(&self) -> (names: Vec<String>)
        ensures
            names.deep_view() == waiting_names(self@),
    {
        let ghost q = self@;
        let mut names: Vec<String> = Vec::new();
        let mut i: usize = 0;
        assert(q.take(0) =~= Seq::<Entry>::empty());
        assert(names.deep_view() =~= Seq::<Seq<char>>::empty());
        while i < self.entries.len()
            invariant
                q == self@,
                i <= self@.len(),
                names.deep_view() == waiting_names(q.take(i as int)),
            decreases self@.len() - i,
        {
            let ghost t = q.take(i + 1);
            assert(t.drop_last() =~= q.take(i as int));
            assert(t.last() == self.entries@[i as int]@);
            let ghost before = names.deep_view();
            match &self.entries[i].state {
                ReqState::Waiting => {
                    let name = self.entries[i].name.clone();
                    names.push(name);
                    assert(names.deep_view() =~= before.push(name@));
                },
                _ => {},
            }
            i += 1;
        }
        assert(q.take(q.len() as int) =~= q);
        names
    }

    /// Decides on approving a name, once the broker has accepted or rejected the professor's
    /// code; random bytes mint the team's code.
    pub fn approve(&mut self, name: String, accepted: bool, entropy: &[u8; 8], now: u64) -> (a:
        Approval)
        ensures
            final(self)@ == if accepted {
                open_entries(old(self)@, now)
            } else {
                old(self)@
            },
            approve_step(old(self)@, name@, accepted, entropy@, now, a),
    {
        if !accepted {
            return Approval::Answer(err("professor code rejected"));
        }
        self.prune(now);
        proof {
            lemma_waiting_index(self@, name@);
        }
        if self.find_waiting(name.as_str()) >= self.entries.len() {
            return Approval::Answer(err("no such request — it may have expired"));
        }
        let pass = gen_code(entropy);
        Approval::Mint { args: set_command(name.as_str(), pass.as_str()), name, pass }
    }

    /// After the command of an approval: parks the code for pickup and hands it to the panel.
    pub fn approve_done(&mut self, name: String, pass: String, success: bool, now: u64) -> (d: Done)
        ensures
            final(self)@ == if success {
                approved(old(self)@, name@, pass@, now)
            } else {
                old(self)@
            },
            d.clear_marker == success,
            d.reload == success,
            json_reply(
                d.reply,
                if success {
                    rendered(
                        Doc::Object(
                            map![
                                "ok"@ => Doc::Flag(true),
                                "user"@ => Doc::Text(name@),
                                "pass"@ => Doc::Text(pass@)
                            ],
                        ),
                    )
                } else {
                    error_body("mosquitto_passwd failed"@)
                },
            ),
    {
        if !success {
            return Done {
                reply: err("mosquitto_passwd failed"),
                clear_marker: false,
                reload: false,
            };
        }
        let ghost q = self@;
        proof {
            lemma_latest_index(q, name@);
        }
        match self.find_latest(name.as_str()) {
            Some(i) => {
                let mut e = self.entries.remove(i);
                e.state = ReqState::Approved(pass.clone());
                e.created = now;
                self.entries.insert(i, e);
            },
            None => {},
        }
        assert(self@ =~= approved(q, name@, pass@, now));
        let mut m = new_map();
        insert(&mut m, "ok".to_owned(), flag(true));
        insert(&mut m, "user".to_owned(), text(name));
        insert(&mut m, "pass".to_owned(), text(pass));
        Done {
            reply: ("200 OK", "application/json", render(&object(m))),
            clear_marker: true,
            reload: true,
        }
    }

    /// Decides on denying a name, once the broker has accepted or rejected the professor's code.
    pub fn deny(&mut self, name: &str, accepted: bool) -> (r: Reply)
        ensures
            final(self)@ == if accepted {
                denied(old(self)@, name@)
            } else {
                old(self)@
            },
            json_reply(r, deny_body(old(self)@, name@, accepted)),
    {
        if !accepted {
            return err("professor code rejected");
        }
        let ghost q = self@;
        proof {
            lemma_waiting_index(q, name@);
        }
        let i = self.find_waiting(name);
        if i >= self.entries.len() {
            return err("no such request");
        }
        let mut e = self.entries.remove(i);
        e.state = ReqState::Denied;
        self.entries.insert(i, e);
        assert(self@ =~= denied(q, name@));
        ok()
    }

}

/// `POST /codes/request` with body `{name}`.
pub fn request_json(q: &mut Queue, body: &str, token: String, passwd: &str, now: u64) -> (r: Reply)
    ensures
        final(q)@ == requested(
            old(q)@,
            users_of(passwd@),
            trimmed(text_field(parsed(body@), "name"@)),
            token@,
            now,
        ),
        json_reply(
            r,
            request_body(
                admission(
                    old(q)@,
                    users_of(passwd@),
                    trimmed(text_field(parsed(body@), "name"@)),
                    now,
                ).0,
                token@,
            ),
        ),
{
    let name = trim(Body::parse(body).text("name").as_str());
    q.request(name, token, passwd, now)
}

/// `POST /codes/poll` with body `{token}`.
pub fn poll_json(q: &mut Queue, body: &str, now: u64) -> (r: Reply)
    ensures
        final(q)@ == after_poll(old(q)@, text_field(parsed(body@), "token"@), now),
        json_reply(r, poll_body(polled(old(q)@, text_field(parsed(body@), "token"@), now))),
{
    let token = Body::parse(body).text("token");
    q.poll(token.as_str(), now)
}

/// `GET /codes/requests`: the names that wait, and nothing else of the queue.
pub fn requests_json(q: &mut Queue, now: u64) -> (r: String)
    ensures
        final(q)@ == open_entries(old(q)@, now),
        r@ == requests_body(old(q)@, now),
{
    q.prune(now);
    let mut m = new_map();
    insert(&mut m, "requests".to_owned(), texts(&q.waiting()));
    render(&object(m))
}

/// `POST /codes/approve` with body `{auth, name}`.
pub fn approve_json(q: &mut Queue, body: &str, accepted: bool, entropy: &[u8; 8], now: u64) -> (a:
    Approval)
    ensures
        final(q)@ == if accepted {
            open_entries(old(q)@, now)
        } else {
            old(q)@
        },
        approve_step(
            old(q)@,
            text_field(parsed(body@), "name"@),
            accepted,
            entropy@,
            now,
            a,
        ),
{
    let name = Body::parse(body).text("name");
    q.approve(name, accepted, entropy, now)
}

/// `POST /codes/deny` with body `{auth, name}`.
pub fn deny_json(q: &mut Queue, body: &str, accepted: bool) -> (r: Reply)
    ensures
        final(q)@ == if accepted {
            denied(old(q)@, text_field(parsed(body@), "name"@))
        } else {
            old(q)@
        },
        json_reply(r, deny_body(old(q)@, text_field(parsed(body@), "name"@), accepted)),
{
    let name = Body::parse(body).text("name");
    q.deny(name.as_str(), accepted)
}

// ---- Laws ----

/// What holds of every queue that the hub comes to: every request is under a name that a team can
/// have, of those under one name at most the latest stands, and at most as many wait for a
/// decision as are allowed.
pub open spec fn in_order(q: Seq<Entry>) -> bool {
    &&& forall|i: int|
        0 <= i < q.len() ==> is_name((#[trigger] q[i]).name) && !is_reserved(q[i].name)
    &&& forall|i: int, j: int|
        0 <= i < j < q.len() && (#[trigger] q[i]).name == (#[trigger] q[j]).name ==> !stands(q[i])
    &&& waiting_names(q).len() <= REQUEST_CAP
}

/// A queue that is in order and not overfull: at most as many requests stand as are allowed.
pub open spec fn well_kept(q: Seq<Entry>) -> bool {
    &&& in_order(q)
    &&& standing(q) <= REQUEST_CAP
}

proof fn lemma_standing_push(q: Seq<Entry>, e: Entry)
    ensures
        standing(q.push(e)) == standing(q) + if stands(e) {
            1nat
        } else {
            0nat
        },
        waiting_names(q.push(e)).len() == waiting_names(q).len() + if e.status is Waiting {
            1nat
        } else {
            0nat
        },
{
    assert(q.push(e).drop_last() =~= q);
}

/// Whoever waits also stands.
proof fn lemma_waiting_stands(q: Seq<Entry>)
    ensures
        waiting_names(q).len() <= standing(q),
    decreases q.len(),
{
    if q.len() > 0 {
        lemma_waiting_stands(q.drop_last());
    }
}

proof fn lemma_standing_update(q: Seq<Entry>, i: int, e: Entry)
    requires
        0 <= i < q.len(),
        !(e.status is Waiting),
    ensures
        standing(q.update(i, e)) == standing(q) - (if stands(q[i]) {
            1int
        } else {
            0
        }) + (if stands(e) {
            1int
        } else {
            0
        }),
        waiting_names(q.update(i, e)).len() <= waiting_names(q).len(),
    decreases q.len(),
{
    let p = q.update(i, e);
    if i == q.len() - 1 {
        assert(p.drop_last() =~= q.drop_last());
    } else {
        lemma_standing_update(q.drop_last(), i, e);
        assert(p.drop_last() =~= q.drop_last().update(i, e));
        assert(p.last() == q.last());
    }
}

proof fn lemma_standing_remove(q: Seq<Entry>, i: int)
    requires
        0 <= i < q.len(),
    ensures
        standing(q.remove(i)) <= standing(q),
        waiting_names(q.remove(i)).len() <= waiting_names(q).len(),
    decreases q.len(),
{
    let p = q.remove(i);
    if i == q.len() - 1 {
        assert(p =~= q.drop_last());
    } else {
        lemma_standing_remove(q.drop_last(), i);
        assert(p.drop_last() =~= q.drop_last().remove(i));
        assert(p.last() == q.last());
    }
}

proof fn lemma_standing_open(q: Seq<Entry>, now: u64)
    ensures
        standing(open_entries(q, now)) <= standing(q),
        waiting_names(open_entries(q, now)).len() <= waiting_names(q).len(),
    decreases q.len(),
{
    if q.len() > 0 {
        lemma_standing_open(q.drop_last(), now);
        if is_open(q.last(), now) {
            lemma_standing_push(open_entries(q.drop_last(), now), q.last());
        }
    }
}

proof fn lemma_open_is_part(q: Seq<Entry>, now: u64)
    ensures
        open_entries(q, now).len() <= q.len(),
        forall|i: int|
            0 <= i < open_entries(q, now).len() ==> {
                &&& is_open(#[trigger] open_entries(q, now)[i], now)
                &&& q.contains(open_entries(q, now)[i])
            },
    decreases q.len(),
{
    if q.len() > 0 {
        let s = q.drop_last();
        lemma_open_is_part(s, now);
        let r = open_entries(q, now);
        let rs = open_entries(s, now);
        assert forall|i: int| 0 <= i < r.len() implies {
            &&& is_open(#[trigger] r[i], now)
            &&& q.contains(r[i])
        } by {
            if i < rs.len() {
                assert(r[i] == rs[i]);
                let k = s.index_of(rs[i]);
                assert(q[k] == rs[i]);
            } else {
                assert(q[q.len() - 1] == r[i]);
            }
        }
    }
}

proof fn lemma_open_keeps(q: Seq<Entry>, now: u64, i: int)
    requires
        0 <= i < q.len(),
        is_open(q[i], now),
    ensures
        open_entries(q, now).contains(q[i]),
    decreases q.len(),
{
    let s = q.drop_last();
    let r = open_entries(q, now);
    if i == q.len() - 1 {
        assert(r[r.len() - 1] == q[i]);
    } else {
        lemma_open_keeps(s, now, i);
        let k = open_entries(s, now).index_of(q[i]);
        assert(r[k] == q[i]);
    }
}

proof fn lemma_open_is_in_order(q: Seq<Entry>, now: u64)
    requires
        in_order(q),
    ensures
        in_order(open_entries(q, now)),
{
    lemma_standing_open(q, now);
    lemma_open_is_part(q, now);
    let r = open_entries(q, now);
    assert forall|i: int| 0 <= i < r.len() implies is_name((#[trigger] r[i]).name)
        && !is_reserved(r[i].name) by {
        let k = q.index_of(r[i]);
        assert(q[k] == r[i]);
    }
    lemma_open_latest_stands(q, now);
}

proof fn lemma_open_latest_stands(q: Seq<Entry>, now: u64)
    requires
        forall|i: int, j: int|
            0 <= i < j < q.len() && (#[trigger] q[i]).name == (#[trigger] q[j]).name ==> !stands(
                q[i],
            ),
    ensures
        forall|i: int, j: int|
            0 <= i < j < open_entries(q, now).len() && (#[trigger] open_entries(q, now)[i]).name
                == (#[trigger] open_entries(q, now)[j]).name ==> !stands(open_entries(q, now)[i]),
    decreases q.len(),
{
    if q.len() > 0 {
        let s = q.drop_last();
        assert forall|i: int, j: int|
            0 <= i < j < s.len() && (#[trigger] s[i]).name == (#[trigger] s[j]).name implies !stands(
            s[i],
        ) by {
            assert(q[i] == s[i] && q[j] == s[j]);
        }
        lemma_open_latest_stands(s, now);
        lemma_open_is_part(s, now);
        let r = open_entries(q, now);
        let rs = open_entries(s, now);
        assert forall|i: int, j: int|
            0 <= i < j < r.len() && (#[trigger] r[i]).name == (#[trigger] r[j]).name implies !stands(
            r[i],
        ) by {
            assert(r[i] == rs[i]);
            if j < rs.len() {
                assert(r[j] == rs[j]);
            } else {
                let k = s.index_of(rs[i]);
                assert(q[k] == rs[i]);
                assert(r[j] == q[q.len() - 1]);
            }
        }
    }
}

/// The empty queue is in order, and every operation keeps a queue so: expiry, a request, a poll,
/// an approval and a denial.
pub proof fn law_queues_stay_in_order(
    q: Seq<Entry>,
    users: Seq<Seq<char>>,
    name: Seq<char>,
    token: Seq<char>,
    pass: Seq<char>,
    now: u64,
)
    requires
        in_order(q),
    ensures
        in_order(Seq::<Entry>::empty()),
        in_order(open_entries(q, now)),
        in_order(requested(q, users, name, token, now)),
        in_order(after_poll(q, token, now)),
        in_order(approved(q, name, pass, now)),
        in_order(denied(q, name)),
{
    let left = open_entries(q, now);
    lemma_open_is_in_order(q, now);
    lemma_token_index(left, token);
    lemma_latest_index(q, name);
    lemma_waiting_index(q, name);
    lemma_name_index(left, name);
    let asked = requested(q, users, name, token, now);
    if admission(q, users, name, now).0 is None {
        let e = Entry { name, token, created: now, status: Status::Waiting };
        lemma_standing_push(left, e);
        lemma_waiting_stands(left);
        assert forall|i: int, j: int|
            0 <= i < j < asked.len() && (#[trigger] asked[i]).name == (
            #[trigger] asked[j]).name implies !stands(asked[i]) by {
            assert(asked[i] == left[i]);
            if j < left.len() {
                assert(asked[j] == left[j]);
            } else {
                assert(!holds_name(left[i], name));
            }
        }
    }
    let t = token_index(left, token);
    if t < left.len() {
        lemma_standing_remove(left, t);
    }
    let n = latest_index(q, name);
    if 0 <= n {
        lemma_standing_update(
            q,
            n,
            Entry { created: now, status: Status::Approved(pass), ..q[n] },
        );
    }
    let w = waiting_index(q, name);
    if w < q.len() {
        lemma_standing_update(q, w, Entry { status: Status::Denied, ..q[w] });
    }
}

/// The empty queue is well kept, and every operation keeps a queue so: expiry, a request, a poll, a
/// denial, and an approval of a request that stands. An approval whose request was denied in the
/// meantime needs room for it to stand again.
pub proof fn law_queues_stay_well_kept(
    q: Seq<Entry>,
    users: Seq<Seq<char>>,
    name: Seq<char>,
    token: Seq<char>,
    pass: Seq<char>,
    now: u64,
)
    requires
        well_kept(q),
    ensures
        well_kept(Seq::<Entry>::empty()),
        well_kept(open_entries(q, now)),
        well_kept(requested(q, users, name, token, now)),
        well_kept(after_poll(q, token, now)),
        well_kept(approved(q, name, pass, now)) <==> has_name(q, name) || latest_index(q, name) < 0
            || standing(q) < REQUEST_CAP,
        well_kept(denied(q, name)),
{
    let left = open_entries(q, now);
    law_queues_stay_in_order(q, users, name, token, pass, now);
    lemma_standing_open(q, now);
    lemma_token_index(left, token);
    lemma_latest_index(q, name);
    lemma_waiting_index(q, name);
    if admission(q, users, name, now).0 is None {
        let e = Entry { name, token, created: now, status: Status::Waiting };
        lemma_standing_push(left, e);
    }
    let t = token_index(left, token);
    if t < left.len() {
        lemma_standing_remove(left, t);
    }
    let n = latest_index(q, name);
    if 0 <= n {
        lemma_standing_update(
            q,
            n,
            Entry { created: now, status: Status::Approved(pass), ..q[n] },
        );
        if has_name(q, name) {
            let h = choose|h: int| 0 <= h < q.len() && holds_name(#[trigger] q[h], name);
            assert(h == n);
        }
    }
    let w = waiting_index(q, name);
    if w < q.len() {
        lemma_standing_update(q, w, Entry { status: Status::Denied, ..q[w] });
    }
}

/// A request that is admitted opens a ticket: its name waits under its token.
pub proof fn law_an_admitted_request_waits(
    q: Seq<Entry>,
    users: Seq<Seq<char>>,
    name: Seq<char>,
    token: Seq<char>,
    now: u64,
)
    requires
        admission(q, users, name, now).0 is None,
    ensures
        requested(q, users, name, token, now).last() == (Entry {
            name,
            token,
            created: now,
            status: Status::Waiting,
        }),
        has_waiting(requested(q, users, name, token, now), name),
{
    let r = requested(q, users, name, token, now);
    assert(is_waiting(r[r.len() - 1], name));
}

/// A name whose request still stands keeps its token: asking again changes no open request.
pub proof fn law_no_ticket_is_replaced(
    q: Seq<Entry>,
    users: Seq<Seq<char>>,
    i: int,
    token: Seq<char>,
    now: u64,
)
    requires
        0 <= i < q.len(),
        is_open(q[i], now),
        stands(q[i]),
    ensures
        admission(q, users, q[i].name, now).0 is Some,
        open_entries(requested(q, users, q[i].name, token, now), now) == open_entries(q, now),
{
    lemma_open_keeps(q, now, i);
    let left = open_entries(q, now);
    let k = left.index_of(q[i]);
    assert(holds_name(left[k], q[i].name));
    lemma_open_twice(q, now);
}

proof fn lemma_open_twice(q: Seq<Entry>, now: u64)
    ensures
        open_entries(open_entries(q, now), now) == open_entries(q, now),
    decreases q.len(),
{
    if q.len() > 0 {
        lemma_open_twice(q.drop_last(), now);
        let r = open_entries(q, now);
        if is_open(q.last(), now) {
            assert(r.drop_last() =~= open_entries(q.drop_last(), now));
        }
    }
}

/// After a dismissal the name is free: a name that waits, and whose request the professor then
/// denies, may ask again at once.
pub proof fn law_a_dismissed_name_may_knock_again(
    q: Seq<Entry>,
    users: Seq<Seq<char>>,
    name: Seq<char>,
    now: u64,
)
    requires
        well_kept(q),
        has_waiting(q, name),
        !users.contains(name),
    ensures
        admission(denied(q, name), users, name, now).0 is None,
{
    lemma_waiting_index(q, name);
    let w = waiting_index(q, name);
    let e = Entry { status: Status::Denied, ..q[w] };
    let p = denied(q, name);
    lemma_standing_update(q, w, e);
    lemma_standing_open(p, now);
    lemma_open_is_part(p, now);
    let after = open_entries(p, now);
    assert forall|i: int| 0 <= i < after.len() implies !holds_name(#[trigger] after[i], name) by {
        let m = p.index_of(after[i]);
        assert(p[m] == after[i]);
        if m != w {
            assert(p[m] == q[m]);
        }
    }
}

/// A request changes what no other token finds: whoever holds the ticket of a request that was
/// denied, or of any other, is told the same as before.
pub proof fn law_a_request_changes_no_other_poll(
    q: Seq<Entry>,
    users: Seq<Seq<char>>,
    name: Seq<char>,
    token: Seq<char>,
    other: Seq<char>,
    now: u64,
)
    requires
        other != token,
    ensures
        polled(requested(q, users, name, token, now), other, now) == polled(q, other, now),
{
    let left = open_entries(q, now);
    lemma_open_twice(q, now);
    lemma_token_index(left, other);
    if admission(q, users, name, now).0 is None {
        let e = Entry { name, token, created: now, status: Status::Waiting };
        let p = left.push(e);
        assert(p.drop_last() =~= left);
        assert(open_entries(p, now) =~= p);
        lemma_token_index(p, other);
        let i = token_index(left, other);
        let j = token_index(p, other);
        if i < left.len() {
            assert(p[i] == left[i]);
            if j < i {
                assert(p[j] == left[j]);
            }
        } else if j < left.len() {
            assert(p[j] == left[j]);
        }
    }
}

/// An approval reaches the ticket of the name that was approved, and no other: not an older one
/// that was denied.
pub proof fn law_an_approval_reaches_its_ticket(q: Seq<Entry>, i: int, pass: Seq<char>, now: u64)
    requires
        in_order(q),
        0 <= i < q.len(),
        stands(q[i]),
    ensures
        approved(q, q[i].name, pass, now) == q.update(
            i,
            Entry { created: now, status: Status::Approved(pass), ..q[i] },
        ),
{
    lemma_latest_index(q, q[i].name);
    assert(latest_index(q, q[i].name) == i);
}

/// An approval whose request is gone changes nothing.
pub proof fn law_an_approval_without_a_request_changes_nothing(
    q: Seq<Entry>,
    name: Seq<char>,
    pass: Seq<char>,
    now: u64,
)
    requires
        forall|i: int| 0 <= i < q.len() ==> (#[trigger] q[i]).name != name,
    ensures
        approved(q, name, pass, now) == q,
{
    lemma_latest_index(q, name);
}

/// A denial that comes in while the code is minted does not hold the approval up: the ticket that
/// was waiting holds the code, as if nobody had denied it.
pub proof fn law_a_denial_during_the_mint_loses(
    q: Seq<Entry>,
    name: Seq<char>,
    pass: Seq<char>,
    now: u64,
)
    requires
        in_order(q),
        has_waiting(q, name),
    ensures
        approved(denied(q, name), name, pass, now) == approved(q, name, pass, now),
{
    lemma_waiting_index(q, name);
    lemma_latest_index(q, name);
    lemma_latest_index(denied(q, name), name);
    let w = waiting_index(q, name);
    let p = denied(q, name);
    let n = latest_index(q, name);
    let m = latest_index(p, name);
    assert(q[w].name == name);
    assert(n == w);
    assert(p[w].name == name);
    if m > w {
        assert(p[m] == q[m]);
    }
}

/// A decision is delivered to the holder of its token, exactly once: the first poll finds it,
/// every later poll finds nothing.
pub proof fn law_a_decision_is_delivered_once(q: Seq<Entry>, i: int, now: u64, later: u64)
    requires
        0 <= i < q.len(),
        is_open(q[i], now),
        !(q[i].status is Waiting),
        q[i].token.len() > 0,
        forall|j: int| 0 <= j < q.len() && j != i ==> (#[trigger] q[j]).token != q[i].token,
    ensures
        polled(q, q[i].token, now) == Some(q[i]),
        polled(after_poll(q, q[i].token, now), q[i].token, later) is None,
{
    let token = q[i].token;
    let left = open_entries(q, now);
    lemma_open_keeps(q, now, i);
    lemma_open_is_part(q, now);
    lemma_token_index(left, token);
    let k = left.index_of(q[i]);
    let t = token_index(left, token);
    assert(left[k].token == token);
    assert(t < left.len());
    let w = q.index_of(left[t]);
    assert(q[w] == left[t]);
    let rest = after_poll(q, token, now);
    assert(rest == left.remove(t));
    lemma_one_ticket(q, now, i);
    assert forall|j: int| 0 <= j < rest.len() implies (#[trigger] rest[j]).token != token by {
        let o = if j < t {
            j
        } else {
            j + 1
        };
        assert(rest[j] == left[o]);
    }
    lemma_open_is_part(rest, later);
    let last = open_entries(rest, later);
    lemma_token_index(last, token);
    let z = token_index(last, token);
    if z < last.len() {
        let y = rest.index_of(last[z]);
        assert(rest[y] == last[z]);
    }
}

/// A token that one request of a queue has, at most one of its open requests has.
proof fn lemma_one_ticket(q: Seq<Entry>, now: u64, i: int)
    requires
        0 <= i < q.len(),
        forall|j: int| 0 <= j < q.len() && j != i ==> (#[trigger] q[j]).token != q[i].token,
    ensures
        forall|a: int, b: int|
            0 <= a < b < open_entries(q, now).len() ==> !((#[trigger] open_entries(q, now)[a]).token
                == q[i].token && (#[trigger] open_entries(q, now)[b]).token == q[i].token),
    decreases q.len(),
{
    let s = q.drop_last();
    let r = open_entries(q, now);
    let rs = open_entries(s, now);
    lemma_open_is_part(s, now);
    if i == q.len() - 1 {
        assert forall|a: int, b: int| 0 <= a < b < r.len() implies !((#[trigger] r[a]).token
            == q[i].token && (#[trigger] r[b]).token == q[i].token) by {
            assert(r[a] == rs[a]);
            let k = s.index_of(rs[a]);
            assert(q[k] == rs[a]);
        }
    } else {
        assert(s[i] == q[i]);
        assert forall|j: int| 0 <= j < s.len() && j != i implies (#[trigger] s[j]).token
            != s[i].token by {
            assert(s[j] == q[j]);
        }
        lemma_one_ticket(s, now, i);
        assert forall|a: int, b: int| 0 <= a < b < r.len() implies !((#[trigger] r[a]).token
            == q[i].token && (#[trigger] r[b]).token == q[i].token) by {
            assert(r[a] == rs[a]);
            if b < rs.len() {
                assert(r[b] == rs[b]);
            } else {
                assert(r[b] == q[q.len() - 1]);
            }
        }
    }
}

/// From knock to code: a request that is admitted, approved while it is open and polled in time
/// delivers the minted code under the requested name.
pub proof fn law_a_request_comes_to_its_code(
    q: Seq<Entry>,
    users: Seq<Seq<char>>,
    name: Seq<char>,
    token: Seq<char>,
    pass: Seq<char>,
    asked: u64,
    decided: u64,
    fetched: u64,
)
    requires
        in_order(q),
        admission(q, users, name, asked).0 is None,
        token.len() > 0,
        forall|j: int| 0 <= j < q.len() ==> (#[trigger] q[j]).token != token,
        decided - asked < REQUEST_TTL,
        fetched - decided < REQUEST_TTL,
    ensures
        ({
            let waiting = open_entries(requested(q, users, name, token, asked), decided);
            let parked = approved(waiting, name, pass, decided);
            &&& has_waiting(waiting, name)
            &&& polled(parked, token, fetched) == Some(
                Entry { name, token, created: decided, status: Status::Approved(pass) },
            )
        }),
{
    let q1 = requested(q, users, name, token, asked);
    let e = Entry { name, token, created: asked, status: Status::Waiting };
    law_queues_stay_in_order(q, users, name, token, pass, asked);
    lemma_open_is_part(q, asked);
    assert forall|j: int| 0 <= j < q1.len() - 1 implies (#[trigger] q1[j]).token != token by {
        assert(q1[j] == open_entries(q, asked)[j]);
        let k = q.index_of(q1[j]);
        assert(q[k] == q1[j]);
    }
    let waiting = open_entries(q1, decided);
    lemma_open_is_in_order(q1, decided);
    lemma_open_is_part(q1, decided);
    assert(q1.last() == e);
    assert(is_open(e, decided));
    let last = waiting.len() - 1;
    assert(waiting[last] == e);
    assert(is_waiting(waiting[last], name));
    lemma_one_ticket(q1, decided, q1.len() - 1);
    law_an_approval_reaches_its_ticket(waiting, last, pass, decided);
    let parked = approved(waiting, name, pass, decided);
    assert forall|j: int| 0 <= j < parked.len() && j != last implies (#[trigger] parked[j]).token
        != parked[last].token by {
        assert(parked[j] == waiting[j]);
        assert(waiting[last].token == token);
    }
    law_a_decision_is_delivered_once(parked, last, fetched, fetched);
}

/// The public list of requests shows names and nothing else: it does not depend on the tokens.
pub proof fn law_the_list_shows_no_tokens(q: Seq<Entry>, tokens: Seq<Seq<char>>, now: u64)
    requires
        tokens.len() == q.len(),
    ensures
        requests_body(
            Seq::new(q.len(), |i: int| Entry { token: tokens[i], ..q[i] }),
            now,
        ) == requests_body(q, now),
{
    let p = Seq::new(q.len(), |i: int| Entry { token: tokens[i], ..q[i] });
    lemma_names_without_tokens(q, p, now);
}

proof fn lemma_names_without_tokens(q: Seq<Entry>, p: Seq<Entry>, now: u64)
    requires
        p.len() == q.len(),
        forall|i: int|
            0 <= i < q.len() ==> (#[trigger] p[i]).name == q[i].name && p[i].created == q[i].created
                && p[i].status == q[i].status,
    ensures
        waiting_names(open_entries(p, now)) == waiting_names(open_entries(q, now)),
    decreases q.len(),
{
    if q.len() > 0 {
        lemma_names_without_tokens(q.drop_last(), p.drop_last(), now);
        let a = open_entries(p, now);
        let b = open_entries(q, now);
        assert(p[p.len() - 1].name == q.last().name);
        if is_open(q.last(), now) {
            assert(a.drop_last() =~= open_entries(p.drop_last(), now));
            assert(b.drop_last() =~= open_entries(q.drop_last(), now));
        }
    }
}

/// A minted code is a valid code without characters that look alike.
pub proof fn law_minted_codes_are_easy_to_read(entropy: Seq<u8>)
    requires
        entropy.len() == 8,
    ensures
        is_code(minted(entropy)),
        minted(entropy).len() == 8,
        forall|i: int|
            0 <= i < 8 ==> {
                let c = #[trigger] minted(entropy)[i];
                &&& is_name_start(c)
                &&& c != '0' && c != 'o' && c != '1' && c != 'l' && c != 'i'
            },
{
    reveal_strlit("abcdefghjkmnpqrstuvwxyz23456789");
    let code = minted(entropy);
    assert forall|i: int| 0 <= i < 8 implies {
        let c = #[trigger] code[i];
        &&& is_name_start(c)
        &&& c != '0' && c != 'o' && c != '1' && c != 'l' && c != 'i'
    } by {
        let k = (entropy[i] % 31) as int;
        assert(code[i] == ALPHABET@[k]);
    }
    vstd::utf8::is_ascii_chars_encode_utf8(code);
    assert(code[0] != '-');
}

/// No command that the panel runs takes a name or a code for a flag, and none touches the pool
/// identity: the name and the code of a change start with no `-`, and the name is not the pool's.
pub proof fn law_changes_are_safe_commands(
    user: Seq<char>,
    pass: Seq<char>,
    users: Seq<Seq<char>>,
    s: Step,
    d: Step,
)
    requires
        set_step(true, user, pass, s),
        del_step(true, user, users, d),
    ensures
        s is Run ==> user[0] != '-' && pass[0] != '-' && user != "unassigned"@,
        d is Run ==> user[0] != '-' && user != "unassigned"@ && user != "professor"@,
{
}

/// The command of an approval takes neither the name nor the minted code for a flag, and touches
/// neither the professor nor the pool identity.
pub proof fn law_approvals_are_safe_commands(
    q: Seq<Entry>,
    name: Seq<char>,
    accepted: bool,
    entropy: Seq<u8>,
    now: u64,
    a: Approval,
)
    requires
        in_order(q),
        entropy.len() == 8,
        approve_step(q, name, accepted, entropy, now, a),
        a is Mint,
    ensures
        accepted,
        is_name(name),
        name[0] != '-',
        !is_reserved(name),
        minted(entropy)[0] != '-',
{
    lemma_open_is_in_order(q, now);
    law_minted_codes_are_easy_to_read(entropy);
    assert(is_name_start(minted(entropy)[0]));
    let left = open_entries(q, now);
    let i = choose|i: int| 0 <= i < left.len() && is_waiting(#[trigger] left[i], name);
    assert(is_name(left[i].name));
}

/// A name is valid exactly if it has 1 to 32 characters, all of them small letters, digits, hyphens
/// and underscores, and begins with neither of the last two.
pub proof fn law_which_names_are_valid(user: Seq<char>)
    ensures
        is_name(user) <==> {
            &&& 1 <= user.len() <= 32
            &&& user[0] != '-' && user[0] != '_'
            &&& forall|i: int|
                0 <= i < user.len()
                    ==> "abcdefghijklmnopqrstuvwxyz0123456789-_"@.contains(#[trigger] user[i])
        },
{
    reveal_strlit("abcdefghijklmnopqrstuvwxyz0123456789-_");
    let all = "abcdefghijklmnopqrstuvwxyz0123456789-_"@;
    assert forall|c: char| is_name_char(c) == #[trigger] all.contains(c) by {
        if 'a' <= c <= 'z' {
            assert(all[c as int - 97] == c);
        } else if '0' <= c <= '9' {
            assert(all[c as int - 48 + 26] == c);
        } else if c == '-' {
            assert(all[36] == c);
        } else if c == '_' {
            assert(all[37] == c);
        }
    }
    if is_name(user) {
        assert forall|i: int| 0 <= i < user.len() implies all.contains(#[trigger] user[i]) by {
            assert(is_name_char(user[i]));
        }
    } else if 1 <= user.len() <= 32 && (forall|i: int|
        0 <= i < user.len() ==> all.contains(#[trigger] user[i])) {
        assert(all.contains(user[0]));
        assert forall|i: int| 0 <= i < user.len() implies is_name_char(#[trigger] user[i]) by {
            assert(all.contains(user[i]));
        }
    }
}

/// A code may be anything of 1 to 64 bytes that does not begin like a flag.
pub proof fn law_which_codes_are_valid(pass: Seq<char>)
    ensures
        is_code(pass) <==> pass.len() > 0 && encode_utf8(pass).len() <= 64 && pass[0] != '-',
{
}

/// A password file names whoever stands before the first colon of a line; a line without a colon
/// names nobody.
pub proof fn law_password_lines_name_their_users(
    name: Seq<char>,
    hash: Seq<char>,
    junk: Seq<char>,
    more: Seq<char>,
)
    requires
        !name.contains(':') && !name.contains('\n'),
        !hash.contains('\n'),
        !junk.contains(':') && !junk.contains('\n'),
    ensures
        users_of(name + ":"@ + hash + "\r\n"@ + more) == seq![name] + users_of(more),
        !(hash.len() > 0 && hash.last() == '\r') ==> users_of(name + ":"@ + hash + "\n"@ + more)
            == seq![name] + users_of(more),
        users_of(junk + "\r\n"@ + more) == users_of(more),
        users_of(Seq::empty()).len() == 0,
{
    reveal_strlit(":");
    let line = name + ":"@ + hash;
    assert(line =~= name + seq![':'] + hash);
    assert(!line.contains('\n')) by {
        assert forall|i: int| 0 <= i < line.len() implies line[i] != '\n' by {
            if i < name.len() {
                assert(name.contains(name[i]));
                assert(line[i] == name[i]);
            } else if i > name.len() {
                assert(hash.contains(hash[i - name.len() - 1]));
                assert(line[i] == hash[i - name.len() - 1]);
            }
        }
    }
    assert(hash.len() > 0 ==> line.last() == hash.last());
    assert(hash.len() == 0 ==> line.last() == ':');
    law_separators_cut(name, ':', hash);
    law_separators_cut(junk, ':', junk);
    law_line_feeds_end_lines(line, more);
    law_line_feeds_end_lines(junk, more);
    lemma_names_add_up(seq![line], line_seq(more));
    lemma_names_add_up(seq![junk], line_seq(more));
    let none = Seq::<Seq<char>>::empty();
    assert(seq![line].drop_last() =~= none);
    assert(seq![junk].drop_last() =~= none);
    assert(names_in(none) =~= none);
    assert(names_in(seq![line]) =~= seq![name]);
    assert(names_in(seq![junk]) =~= none);
    assert(none + users_of(more) =~= users_of(more));
}

proof fn lemma_names_add_up(a: Seq<Seq<char>>, b: Seq<Seq<char>>)
    ensures
        names_in(a + b) == names_in(a) + names_in(b),
    decreases b.len(),
{
    if b.len() == 0 {
        assert(a + b =~= a);
        assert(names_in(a) + names_in(b) =~= names_in(a));
    } else {
        assert((a + b).drop_last() =~= a + b.drop_last());
        lemma_names_add_up(a, b.drop_last());
        assert(names_in(a + b) =~= names_in(a) + names_in(b));
    }
}

/// Each random byte decides its own character of a minted code, and all characters of the alphabet
/// come up: two codes agree at a place exactly if their bytes there leave the same remainder.
pub proof fn law_random_bytes_decide_the_code(e: Seq<u8>, f: Seq<u8>, i: int)
    requires
        0 <= i < e.len(),
        e.len() == f.len(),
    ensures
        minted(e).len() == e.len(),
        minted(e)[i] == minted(f)[i] <==> e[i] % 31 == f[i] % 31,
{
    reveal_strlit("abcdefghjkmnpqrstuvwxyz23456789");
}

/// A code is set exactly if the professor's code was accepted, the name is valid and not that of
/// fresh boards, and the code is valid: then by the one command that names the password file, the
/// user and the code.
pub proof fn law_which_codes_are_set(accepted: bool, user: Seq<char>, pass: Seq<char>, s: Step)
    requires
        set_step(accepted, user, pass, s),
    ensures
        s is Run <==> accepted && is_name(user) && user != "unassigned"@ && is_code(pass),
        s is Run ==> s->Run_0.deep_view() == seq![
            "-b"@,
            "/etc/mosquitto/hub-passwd"@,
            user,
            pass,
        ],
{
}

/// An identity is removed exactly if the professor's code was accepted and it is a team that has a
/// code: then by the one command that names the password file and the user.
pub proof fn law_which_identities_are_removed(
    accepted: bool,
    user: Seq<char>,
    users: Seq<Seq<char>>,
    s: Step,
)
    requires
        del_step(accepted, user, users, s),
    ensures
        s is Run <==> accepted && is_name(user) && users.contains(user) && user != "professor"@
            && user != "unassigned"@,
        s is Run ==> s->Run_0.deep_view() == seq!["-D"@, "/etc/mosquitto/hub-passwd"@, user],
{
}

/// A request is open for thirty minutes, and each request for itself.
pub proof fn law_requests_are_open_for_half_an_hour(
    e: Entry,
    a: Seq<Entry>,
    b: Seq<Entry>,
    now: u64,
)
    ensures
        open_entries(seq![e], now) == if now - e.created < 30 * 60 * 1_000_000_000 {
            seq![e]
        } else {
            Seq::empty()
        },
        open_entries(a + b, now) == open_entries(a, now) + open_entries(b, now),
{
    let none = Seq::<Entry>::empty();
    assert(seq![e].drop_last() =~= none);
    assert(open_entries(none, now) =~= none);
    assert(none.push(e) =~= seq![e]);
    lemma_open_adds_up(a, b, now);
}

proof fn lemma_open_adds_up(a: Seq<Entry>, b: Seq<Entry>, now: u64)
    ensures
        open_entries(a + b, now) == open_entries(a, now) + open_entries(b, now),
    decreases b.len(),
{
    if b.len() == 0 {
        assert(a + b =~= a);
        assert(open_entries(a, now) + open_entries(b, now) =~= open_entries(a, now));
    } else {
        assert((a + b).drop_last() =~= a + b.drop_last());
        lemma_open_adds_up(a, b.drop_last(), now);
        assert(open_entries(a + b, now) =~= open_entries(a, now) + open_entries(b, now));
    }
}

/// A name may ask exactly if it is a valid one that is not reserved, has no code, has no open
/// request that was not denied, and fewer than twenty such requests are open.
pub proof fn law_who_may_ask(q: Seq<Entry>, users: Seq<Seq<char>>, name: Seq<char>, now: u64)
    ensures
        admission(q, users, name, now).0 is None <==> {
            &&& is_name(name)
            &&& name != "professor"@ && name != "unassigned"@
            &&& !users.contains(name)
            &&& forall|i: int|
                0 <= i < q.len() && (#[trigger] q[i]).name == name && now - q[i].created < 30 * 60
                    * 1_000_000_000 ==> q[i].status is Denied
            &&& standing(open_entries(q, now)) < 20
        },
{
    let left = open_entries(q, now);
    lemma_open_is_part(q, now);
    if has_name(left, name) {
        let k = choose|k: int| 0 <= k < left.len() && holds_name(#[trigger] left[k], name);
        let i = q.index_of(left[k]);
        assert(q[i] == left[k]);
        assert(is_open(left[k], now));
        assert(q[i].name == name && !(q[i].status is Denied));
    } else {
        assert forall|i: int|
            0 <= i < q.len() && (#[trigger] q[i]).name == name && now - q[i].created < 30 * 60
                * 1_000_000_000 implies q[i].status is Denied by {
            lemma_open_keeps(q, now, i);
            let k = left.index_of(q[i]);
            assert(!holds_name(left[k], name));
        }
    }
}

/// Every request counts for itself: as standing unless it was denied, and on the list as long as
/// it waits, in the order in which they came.
pub proof fn law_every_request_counts(q: Seq<Entry>, e: Entry)
    ensures
        standing(Seq::empty()) == 0,
        standing(q.push(e)) == standing(q) + (if e.status is Denied {
            0nat
        } else {
            1nat
        }),
        waiting_names(Seq::empty()).len() == 0,
        waiting_names(q.push(e)) == if e.status is Waiting {
            waiting_names(q).push(e.name)
        } else {
            waiting_names(q)
        },
{
    lemma_standing_push(q, e);
    assert(q.push(e).drop_last() =~= q);
}

/// Why a request is refused is told by the first thing that is wrong with it.
pub proof fn law_refusals_tell_what_is_wrong(
    q: Seq<Entry>,
    users: Seq<Seq<char>>,
    name: Seq<char>,
    now: u64,
)
    ensures
        ({
            let r = admission(q, users, name, now).0;
            &&& !is_name(name) <==> r == Some(Refusal::NotAName)
            &&& is_name(name) && is_reserved(name) <==> r == Some(Refusal::Reserved)
            &&& is_name(name) && !is_reserved(name) && users.contains(name) <==> r == Some(
                Refusal::HasCode,
            )
            &&& r == Some(Refusal::TooMany) ==> standing(open_entries(q, now)) >= 20
            &&& r == Some(Refusal::AlreadyAsked) ==> has_name(open_entries(q, now), name)
        }),
        is_reserved(name) <==> name == "professor"@ || name == "unassigned"@,
{
}

/// A ticket that waits is found as often as it is asked for, and asking changes nothing; a token
/// that no open request has finds nothing, nor does the empty one.
pub proof fn law_a_waiting_ticket_stays(q: Seq<Entry>, i: int, token: Seq<char>, now: u64)
    requires
        0 <= i < q.len(),
        is_open(q[i], now),
        q[i].status is Waiting,
        q[i].token.len() > 0,
        forall|j: int| 0 <= j < q.len() && j != i ==> (#[trigger] q[j]).token != q[i].token,
    ensures
        polled(q, q[i].token, now) == Some(q[i]),
        after_poll(q, q[i].token, now) == open_entries(q, now),
        (forall|j: int| 0 <= j < q.len() ==> (#[trigger] q[j]).token != token) ==> polled(
            q,
            token,
            now,
        ) is None,
        polled(q, Seq::empty(), now) is None,
{
    let left = open_entries(q, now);
    lemma_open_keeps(q, now, i);
    lemma_open_is_part(q, now);
    lemma_token_index(left, q[i].token);
    lemma_token_index(left, token);
    let k = left.index_of(q[i]);
    let t = token_index(left, q[i].token);
    assert(left[k].token == q[i].token);
    assert(t < left.len());
    let w = q.index_of(left[t]);
    assert(q[w] == left[t]);
    let z = token_index(left, token);
    if z < left.len() {
        let y = q.index_of(left[z]);
        assert(q[y] == left[z]);
    }
}

/// What a poll is told is where its request stands; the code goes out with the name it is for.
pub proof fn law_polls_are_told_where_they_stand(e: Entry, pass: Seq<char>)
    ensures
        poll_body(None) == "{\"status\":\"unknown\"}"@,
        e.status is Waiting ==> poll_body(Some(e)) == "{\"status\":\"waiting\"}"@,
        e.status is Denied ==> poll_body(Some(e)) == "{\"status\":\"denied\"}"@,
        e.status == Status::Approved(pass) ==> poll_body(Some(e)) == rendered(
            Doc::Object(
                Map::empty().insert("status"@, Doc::Text("approved"@)).insert(
                    "user"@,
                    Doc::Text(e.name),
                ).insert("pass"@, Doc::Text(pass)),
            ),
        ),
{
}

/// A code is minted exactly if the professor's code was accepted and an open request under the name
/// waits; it is the name's own, and it is given by the one command that names the password file.
pub proof fn law_which_codes_are_minted(
    q: Seq<Entry>,
    name: Seq<char>,
    accepted: bool,
    entropy: Seq<u8>,
    now: u64,
    a: Approval,
)
    requires
        approve_step(q, name, accepted, entropy, now, a),
    ensures
        a is Mint <==> accepted && exists|i: int|
            0 <= i < q.len() && (#[trigger] q[i]).name == name && q[i].status is Waiting && now
                - q[i].created < 30 * 60 * 1_000_000_000,
        a is Mint ==> a->Mint_name@ == name && a->Mint_pass@ == minted(entropy)
            && a->Mint_args.deep_view() == seq![
            "-b"@,
            "/etc/mosquitto/hub-passwd"@,
            name,
            minted(entropy),
        ],
{
    let left = open_entries(q, now);
    lemma_open_is_part(q, now);
    if has_waiting(left, name) {
        let k = choose|k: int| 0 <= k < left.len() && is_waiting(#[trigger] left[k], name);
        let i = q.index_of(left[k]);
        assert(q[i] == left[k]);
        assert(is_open(left[k], now));
        assert(q[i].name == name && q[i].status is Waiting);
    }
    if exists|i: int|
        0 <= i < q.len() && (#[trigger] q[i]).name == name && q[i].status is Waiting && now
            - q[i].created < 30 * 60 * 1_000_000_000 {
        let i = choose|i: int|
            0 <= i < q.len() && (#[trigger] q[i]).name == name && q[i].status is Waiting && now
                - q[i].created < 30 * 60 * 1_000_000_000;
        lemma_open_keeps(q, now, i);
        let k = left.index_of(q[i]);
        assert(is_waiting(left[k], name));
    }
}

/// A denial marks the first request under the name that waits, and changes nothing else; it is
/// answered with success exactly if the professor's code was accepted and there was one.
pub proof fn law_denials_mark_who_waits(q: Seq<Entry>, name: Seq<char>, accepted: bool, i: int)
    ensures
        0 <= i < q.len() && q[i].name == name && q[i].status is Waiting && (forall|j: int|
            0 <= j < i ==> !((#[trigger] q[j]).name == name && q[j].status is Waiting)) ==> denied(
            q,
            name,
        ) == q.update(i, Entry { status: Status::Denied, ..q[i] }) && deny_body(q, name, true)
            == "{\"ok\":true}"@,
        (forall|j: int|
            0 <= j < q.len() ==> !((#[trigger] q[j]).name == name && q[j].status is Waiting))
            ==> denied(q, name) == q && deny_body(q, name, true) == error_body("no such request"@),
        deny_body(q, name, false) == error_body("professor code rejected"@),
{
    lemma_waiting_index(q, name);
    let w = waiting_index(q, name);
    if 0 <= i < q.len() && q[i].name == name && q[i].status is Waiting && (forall|j: int|
        0 <= j < i ==> !((#[trigger] q[j]).name == name && q[j].status is Waiting)) {
        assert(is_waiting(q[i], name));
        assert(w == i);
    }
    if forall|j: int|
        0 <= j < q.len() ==> !((#[trigger] q[j]).name == name && q[j].status is Waiting) {
        if w < q.len() {
            assert(is_waiting(q[w], name));
        }
    }
}

/// Names and codes are judged as the laws on their texts say.
pub proof fn law_names_and_codes_are_judged(text: &str, r: bool)
    ensures
        call_ensures(valid_name, (text,), r) ==> r == is_name(text@),
        call_ensures(valid_pass, (text,), r) ==> r == is_code(text@),
{
}

/// The broker reads its file again exactly after a command that succeeded, and only a code that was
/// set shows that the class no longer runs its seeded ones.
pub proof fn law_changes_are_taken_in(success: bool, d: Done)
    ensures
        call_ensures(set_done, (success,), d) ==> d.reload == success && d.clear_marker == success
            && (success ==> d.reply.2@ == "{\"ok\":true}"@),
        call_ensures(del_done, (success,), d) ==> d.reload == success && !d.clear_marker && (success
            ==> d.reply.2@ == "{\"ok\":true}"@),
{
}

/// An admitted request is answered with its token, and a refused one with why; the list names who
/// waits.
pub proof fn law_requests_are_answered(token: Seq<char>, r: Refusal, q: Seq<Entry>, now: u64)
    ensures
        requests_body(q, now) == rendered(
            Doc::Object(
                Map::empty().insert(
                    "requests"@,
                    text_list(waiting_names(open_entries(q, now))),
                ),
            ),
        ),
        request_body(None, token) == rendered(
            Doc::Object(
                Map::empty().insert("ok"@, Doc::Flag(true)).insert("token"@, Doc::Text(token)),
            ),
        ),
        request_body(Some(r), token) == rendered(
            Doc::Object(
                Map::empty().insert("ok"@, Doc::Flag(false)).insert(
                    "error"@,
                    Doc::Text(refusal_text(r)),
                ),
            ),
        ),
{
}

} // verus!
