use hub::codes::{
    approve_json, del_code, del_done, del_json, deny_json, gen_code, list_json, list_users,
    poll_json, professor_code, professor_packet, rand_hex, request_json, requests_json, set_code, set_done, set_json,
    valid_name, valid_pass, Approval, Queue, Step, ALPHABET, PASSWD, REQUEST_CAP, REQUEST_TTL,
};
use hub::mqtt::{connack_accepts, connect_packet};

const USERS: &str = "professor:$7$x\nteam-a:$7$y\nbroken line\n";

#[test]
fn names_are_small_and_start_with_a_letter_or_digit() {
    for good in ["a", "7seas", "team-a_1", &"x".repeat(32)] {
        assert!(valid_name(good), "{good}");
    }
    for bad in ["", "-D", "_a", "Team", "a b", "é", &"x".repeat(33)] {
        assert!(!valid_name(bad), "{bad}");
    }
}

#[test]
fn codes_cannot_pass_for_flags() {
    assert!(valid_pass("x-y"));
    assert!(valid_pass(&"x".repeat(64)));
    for bad in ["", "-D", &"x".repeat(65)] {
        assert!(!valid_pass(bad), "{bad}");
    }
}

#[test]
fn users_are_listed() {
    assert_eq!(list_users(USERS), ["professor", "team-a"]);
    assert_eq!(list_json(USERS, true), r#"{"placeholders":true,"users":["professor","team-a"]}"#);
    assert_eq!(list_json("", false), r#"{"placeholders":false,"users":[]}"#);
}

fn answer(s: Step) -> String {
    match s {
        Step::Answer((status, ctype, body)) => {
            assert_eq!((status, ctype), ("200 OK", "application/json"));
            body
        }
        Step::Run(_) => panic!("runs"),
    }
}

fn args(s: Step) -> Vec<String> {
    match s {
        Step::Run(a) => a,
        Step::Answer(r) => panic!("answers {}", r.2),
    }
}

fn refusal(msg: &str) -> String {
    format!(r#"{{"error":"{msg}","ok":false}}"#)
}

#[test]
fn setting_a_code_checks_everything_first() {
    assert_eq!(professor_code(r#"{"auth":"s3","user":"x"}"#), "s3");
    assert_eq!(professor_code("no json"), "");
    let names = "names are 1-32 chars: a-z 0-9 - _ (starting with a letter or digit)";
    assert_eq!(answer(set_code(false, "team", "code")), refusal("professor code rejected"));
    assert_eq!(answer(set_code(true, "-D", "code")), refusal(names));
    assert_eq!(
        answer(set_code(true, "unassigned", "code")),
        refusal("the pool identity is fixed — it matches the firmware default")
    );
    assert_eq!(
        answer(set_code(true, "team", "-c")),
        refusal("codes are 1-64 chars and can't start with '-'")
    );
    assert_eq!(args(set_code(true, "team", "code")), ["-b", PASSWD, "team", "code"]);
    assert_eq!(args(set_code(true, "professor", "new")), ["-b", PASSWD, "professor", "new"]);
    let body = r#"{"auth":"a","user":"team","pass":"pw"}"#;
    assert_eq!(args(set_json(body, true)), ["-b", PASSWD, "team", "pw"]);
    assert_eq!(answer(set_json("[]", true)), refusal(names));
}

#[test]
fn a_code_that_was_set_clears_the_placeholders() {
    let done = set_done(true);
    assert!(done.clear_marker && done.reload);
    assert_eq!(done.reply.2, r#"{"ok":true}"#);
    let failed = set_done(false);
    assert!(!failed.clear_marker && !failed.reload);
    assert_eq!(failed.reply.2, refusal("mosquitto_passwd failed"));
}

#[test]
fn deleting_a_team_checks_everything_first() {
    assert_eq!(answer(del_code(false, "team-a", USERS)), refusal("professor code rejected"));
    for fixed in ["professor", "unassigned"] {
        assert_eq!(
            answer(del_code(true, fixed, USERS)),
            refusal("professor and the pool identity cannot be deleted")
        );
    }
    assert_eq!(answer(del_code(true, "team-b", USERS)), refusal("no such team"));
    assert_eq!(answer(del_code(true, "broken line", USERS)), refusal("no such team"));
    assert_eq!(args(del_code(true, "team-a", USERS)), ["-D", PASSWD, "team-a"]);
    assert_eq!(args(del_json(r#"{"user":"team-a"}"#, true, USERS)), ["-D", PASSWD, "team-a"]);
    let done = del_done(true);
    assert!(!done.clear_marker && done.reload);
    assert!(!del_done(false).reload);
}

#[test]
fn minted_codes_are_easy_to_read() {
    assert_eq!(gen_code(&[0, 1, 22, 23, 30, 31, 62, 255]), "abz29aah");
    assert!(!ALPHABET.contains(['0', 'O', '1', 'l', 'i', 'o']));
    assert_eq!(rand_hex(&[0, 255, 16]), "00ff10");
}

fn ask(q: &mut Queue, name: &str, token: &str, now: u64) -> String {
    request_json(q, &format!(r#"{{"name":"{name}"}}"#), token.to_string(), USERS, now).2
}

fn poll(q: &mut Queue, token: &str, now: u64) -> String {
    poll_json(q, &format!(r#"{{"token":"{token}"}}"#), now).2
}

const WAITING: &str = r#"{"status":"waiting"}"#;
const UNKNOWN: &str = r#"{"status":"unknown"}"#;

#[test]
fn requests_are_refused_for_the_right_reasons() {
    let mut q = Queue::new();
    let names = "names are 1-32 chars: a-z 0-9 - _ (starting with a letter or digit)";
    assert_eq!(ask(&mut q, "No", "t", 0), refusal(names));
    assert_eq!(ask(&mut q, "professor", "t", 0), refusal("that name is reserved"));
    assert_eq!(ask(&mut q, "unassigned", "t", 0), refusal("that name is reserved"));
    assert_eq!(
        ask(&mut q, "team-a", "t", 0),
        refusal("that team already has a code — ask the professor for it")
    );
    assert_eq!(ask(&mut q, " new ", "t0", 0), r#"{"ok":true,"token":"t0"}"#);
    assert_eq!(
        ask(&mut q, "new", "t1", 1),
        refusal("that name is already requested — if that wasn't you, tell the professor")
    );
    for i in 1..REQUEST_CAP {
        assert_eq!(ask(&mut q, &format!("n{i}"), "t", 1), r#"{"ok":true,"token":"t"}"#);
    }
    assert_eq!(
        ask(&mut q, "late", "t", 1),
        refusal("too many open requests — ask the professor to clear some")
    );
    assert_eq!(poll(&mut q, "t0", 1), WAITING);
}

#[test]
fn a_request_comes_to_its_code_and_is_delivered_once() {
    let mut q = Queue::new();
    ask(&mut q, "new", "ticket", 0);
    assert_eq!(requests_json(&mut q, 1), r#"{"requests":["new"]}"#);
    let (name, pass) = match approve_json(&mut q, r#"{"name":"new"}"#, true, &[0; 8], 2) {
        Approval::Mint { args, name, pass } => {
            assert_eq!(args, ["-b", PASSWD, "new", "aaaaaaaa"]);
            (name, pass)
        }
        Approval::Answer(r) => panic!("{}", r.2),
    };
    let done = q.approve_done(name, pass, true, 3);
    assert!(done.clear_marker && done.reload);
    assert_eq!(done.reply.2, r#"{"ok":true,"pass":"aaaaaaaa","user":"new"}"#);
    assert_eq!(requests_json(&mut q, 3), r#"{"requests":[]}"#);
    assert_eq!(poll(&mut q, "other", 3), UNKNOWN);
    assert_eq!(
        poll(&mut q, "ticket", 2 + REQUEST_TTL),
        r#"{"pass":"aaaaaaaa","status":"approved","user":"new"}"#
    );
    assert_eq!(poll(&mut q, "ticket", 2 + REQUEST_TTL), UNKNOWN);
}

#[test]
fn approvals_need_the_professor_and_a_request() {
    let mut q = Queue::new();
    ask(&mut q, "new", "t", 0);
    let no = |a: Approval| match a {
        Approval::Answer(r) => r.2,
        Approval::Mint { .. } => panic!("mints"),
    };
    assert_eq!(
        no(approve_json(&mut q, r#"{"name":"new"}"#, false, &[0; 8], 1)),
        refusal("professor code rejected")
    );
    assert_eq!(
        no(approve_json(&mut q, r#"{"name":"x"}"#, true, &[0; 8], 1)),
        refusal("no such request — it may have expired")
    );
    assert_eq!(
        no(approve_json(&mut q, r#"{"name":"new"}"#, true, &[0; 8], REQUEST_TTL)),
        refusal("no such request — it may have expired")
    );
    ask(&mut q, "new", "t", REQUEST_TTL);
    let failed = q.approve_done("new".to_string(), "pw".to_string(), false, REQUEST_TTL);
    assert_eq!(failed.reply.2, refusal("mosquitto_passwd failed"));
    assert_eq!(poll(&mut q, "t", REQUEST_TTL), WAITING);
}

#[test]
fn a_denial_is_delivered_once() {
    let mut q = Queue::new();
    ask(&mut q, "new", "t", 0);
    assert_eq!(deny_json(&mut q, r#"{"name":"new"}"#, false).2, refusal("professor code rejected"));
    assert_eq!(deny_json(&mut q, r#"{"name":"x"}"#, true).2, refusal("no such request"));
    assert_eq!(deny_json(&mut q, r#"{"name":"new"}"#, true).2, r#"{"ok":true}"#);
    assert_eq!(deny_json(&mut q, r#"{"name":"new"}"#, true).2, refusal("no such request"));
    assert_eq!(poll(&mut q, "t", 1), r#"{"status":"denied"}"#);
    assert_eq!(poll(&mut q, "t", 1), UNKNOWN);
}

#[test]
fn a_dismissed_name_may_knock_again() {
    let mut q = Queue::new();
    assert_eq!(ask(&mut q, "new", "lost", 0), r#"{"ok":true,"token":"lost"}"#);
    assert_eq!(deny_json(&mut q, r#"{"name":"new"}"#, true).2, r#"{"ok":true}"#);
    assert_eq!(ask(&mut q, "new", "fresh", 1), r#"{"ok":true,"token":"fresh"}"#);
    assert_eq!(requests_json(&mut q, 2), r#"{"requests":["new"]}"#);
    assert_eq!(
        ask(&mut q, "new", "third", 2),
        refusal("that name is already requested — if that wasn't you, tell the professor")
    );
    match approve_json(&mut q, r#"{"name":"new"}"#, true, &[1; 8], 3) {
        Approval::Mint { name, pass, .. } => {
            q.approve_done(name, pass, true, 3);
        }
        Approval::Answer(r) => panic!("{}", r.2),
    }
    assert_eq!(poll(&mut q, "lost", 4), r#"{"status":"denied"}"#);
    assert_eq!(
        poll(&mut q, "fresh", 4),
        r#"{"pass":"bbbbbbbb","status":"approved","user":"new"}"#
    );
}

#[test]
fn a_lapsed_request_may_be_dismissed_and_made_anew() {
    let mut q = Queue::new();
    ask(&mut q, "new", "old", 0);
    assert_eq!(deny_json(&mut q, r#"{"name":"new"}"#, true).2, r#"{"ok":true}"#);
    assert_eq!(ask(&mut q, "new", "fresh", REQUEST_TTL), r#"{"ok":true,"token":"fresh"}"#);
    assert_eq!(poll(&mut q, "old", REQUEST_TTL), UNKNOWN);
}

#[test]
fn a_denial_during_the_mint_loses() {
    let mut q = Queue::new();
    ask(&mut q, "new", "lost", 0);
    assert_eq!(deny_json(&mut q, r#"{"name":"new"}"#, true).2, r#"{"ok":true}"#);
    ask(&mut q, "new", "fresh", 1);
    let (name, pass) = match approve_json(&mut q, r#"{"name":"new"}"#, true, &[1; 8], 2) {
        Approval::Mint { name, pass, .. } => (name, pass),
        Approval::Answer(r) => panic!("{}", r.2),
    };
    assert_eq!(deny_json(&mut q, r#"{"name":"new"}"#, true).2, r#"{"ok":true}"#);
    let done = q.approve_done(name, pass, true, 3);
    assert_eq!(done.reply.2, r#"{"ok":true,"pass":"bbbbbbbb","user":"new"}"#);
    assert_eq!(poll(&mut q, "lost", 4), r#"{"status":"denied"}"#);
    assert_eq!(
        poll(&mut q, "fresh", 2 + REQUEST_TTL),
        r#"{"pass":"bbbbbbbb","status":"approved","user":"new"}"#
    );
}

#[test]
fn dismissed_requests_make_room() {
    let mut q = Queue::new();
    for i in 0..REQUEST_CAP {
        assert_eq!(ask(&mut q, &format!("n{i}"), "t", 0), r#"{"ok":true,"token":"t"}"#);
    }
    let full = refusal("too many open requests — ask the professor to clear some");
    assert_eq!(ask(&mut q, "late", "t", 0), full);
    assert_eq!(deny_json(&mut q, r#"{"name":"n3"}"#, true).2, r#"{"ok":true}"#);
    assert_eq!(ask(&mut q, "late", "t", 0), r#"{"ok":true,"token":"t"}"#);
    assert_eq!(ask(&mut q, "n3", "t", 0), full);
}

#[test]
fn requests_lapse_after_half_an_hour() {
    let mut q = Queue::new();
    ask(&mut q, "new", "t", 5);
    assert_eq!(poll(&mut q, "t", 4 + REQUEST_TTL), WAITING);
    assert_eq!(poll(&mut q, "t", 5 + REQUEST_TTL), UNKNOWN);
    assert_eq!(poll(&mut q, "", 0), UNKNOWN);
    assert_eq!(poll_json(&mut q, "{", 0).2, UNKNOWN);
}

#[test]
fn the_broker_is_asked_with_a_connect_packet() {
    let mut expected = vec![0x10, 44, 0, 4, b'M', b'Q', b'T', b'T', 4, 0xC2, 0, 30];
    for field in ["hubd-auth-probe", "professor", "s3c"] {
        expected.push(0);
        expected.push(field.len() as u8);
        expected.extend_from_slice(field.as_bytes());
    }
    expected[1] = (expected.len() - 2) as u8;
    assert_eq!(connect_packet("professor", "s3c"), expected);
    let long = connect_packet("professor", &"x".repeat(300));
    let rest = long.len() - 3;
    assert_eq!(&long[1..3], &[(rest % 128) as u8 | 0x80, (rest / 128) as u8]);
}

#[test]
fn the_broker_is_asked_about_the_professor() {
    assert_eq!(professor_packet(r#"{"auth":"s3c","user":"x"}"#), connect_packet("professor", "s3c"));
    assert_eq!(professor_packet("no json"), connect_packet("professor", ""));
}

#[test]
fn only_a_clean_connack_accepts() {
    assert!(connack_accepts(Some([0x20, 2, 0, 0])));
    assert!(!connack_accepts(Some([0x20, 2, 0, 5])));
    assert!(!connack_accepts(Some([0x30, 2, 0, 0])));
    assert!(!connack_accepts(None));
}
