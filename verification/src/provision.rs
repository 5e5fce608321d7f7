//! Provisioning over Bluetooth: what a written command sets off, what is notified, what is
//! advertised, and what the hub tells of itself.
use vstd::prelude::*;
use vstd::string::*;
use vstd::utf8::{encode_utf8, is_ascii_chars};

use crate::bytes::{extend, output_text, text_in, utf8_bytes};
use crate::captive::opt_text;
use crate::improv::{
    byte_sum, cmd, decoded, encode_result, frame, frame_data, law_frames_are_well_framed,
    law_results_read_back, parse_command, read_strings, result_data, scan_triplet, well_framed,
    Command, ErrorState, ParseError, Request, State, CHAR_CAPABILITIES, CHAR_CURRENT_STATE,
    CHAR_ERROR_STATE, CHAR_RPC_COMMAND, CHAR_RPC_RESULT, SERVICE_UUID,
};
use crate::json::{
    insert, member, new_map, null, object, optional_text, render, rendered, text, text_or_null, Doc,
};
use crate::number::{all_digits, digits_value, hex_bytes, hex_of_bytes, signed_decimal};
use crate::text::{
    before, blank, capital, capitals, chars, head_field, is_space, law_line_feeds_end_lines,
    law_separators_cut, law_trimming_leaves_the_middle, law_white_space_parts_words, line_seq,
    lines, snug, starts_with, string_of, trim, trimmed, uppered, word_seq, words,
};
use crate::wifi::{
    answer_at, answer_of, ask_ssid, first_answer, first_said, in_mode, mode_args, modes_by, pick,
    profiles, says_ap, seen, ssid_args, Net, Profile, Row, Seen,
};

verus! {

// ---- Identifiers ----

/// The digits of a hyphenated UUID.
pub open spec fn uuid_digits(s: Seq<char>) -> Seq<char> {
    s.subrange(0, 8) + s.subrange(9, 13) + s.subrange(14, 18) + s.subrange(19, 23) + s.subrange(
        24,
        36,
    )
}

/// Is this a UUID in its hyphenated form?
pub open spec fn is_hyphenated(s: Seq<char>) -> bool {
    &&& s.len() == 36
    &&& s[8] == '-' && s[13] == '-' && s[18] == '-' && s[23] == '-'
    &&& all_digits(uuid_digits(s), 16)
}

/// What `uuid::Uuid::parse_str` makes of a text, as a number; `None` where it fails.
pub uninterp spec fn uuid_number(s: Seq<char>) -> Option<u128>;

/// `uuid::Uuid::parse_str`, and `as_u128` of what it gives. Of the hyphenated form that is the
/// number that the digits denote; of other forms the result has a name and no more.
#[verifier::external_body]
fn parse_uuid(s: &str) -> (r: Option<u128>)
    ensures
        r == uuid_number(s@),
        is_hyphenated(s@) ==> r is Some && r->0 == digits_value(uuid_digits(s@), 16),
{
    uuid::Uuid::parse_str(s).ok().map(|u| u.as_u128())
}

/// The number of a UUID.
pub fn uuid(s: &str) -> (r: Option<u128>)
    ensures
        r == uuid_number(s@),
        is_hyphenated(s@) ==> r is Some && r->0 == digits_value(uuid_digits(s@), 16),
{
    parse_uuid(s)
}

// ---- Commands ----

/// What a written command sets off.
pub enum Work {
    Scan,
    Join { ssid: String, password: String },
    /// Send what the device is.
    Describe,
    /// Nothing: there is nothing on the hub to identify it by.
    Acknowledge,
    /// Show this error.
    Fail(ErrorState),
}

/// The work for a request, or for a packet that was rejected.
pub open spec fn work_for(decoded: Result<Request, ParseError>, w: Work) -> bool {
    match decoded {
        Ok(Request::Scan) => w is Scan,
        Ok(Request::SendWifi { ssid, password }) => w matches Work::Join { ssid: s, password: p }
            && s@ == ssid && p@ == password,
        Ok(Request::DeviceInfo) => w is Describe,
        Ok(Request::Identify) => w is Acknowledge,
        Err(e) => w == Work::Fail(e.spec_error_state()),
    }
}

/// Takes in a written command. Whatever it is, the error that was shown before is cleared first.
pub fn handle_command(value: &[u8]) -> (r: (ErrorState, Work))
    ensures
        r.0 == ErrorState::NoError,
        work_for(decoded(value@), r.1),
{
    let work = match parse_command(value) {
        Ok(Command::Scan) => Work::Scan,
        Ok(Command::SendWifi { ssid, password }) => Work::Join { ssid, password },
        Ok(Command::DeviceInfo) => Work::Describe,
        Ok(Command::Identify) => Work::Acknowledge,
        Err(e) => Work::Fail(e.error_state()),
    };
    (ErrorState::NoError, work)
}

/// About how many dBm a signal of 0 to 100 is: half of it, towards zero, less a hundred.
pub open spec fn dbm(signal: int) -> int {
    if signal >= 0 {
        signal / 2 - 100
    } else {
        -((-signal) / 2) - 100
    }
}

pub fn rssi(signal: i32) -> (r: i32)
    ensures
        r == dbm(signal as int),
{
    let wide = signal as i64;
    let half: i64 = if wide >= 0 {
        wide / 2
    } else {
        -((-wide) / 2)
    };
    (half - 100) as i32
}

/// The strings of a scan result.
pub open spec fn scan_strings(n: Seen) -> Seq<Seq<char>> {
    seq![n.ssid, signed_decimal(dbm(n.signal)), n.security]
}

/// The frames that a scan is answered with: one for each network, and one without strings, which
/// ends it.
pub open spec fn scan_frames(nets: Seq<Seen>) -> Seq<Seq<u8>> {
    Seq::new(
        nets.len() + 1,
        |i: int|
            frame(
                cmd::SCAN_WIFI,
                result_data(
                    if i < nets.len() {
                        scan_strings(nets[i])
                    } else {
                        Seq::empty()
                    },
                ),
            ),
    )
}

/// Frames, in contracts.
pub open spec fn frame_seq(frames: Seq<Vec<u8>>) -> Seq<Seq<u8>> {
    Seq::new(frames.len(), |i: int| frames[i]@)
}

/// Makes the frames that a scan is answered with.
pub fn do_scan(nets: &Vec<Net>) -> (frames: Vec<Vec<u8>>)
    ensures
        frame_seq(frames@) == scan_frames(seen(nets@)),
{
    let ghost all = seen(nets@);
    let mut frames: Vec<Vec<u8>> = Vec::new();
    let mut i: usize = 0;
    while i < nets.len()
        invariant
            all == seen(nets@),
            i <= nets@.len(),
            frames@.len() == i,
            forall|j: int| 0 <= j < i ==> (#[trigger] frames@[j])@ == scan_frames(all)[j],
        decreases nets@.len() - i,
    {
        let n = &nets[i];
        let triplet = scan_triplet(n.ssid.as_str(), rssi(n.signal), n.security.as_str());
        assert(triplet@.map_values(|s: String| s@) =~= scan_strings(all[i as int]));
        let strings: &[String] = triplet.as_slice();
        assert(strings.deep_view() =~= scan_strings(all[i as int]));
        frames.push(encode_result(cmd::SCAN_WIFI, strings));
        i += 1;
    }
    frames.push(ending(cmd::SCAN_WIFI));
    assert(frame_seq(frames@) =~= scan_frames(all));
    frames
}

/// A result without strings.
fn ending(command: u8) -> (r: Vec<u8>)
    ensures
        r@ == frame(command, result_data(Seq::empty())),
{
    let none: Vec<String> = Vec::new();
    assert(none.deep_view() =~= Seq::<Seq<char>>::empty());
    encode_result(command, none.as_slice())
}

/// What a join comes to.
pub struct Joined {
    pub error: Option<ErrorState>,
    pub state: State,
    pub result: Option<Vec<u8>>,
}

/// The state while a join is tried.
pub fn joining() -> (s: State)
    ensures
        s == State::Provisioning,
{
    State::Provisioning
}

/// After a join that worked the hub is provisioned, and says so with an empty result: it has no
/// page to send anybody to. After one that did not, it shows the error and takes credentials again.
pub fn do_join(success: bool) -> (r: Joined)
    ensures
        success ==> {
            &&& r.error is None
            &&& r.state == State::Provisioned
            &&& r.result matches Some(f) && f@ == frame(cmd::SEND_WIFI, result_data(Seq::empty()))
        },
        !success ==> {
            &&& r.error == Some(ErrorState::UnableToConnect)
            &&& r.state == State::Authorized
            &&& r.result is None
        },
{
    if success {
        Joined { error: None, state: State::Provisioned, result: Some(ending(cmd::SEND_WIFI)) }
    } else {
        Joined { error: Some(ErrorState::UnableToConnect), state: State::Authorized, result: None }
    }
}

// ---- Advertising ----

/// The scan response: the complete local name, behind its length (the low byte of it) and its
/// type.
pub open spec fn scan_response(name: Seq<char>) -> Seq<u8> {
    seq![((encode_utf8(name).len() + 1) % 256) as u8, 9u8] + encode_utf8(name)
}

/// The arguments of `btmgmt` that start the advertisement.
pub open spec fn advert_args(name: Seq<char>) -> Seq<Seq<char>> {
    seq![
        "add-adv"@,
        "-c"@,
        "-g"@,
        "-u"@,
        SERVICE_UUID@,
        "-s"@,
        hex_bytes(scan_response(name)),
        "1"@,
    ]
}

/// The command that starts advertising the service under a name.
pub fn start_legacy_advert(name: &str) -> (r: Vec<String>)
    ensures
        r.deep_view() == advert_args(name@),
{
    let bytes = utf8_bytes(name);
    let n: usize = bytes.len();
    let mut rsp: Vec<u8> = Vec::new();
    rsp.push(((n % 256 + 1) % 256) as u8);
    rsp.push(9);
    extend(&mut rsp, bytes.as_slice());
    assert(rsp@ =~= scan_response(name@));
    let r: Vec<String> = vec![
        "add-adv".to_owned(),
        "-c".to_owned(),
        "-g".to_owned(),
        "-u".to_owned(),
        SERVICE_UUID.to_owned(),
        "-s".to_owned(),
        hex_of_bytes(rsp.as_slice()),
        "1".to_owned(),
    ];
    assert(r.deep_view() =~= advert_args(name@));
    r
}

// ---- What the hub tells of itself ----

/// The network of a profile, from the answer for it; nothing where the answer is empty.
pub open spec fn network_in(answer: Seq<char>) -> Option<Seq<char>> {
    if trimmed(answer).len() > 0 {
        Some(trimmed(answer))
    } else {
        None
    }
}

pub fn profile_ssid(answer: &str) -> (r: Option<String>)
    ensures
        opt_text(r) == network_in(answer@),
{
    let s = trim(answer);
    if s.as_str().is_empty() {
        None
    } else {
        Some(s)
    }
}

/// The serial number in what the system says of its processor: the last word of the first line
/// that begins with `Serial`; empty where there is none.
pub open spec fn serial_in(lines: Seq<Seq<char>>) -> Seq<char>
    decreases lines.len(),
{
    if lines.len() == 0 {
        Seq::empty()
    } else if "Serial"@.is_prefix_of(lines[0]) {
        if word_seq(lines[0]).len() > 0 {
            word_seq(lines[0]).last()
        } else {
            Seq::empty()
        }
    } else {
        serial_in(lines.skip(1))
    }
}

/// The last four characters.
pub open spec fn last_four(s: Seq<char>) -> Seq<char> {
    if s.len() > 4 {
        s.skip(s.len() - 4)
    } else {
        s
    }
}

/// The name of a hub without an access point: from its serial number.
pub open spec fn serial_name(serial: Seq<char>) -> Seq<char> {
    "hub-"@ + if serial.len() == 0 {
        "0000"@
    } else {
        capital(last_four(serial))
    }
}

/// The name that the hub goes by: its access point's, or the one from its serial number.
pub open spec fn name_of_hub(ap_networks: Seq<Seq<char>>, cpuinfo: Option<Seq<char>>) -> Seq<char> {
    match first_said(ap_networks) {
        Some(ssid) => ssid,
        None => serial_name(
            match cpuinfo {
                Some(text) => serial_in(line_seq(text)),
                None => Seq::empty(),
            },
        ),
    }
}

fn find_serial(cpuinfo: &str) -> (r: String)
    ensures
        r@ == serial_in(line_seq(cpuinfo@)),
{
    let ls = lines(cpuinfo);
    let ghost dv = line_seq(cpuinfo@);
    let mut i: usize = 0;
    assert(dv.skip(0) =~= dv);
    while i < ls.len()
        invariant
            ls.deep_view() == dv,
            dv == line_seq(cpuinfo@),
            i <= ls@.len(),
            serial_in(dv.skip(i as int)) == serial_in(dv),
        decreases ls@.len() - i,
    {
        assert(dv.skip(i as int)[0] == ls@[i as int]@);
        assert(dv.skip(i as int).skip(1) =~= dv.skip(i + 1));
        if starts_with(ls[i].as_str(), "Serial") {
            let ws = words(ls[i].as_str());
            let n: usize = ws.len();
            if n > 0 {
                assert(ws.deep_view().last() == ws@[n - 1]@);
                return ws[n - 1].clone();
            }
            return String::new();
        }
        i += 1;
    }
    String::new()
}

fn name_from_serial(serial: &str) -> (r: String)
    ensures
        r@ == serial_name(serial@),
{
    let v = chars(serial);
    let n: usize = v.len();
    let mut r = "hub-".to_owned();
    if n == 0 {
        r.append("0000");
    } else {
        let from: usize = if n > 4 {
            n - 4
        } else {
            0
        };
        let tail = string_of(&v, from, n);
        assert(tail@ =~= last_four(serial@));
        r.append(capitals(tail.as_str()).as_str());
    }
    r
}

/// The hub's name: one for all its radios. `ap_networks` are the answers for the networks of the
/// access point profiles, active or not.
pub fn device_name(ap_networks: &Vec<String>, cpuinfo: &Option<String>) -> (r: String)
    ensures
        r@ == name_of_hub(ap_networks.deep_view(), opt_text(*cpuinfo)),
{
    match first_answer(ap_networks) {
        Some(ssid) => ssid,
        None => match cpuinfo {
            Some(text) => name_from_serial(find_serial(text.as_str()).as_str()),
            None => {
                let none = String::new();
                assert(none@ =~= Seq::<char>::empty());
                name_from_serial(none.as_str())
            },
        },
    }
}

/// What the device is: firmware, version, hardware and name.
pub fn device_info(version: &str, name: &str) -> (r: Vec<String>)
    ensures
        r.deep_view() == seq!["hub"@, version@, "Raspberry Pi"@, name@],
{
    let r: Vec<String> = vec![
        "hub".to_owned(),
        version.to_owned(),
        "Raspberry Pi".to_owned(),
        name.to_owned(),
    ];
    assert(r.deep_view() =~= seq!["hub"@, version@, "Raspberry Pi"@, name@]);
    r
}

/// The frame that tells what the device is.
pub fn describe(version: &str, name: &str) -> (r: Vec<u8>)
    ensures
        r@ == frame(
            cmd::DEVICE_INFO,
            result_data(seq!["hub"@, version@, "Raspberry Pi"@, name@]),
        ),
{
    encode_result(cmd::DEVICE_INFO, device_info(version, name).as_slice())
}

/// The hub's legs: its access point, and its connection to somebody else's network.
pub struct Legs {
    pub ap: Option<Row>,
    pub sta: Option<Row>,
}

/// A profile, in contracts, where there is one.
pub open spec fn opt_profile(r: Option<Row>) -> Option<Profile> {
    match r {
        Some(row) => Some(row@),
        None => None,
    }
}

pub open spec fn first_of(ps: Seq<Profile>) -> Option<Profile> {
    if ps.len() > 0 {
        Some(ps[0])
    } else {
        None
    }
}

fn head_row(rows: &Vec<Row>) -> (r: Option<Row>)
    ensures
        opt_profile(r) == first_of(profiles(rows@)),
{
    if rows.len() > 0 {
        let row = Row { name: rows[0].name.clone(), device: rows[0].device.clone() };
        assert(row@ == profiles(rows@)[0]);
        Some(row)
    } else {
        None
    }
}

/// Finds the legs among the active profiles, by the answers for their modes: the first access
/// point, and the first of the others.
pub fn find_legs(active: &Vec<Row>, modes: &Vec<String>) -> (r: Legs)
    ensures
        opt_profile(r.ap) == first_of(in_mode(profiles(active@), modes.deep_view(), true)),
        opt_profile(r.sta) == first_of(in_mode(profiles(active@), modes.deep_view(), false)),
{
    let aps = pick(active, modes, true);
    let stas = pick(active, modes, false);
    Legs { ap: head_row(&aps), sta: head_row(&stas) }
}

/// The leg that clients are told to join: the access point wherever there is one.
pub open spec fn told_leg(ap: Option<Profile>, sta: Option<Profile>) -> Option<Profile> {
    match ap {
        Some(p) => Some(p),
        None => sta,
    }
}

/// The leg that clients are told to join.
pub fn told(legs: &Legs) -> (r: Option<Row>)
    ensures
        opt_profile(r) == told_leg(opt_profile(legs.ap), opt_profile(legs.sta)),
{
    match &legs.ap {
        Some(row) => Some(Row { name: row.name.clone(), device: row.device.clone() }),
        None => match &legs.sta {
            Some(row) => Some(Row { name: row.name.clone(), device: row.device.clone() }),
            None => None,
        },
    }
}

/// The command that asks for the addresses of a device.
pub open spec fn address_args(device: Seq<char>) -> Seq<Seq<char>> {
    seq!["-g"@, "IP4.ADDRESS"@, "device"@, "show"@, device]
}

/// The command that asks, afresh, whether the internet can be reached.
pub open spec fn connectivity_args() -> Seq<Seq<char>> {
    seq!["networking"@, "connectivity"@, "check"@]
}

/// What is asked about the connection to somebody else's network: its network, and what can be
/// reached over it.
pub open spec fn sta_questions(sta: Option<Profile>) -> Seq<Seq<Seq<char>>> {
    match sta {
        Some(p) => seq![ssid_args(p.name), connectivity_args()],
        None => Seq::empty(),
    }
}

/// What is asked about the leg that is told: its address, and its network.
pub open spec fn told_questions(told: Option<Profile>) -> Seq<Seq<Seq<char>>> {
    match told {
        Some(p) => seq![address_args(p.device), ssid_args(p.name)],
        None => Seq::empty(),
    }
}

/// What is asked about the legs, in order.
pub open spec fn questions(ap: Option<Profile>, sta: Option<Profile>) -> Seq<Seq<Seq<char>>> {
    sta_questions(sta) + told_questions(told_leg(ap, sta))
}

/// Commands, in contracts.
pub open spec fn command_seq(commands: Seq<Vec<String>>) -> Seq<Seq<Seq<char>>> {
    Seq::new(commands.len(), |i: int| commands[i].deep_view())
}

fn ask_address(device: &str) -> (r: Vec<String>)
    ensures
        r.deep_view() == address_args(device@),
{
    let r: Vec<String> = vec![
        "-g".to_owned(),
        "IP4.ADDRESS".to_owned(),
        "device".to_owned(),
        "show".to_owned(),
        device.to_owned(),
    ];
    assert(r.deep_view() =~= address_args(device@));
    r
}

fn ask_connectivity() -> (r: Vec<String>)
    ensures
        r.deep_view() == connectivity_args(),
{
    let r: Vec<String> = vec![
        "networking".to_owned(),
        "connectivity".to_owned(),
        "check".to_owned(),
    ];
    assert(r.deep_view() =~= connectivity_args());
    r
}

/// The commands whose answers, in this order, `hub_info_json` takes.
pub fn hub_questions(legs: &Legs) -> (r: Vec<Vec<String>>)
    ensures
        command_seq(r@) == questions(opt_profile(legs.ap), opt_profile(legs.sta)),
{
    let mut r: Vec<Vec<String>> = Vec::new();
    match &legs.sta {
        Some(row) => {
            r.push(ask_ssid(row.name.as_str()));
            r.push(ask_connectivity());
        },
        None => {},
    }
    assert(command_seq(r@) =~= sta_questions(opt_profile(legs.sta)));
    let ghost first = command_seq(r@);
    let ghost before = r@;
    let leg = told(legs);
    match &leg {
        Some(row) => {
            let address = ask_address(row.device.as_str());
            let network = ask_ssid(row.name.as_str());
            r.push(address);
            r.push(network);
            assert(r@ =~= before + seq![address, network]);
            assert(command_seq(r@) =~= first + told_questions(opt_profile(leg)));
        },
        None => {
            assert(command_seq(r@) =~= first + told_questions(opt_profile(leg)));
        },
    }
    r
}

/// Which leg is reported.
pub open spec fn leg_word(ap: Option<Profile>, sta: Option<Profile>) -> Seq<char> {
    if ap is Some {
        "ap"@
    } else if sta is Some {
        "sta"@
    } else {
        "none"@
    }
}

/// The address that NetworkManager gives for a device: the first line, without its prefix length.
pub open spec fn address_in(answer: Seq<char>) -> Seq<char> {
    if line_seq(answer).len() > 0 {
        head_field(line_seq(answer)[0], '/')
    } else {
        Seq::empty()
    }
}

/// Where to dial; nothing where the address is not known.
pub open spec fn dial(ip: Seq<char>) -> Option<Seq<char>> {
    if ip.len() > 0 {
        Some("tcp/"@ + ip + ":7447"@)
    } else {
        None
    }
}

/// What the hub tells of itself: `answers` are those to `questions`, and `hubd` is what the system
/// said of the service that serves the dashboard, if it could be asked.
pub open spec fn hub_info_doc(
    ap: Option<Profile>,
    sta: Option<Profile>,
    answers: Seq<Seq<char>>,
    hubd: Option<Seq<char>>,
) -> Doc {
    let told = told_leg(ap, sta) is Some;
    let n = sta_questions(sta).len() as int;
    Doc::Object(
        map![
            "mode"@ => Doc::Text(leg_word(ap, sta)),
            "ssid"@ => optional_text(
                if told {
                    network_in(answer_at(answers, n + 1))
                } else {
                    None
                },
            ),
            "locator"@ => optional_text(
                if told {
                    dial(address_in(answer_at(answers, n)))
                } else {
                    None
                },
            ),
            "uplink"@ => if sta is Some {
                Doc::Object(
                    map![
                        "ssid"@ => optional_text(network_in(answer_at(answers, 0))),
                        "connectivity"@ => Doc::Text(trimmed(answer_at(answers, 1))),
                    ],
                )
            } else {
                Doc::Null
            },
            "hubd"@ => Doc::Text(
                match hubd {
                    Some(text) => trimmed(text),
                    None => "unknown"@,
                },
            ),
        ],
    )
}

/// The text of what a program printed, if it could be run.
pub open spec fn printed_text(printed: Option<Vec<u8>>) -> Option<Seq<char>> {
    match printed {
        Some(bytes) => Some(text_in(bytes@)),
        None => None,
    }
}

fn read_address(answer: &str) -> (r: String)
    ensures
        r@ == address_in(answer@),
{
    let ls = lines(answer);
    if ls.len() > 0 {
        assert(ls.deep_view()[0] == ls@[0]@);
        before(ls[0].as_str(), '/')
    } else {
        let r = String::new();
        assert(r@ =~= Seq::<char>::empty());
        r
    }
}

fn dial_text(ip: &str) -> (r: Option<String>)
    ensures
        opt_text(r) == dial(ip@),
{
    if ip.is_empty() {
        None
    } else {
        let mut s = "tcp/".to_owned();
        s.append(ip);
        s.append(":7447");
        Some(s)
    }
}

/// What a rover, or a student's laptop, needs to join the hub, and how the hub is: the courier
/// read. Facts that are not there are null.
pub fn hub_info_json(legs: &Legs, answers: &Vec<String>, hubd: &Option<Vec<u8>>) -> (r: Vec<u8>)
    ensures
        r@ == encode_utf8(
            rendered(
                hub_info_doc(
                    opt_profile(legs.ap),
                    opt_profile(legs.sta),
                    answers.deep_view(),
                    printed_text(*hubd),
                ),
            ),
        ),
{
    let ghost sta = opt_profile(legs.sta);
    let mut n: usize = 0;
    let uplink = if legs.sta.is_some() {
        n = 2;
        let mut u = new_map();
        let network = profile_ssid(answer_of(answers, 0).as_str());
        insert(&mut u, "ssid".to_owned(), text_or_null(network));
        insert(&mut u, "connectivity".to_owned(), text(trim(answer_of(answers, 1).as_str())));
        object(u)
    } else {
        null()
    };
    assert(n == sta_questions(sta).len());
    let state = match hubd {
        Some(bytes) => trim(output_text(bytes.as_slice()).as_str()),
        None => "unknown".to_owned(),
    };
    let word = if legs.ap.is_some() {
        "ap"
    } else if legs.sta.is_some() {
        "sta"
    } else {
        "none"
    };
    let (ssid, locator): (Option<String>, Option<String>) = if told(legs).is_some() {
        let address = read_address(answer_of(answers, n).as_str());
        (profile_ssid(answer_of(answers, n + 1).as_str()), dial_text(address.as_str()))
    } else {
        (None, None)
    };
    let mut m = new_map();
    insert(&mut m, "mode".to_owned(), text(word.to_owned()));
    insert(&mut m, "ssid".to_owned(), text_or_null(ssid));
    insert(&mut m, "locator".to_owned(), text_or_null(locator));
    insert(&mut m, "uplink".to_owned(), uplink);
    insert(&mut m, "hubd".to_owned(), text(state));
    utf8_bytes(render(&object(m)).as_str())
}

/// The rest of a value from an offset on: long values are read piece by piece. Nothing is left
/// behind its end.
pub fn read_from(value: &Vec<u8>, offset: usize) -> (r: Vec<u8>)
    ensures
        r@ == if offset <= value@.len() {
            value@.skip(offset as int)
        } else {
            Seq::empty()
        },
{
    let mut r: Vec<u8> = Vec::new();
    let n: usize = value.len();
    let mut i: usize = offset;
    while i < n
        invariant
            n == value@.len(),
            offset <= i,
            offset <= n ==> i <= n && r@ == value@.subrange(offset as int, i as int),
            offset > n ==> r@.len() == 0,
        decreases n - i,
    {
        r.push(value[i]);
        i += 1;
        assert(r@ =~= value@.subrange(offset as int, i as int));
    }
    assert(offset <= n ==> value@.subrange(offset as int, n as int) =~= value@.skip(offset as int));
    r
}

// ---- Laws ----

/// The identifiers of the service are UUIDs.
pub proof fn law_the_identifiers_are_uuids()
    ensures
        is_hyphenated(SERVICE_UUID@),
        is_hyphenated(CHAR_CURRENT_STATE@),
        is_hyphenated(CHAR_ERROR_STATE@),
        is_hyphenated(CHAR_RPC_COMMAND@),
        is_hyphenated(CHAR_RPC_RESULT@),
        is_hyphenated(CHAR_CAPABILITIES@),
{
    reveal_strlit("00467768-6228-2272-4663-277478268000");
    reveal_strlit("00467768-6228-2272-4663-277478268001");
    reveal_strlit("00467768-6228-2272-4663-277478268002");
    reveal_strlit("00467768-6228-2272-4663-277478268003");
    reveal_strlit("00467768-6228-2272-4663-277478268004");
    reveal_strlit("00467768-6228-2272-4663-277478268005");
}

/// What NetworkManager answers to commands.
pub open spec fn answered(
    commands: Seq<Seq<Seq<char>>>,
    nm: spec_fn(Seq<Seq<char>>) -> Seq<char>,
) -> Seq<Seq<char>> {
    Seq::new(commands.len(), |i: int| nm(commands[i]))
}

/// What the hub tells of itself, of its active profiles, where `nm` is what NetworkManager
/// answers.
pub open spec fn hub_told(
    active: Seq<Profile>,
    nm: spec_fn(Seq<Seq<char>>) -> Seq<char>,
    hubd: Option<Seq<char>>,
) -> Doc {
    let ap = first_of(in_mode(active, modes_by(active, nm), true));
    let sta = first_of(in_mode(active, modes_by(active, nm), false));
    hub_info_doc(ap, sta, answered(questions(ap, sta), nm), hubd)
}

/// The network and the address that are told are those of this profile.
pub open spec fn tells_of(d: Doc, p: Profile, nm: spec_fn(Seq<Seq<char>>) -> Seq<char>) -> bool {
    &&& member(d, "ssid"@) == Some(optional_text(network_in(nm(ssid_args(p.name)))))
    &&& member(d, "locator"@) == Some(
        optional_text(dial(address_in(nm(address_args(p.device))))),
    )
}

proof fn lemma_first_in_mode(ps: Seq<Profile>, modes: Seq<Seq<char>>, ap: bool, i: int)
    requires
        0 <= i < ps.len(),
        says_ap(answer_at(modes, i)) == ap,
        forall|j: int| 0 <= j < i ==> says_ap(#[trigger] answer_at(modes, j)) != ap,
    ensures
        first_of(in_mode(ps, modes, ap)) == Some(ps[i]),
    decreases ps.len(),
{
    let init = ps.drop_last();
    if i < init.len() {
        lemma_first_in_mode(init, modes, ap, i);
        assert(init[i] == ps[i]);
        let before = in_mode(init, modes, ap);
        assert(in_mode(ps, modes, ap)[0] == before[0]);
    } else {
        lemma_none_in_mode(init, modes, ap);
    }
}

proof fn lemma_none_in_mode(ps: Seq<Profile>, modes: Seq<Seq<char>>, ap: bool)
    requires
        forall|j: int| 0 <= j < ps.len() ==> says_ap(#[trigger] answer_at(modes, j)) != ap,
    ensures
        in_mode(ps, modes, ap).len() == 0,
    decreases ps.len(),
{
    if ps.len() > 0 {
        assert(says_ap(answer_at(modes, ps.len() - 1)) != ap);
        lemma_none_in_mode(ps.drop_last(), modes, ap);
    }
}

proof fn lemma_keys_differ()
    ensures
        "mode"@ != "ssid"@,
        "mode"@ != "locator"@,
        "mode"@ != "uplink"@,
        "mode"@ != "hubd"@,
        "ssid"@ != "locator"@,
        "ssid"@ != "uplink"@,
        "ssid"@ != "hubd"@,
        "locator"@ != "uplink"@,
        "locator"@ != "hubd"@,
        "uplink"@ != "hubd"@,
        "ssid"@ != "connectivity"@,
{
    reveal_strlit("mode");
    reveal_strlit("ssid");
    reveal_strlit("locator");
    reveal_strlit("uplink");
    reveal_strlit("hubd");
    reveal_strlit("connectivity");
    assert("mode"@[0] == 'm' && "ssid"@[0] == 's' && "hubd"@[0] == 'h');
    assert("locator"@.len() == 7 && "uplink"@.len() == 6 && "connectivity"@.len() == 12);
}

/// Where there is an access point, it is what is told: whatever NetworkManager answers, the
/// network and the address are those of the first active profile that is an access point, never
/// those of another leg.
pub proof fn law_the_access_point_is_told(
    active: Seq<Profile>,
    nm: spec_fn(Seq<Seq<char>>) -> Seq<char>,
    hubd: Option<Seq<char>>,
    i: int,
)
    requires
        0 <= i < active.len(),
        says_ap(nm(mode_args(active[i].name))),
        forall|j: int| 0 <= j < i ==> !says_ap(nm(mode_args((#[trigger] active[j]).name))),
    ensures
        member(hub_told(active, nm, hubd), "mode"@) == Some(Doc::Text("ap"@)),
        tells_of(hub_told(active, nm, hubd), active[i], nm),
{
    let modes = modes_by(active, nm);
    lemma_keys_differ();
    assert(answer_at(modes, i) == nm(mode_args(active[i].name)));
    assert forall|j: int| 0 <= j < i implies says_ap(#[trigger] answer_at(modes, j)) != true by {
        assert(answer_at(modes, j) == nm(mode_args(active[j].name)));
    }
    lemma_first_in_mode(active, modes, true, i);
    let ap = first_of(in_mode(active, modes, true));
    let sta = first_of(in_mode(active, modes, false));
    let n = sta_questions(sta).len() as int;
    assert(questions(ap, sta)[n] == address_args(active[i].device));
    assert(questions(ap, sta)[n + 1] == ssid_args(active[i].name));
}

/// Only without an access point is another leg told: the first active profile, and where there is
/// none, nothing.
pub proof fn law_only_without_an_access_point_another_leg_is_told(
    active: Seq<Profile>,
    nm: spec_fn(Seq<Seq<char>>) -> Seq<char>,
    hubd: Option<Seq<char>>,
)
    requires
        forall|j: int| 0 <= j < active.len() ==> !says_ap(nm(mode_args((#[trigger] active[j]).name))),
    ensures
        ({
            let d = hub_told(active, nm, hubd);
            if active.len() > 0 {
                member(d, "mode"@) == Some(Doc::Text("sta"@)) && tells_of(d, active[0], nm)
            } else {
                &&& member(d, "mode"@) == Some(Doc::Text("none"@))
                &&& member(d, "ssid"@) == Some(Doc::Null)
                &&& member(d, "locator"@) == Some(Doc::Null)
            }
        }),
{
    let modes = modes_by(active, nm);
    lemma_keys_differ();
    assert forall|j: int| 0 <= j < active.len() implies says_ap(#[trigger] answer_at(modes, j))
        != true by {
        assert(answer_at(modes, j) == nm(mode_args(active[j].name)));
    }
    lemma_none_in_mode(active, modes, true);
    if active.len() > 0 {
        assert(says_ap(answer_at(modes, 0)) == false);
        lemma_first_in_mode(active, modes, false, 0);
        let sta = first_of(in_mode(active, modes, false));
        assert(questions(None, sta)[2] == address_args(active[0].device));
        assert(questions(None, sta)[3] == ssid_args(active[0].name));
    }
}

/// The uplink is told exactly if an active profile is no access point, and it is then the first
/// such profile's.
pub proof fn law_the_uplink_is_told(
    active: Seq<Profile>,
    nm: spec_fn(Seq<Seq<char>>) -> Seq<char>,
    hubd: Option<Seq<char>>,
    i: int,
)
    requires
        0 <= i <= active.len(),
        i < active.len() ==> !says_ap(nm(mode_args(active[i].name))),
        forall|j: int| 0 <= j < i ==> says_ap(nm(mode_args((#[trigger] active[j]).name))),
    ensures
        member(hub_told(active, nm, hubd), "uplink"@) == Some(
            if i < active.len() {
                Doc::Object(
                    map![
                        "ssid"@ => optional_text(network_in(nm(ssid_args(active[i].name)))),
                        "connectivity"@ => Doc::Text(trimmed(nm(connectivity_args()))),
                    ],
                )
            } else {
                Doc::Null
            },
        ),
{
    let modes = modes_by(active, nm);
    lemma_keys_differ();
    assert forall|j: int| 0 <= j < i implies says_ap(#[trigger] answer_at(modes, j)) != false by {
        assert(answer_at(modes, j) == nm(mode_args(active[j].name)));
    }
    if i < active.len() {
        assert(answer_at(modes, i) == nm(mode_args(active[i].name)));
        lemma_first_in_mode(active, modes, false, i);
        let ap = first_of(in_mode(active, modes, true));
        let sta = first_of(in_mode(active, modes, false));
        assert(questions(ap, sta)[0] == ssid_args(active[i].name));
        assert(questions(ap, sta)[1] == connectivity_args());
    } else {
        lemma_none_in_mode(active, modes, false);
    }
}

/// Reading a value in pieces gives the value: a piece, and then the rest from where it ended.
pub proof fn law_pieces_make_the_value(value: Seq<u8>, offset: int, n: int)
    requires
        0 <= offset <= value.len(),
        0 <= n <= value.len() - offset,
    ensures
        value.skip(offset).take(n) + value.skip(offset + n) == value.skip(offset),
{
    assert(value.skip(offset).take(n) + value.skip(offset + n) =~= value.skip(offset));
}

/// A signal of twice as much above the weakest is one dBm more, odd ones like the even one below;
/// what should not come, a negative signal, lies as far on the other side.
pub proof fn law_signals_are_half_a_dbm_each(k: int, signal: int)
    requires
        k >= 0,
    ensures
        dbm(0) == -100,
        dbm(2 * k) == k - 100,
        dbm(2 * k + 1) == k - 100,
        dbm(-signal) + dbm(signal) == -200,
{
}

/// A scan is answered with a frame for each network, in order, from which a client reads its name,
/// its strength in dBm and its badge, and then with one that has nothing in it.
pub proof fn law_scans_are_answered_net_by_net(nets: Seq<Seen>, i: int)
    requires
        0 <= i < nets.len(),
        result_data(seq![nets[i].ssid, signed_decimal(dbm(nets[i].signal)), nets[i].security]).len()
            <= 255,
    ensures
        scan_frames(nets).len() == nets.len() + 1,
        well_framed(scan_frames(nets)[i]),
        scan_frames(nets)[i][0] == 4,
        read_strings(frame_data(scan_frames(nets)[i])) == Some(
            seq![
                encode_utf8(nets[i].ssid),
                encode_utf8(signed_decimal(dbm(nets[i].signal))),
                encode_utf8(nets[i].security),
            ],
        ),
        scan_frames(nets)[nets.len() as int] == seq![4u8, 0u8, 4u8],
{
    let strings = seq![nets[i].ssid, signed_decimal(dbm(nets[i].signal)), nets[i].security];
    law_frames_are_well_framed(4, result_data(strings));
    law_results_read_back(strings);
    assert(strings.map_values(|s: Seq<char>| encode_utf8(s)) =~= seq![
        encode_utf8(nets[i].ssid),
        encode_utf8(signed_decimal(dbm(nets[i].signal))),
        encode_utf8(nets[i].security),
    ]);
    let none = Seq::<u8>::empty();
    assert(result_data(Seq::<Seq<char>>::empty()) =~= none);
    let body = seq![4u8, 0u8] + none;
    reveal_with_fuel(byte_sum, 3);
    assert(body =~= seq![4u8, 0u8]);
    assert(body.drop_last() =~= seq![4u8]);
    assert(seq![4u8].drop_last() =~= none);
    assert(byte_sum(body) == 4);
    assert(frame(4, none) =~= seq![4u8, 0u8, 4u8]);
}

/// The name is advertised whole: behind a byte that counts what follows it, and one that says that
/// it is the whole name.
pub proof fn law_the_whole_name_is_advertised(name: Seq<char>)
    requires
        encode_utf8(name).len() < 255,
    ensures
        scan_response(name)[0] == scan_response(name).len() - 1,
        scan_response(name)[1] == 9,
        scan_response(name).skip(2) == encode_utf8(name),
{
    assert(scan_response(name).skip(2) =~= encode_utf8(name));
}

/// A network's name is what the answer holds, without the white space around it; an answer with
/// nothing in it names none.
pub proof fn law_networks_are_named(pad: Seq<char>, name: Seq<char>, end: Seq<char>)
    requires
        blank(pad),
        snug(name),
        blank(end),
    ensures
        network_in(pad + name + end) == if name.len() > 0 {
            Some(name)
        } else {
            None
        },
{
    law_trimming_leaves_the_middle(pad, name, end);
}

/// The serial number is the last word of the first line that begins with its word; lines before
/// that do not matter, nor do those behind it.
pub proof fn law_serial_numbers_are_found(
    other: Seq<char>,
    gap: Seq<char>,
    number: Seq<char>,
    end: Seq<char>,
    rest: Seq<Seq<char>>,
)
    requires
        !"Serial"@.is_prefix_of(other),
        gap.len() > 0,
        blank(gap),
        number.len() > 0,
        forall|i: int| 0 <= i < number.len() ==> !is_space(#[trigger] number[i]),
        blank(end),
    ensures
        serial_in(seq![other] + rest) == serial_in(rest),
        serial_in(seq!["Serial"@ + (gap + number + end)] + rest) == number,
        serial_in(seq!["Serial"@ + (gap + seq![':'] + (gap + number + end))] + rest) == number,
        serial_in(Seq::empty()).len() == 0,
{
    reveal_strlit("Serial");
    let none = Seq::<char>::empty();
    let all = seq![other] + rest;
    assert(all[0] == other);
    assert(all.skip(1) =~= rest);
    let tail = gap + number + end;
    assert(is_space(gap[0]));
    if end.len() > 0 {
        assert(is_space(end[0]));
    }
    law_white_space_parts_words(gap, number, end);
    law_white_space_parts_words(end, number, none);
    let l1 = "Serial"@ + tail;
    assert(tail[0] == gap[0]);
    assert(none + "Serial"@ + tail =~= l1);
    law_white_space_parts_words(none, "Serial"@, tail);
    assert(l1.subrange(0, 6) =~= "Serial"@);
    assert(word_seq(l1) =~= seq!["Serial"@, number]);
    let a1 = seq![l1] + rest;
    assert(a1[0] == l1);
    let colon = gap + seq![':'] + tail;
    law_white_space_parts_words(gap, seq![':'], tail);
    let l2 = "Serial"@ + colon;
    assert(colon[0] == gap[0]);
    assert(none + "Serial"@ + colon =~= l2);
    law_white_space_parts_words(none, "Serial"@, colon);
    assert(l2.subrange(0, 6) =~= "Serial"@);
    assert(word_seq(l2) =~= seq!["Serial"@, seq![':'], number]);
    let a2 = seq![l2] + rest;
    assert(a2[0] == l2);
}

/// A hub without an access point is named by the last four characters of its serial number, in
/// capitals; one whose access point has a name goes by that.
pub proof fn law_hubs_are_named(
    front: Seq<char>,
    four: Seq<char>,
    networks: Seq<Seq<char>>,
    cpuinfo: Option<Seq<char>>,
)
    requires
        four.len() == 4,
        is_ascii_chars(four),
    ensures
        serial_name(front + four) == "hub-"@ + uppered(four),
        serial_name(Seq::empty()) == "hub-0000"@,
        first_said(networks) is Some ==> name_of_hub(networks, cpuinfo) == first_said(networks)->0,
        first_said(networks) is None && cpuinfo is None ==> name_of_hub(networks, cpuinfo)
            == "hub-0000"@,
{
    reveal_strlit("hub-");
    reveal_strlit("0000");
    reveal_strlit("hub-0000");
    let s = front + four;
    if front.len() > 0 {
        assert(s.skip(s.len() - 4) =~= four);
    } else {
        assert(s =~= four);
    }
    assert("hub-"@ + "0000"@ =~= "hub-0000"@);
}

/// The address is what stands before the slash in the first line; where to dial names it with the
/// port, and is nothing where it is not known.
pub proof fn law_addresses_are_dialled(ip: Seq<char>, length: Seq<char>, more: Seq<char>)
    requires
        !ip.contains('/'),
        !ip.contains('\n'),
        !length.contains('\n'),
    ensures
        address_in(ip + seq!['/'] + length + "\r\n"@ + more) == ip,
        ip.len() > 0 ==> address_in(ip) == ip,
        address_in(Seq::empty()).len() == 0,
        ip.len() > 0 ==> dial(ip) == Some("tcp/"@ + ip + ":7447"@),
        dial(Seq::empty()) is None,
{
    let line = ip + seq!['/'] + length;
    assert forall|i: int| 0 <= i < line.len() implies line[i] != '\n' by {
        if i < ip.len() {
            assert(ip.contains(ip[i]));
        } else if i > ip.len() {
            assert(length.contains(length[i - ip.len() - 1]));
        }
    }
    law_line_feeds_end_lines(line, more);
    law_line_feeds_end_lines(ip, more);
    law_separators_cut(ip, '/', length);
}

/// What the hub is asked to do is what it does: for each request its own work, and for a packet
/// that was rejected the error for that.
pub proof fn law_requests_set_off_their_work(r: Request, e: ParseError, w: Work)
    ensures
        work_for(Ok(Request::Scan), w) <==> w is Scan,
        work_for(Ok(Request::DeviceInfo), w) <==> w is Describe,
        work_for(Ok(Request::Identify), w) <==> w is Acknowledge,
        work_for(Ok(r), w) && r is SendWifi ==> w is Join && w->Join_ssid@ == r->ssid
            && w->Join_password@ == r->password,
        work_for(Err(ParseError::Invalid), w) ==> w == Work::Fail(ErrorState::InvalidRpcPacket),
        work_for(Err(ParseError::UnknownCommand), w) ==> w == Work::Fail(
            ErrorState::UnknownRpcCommand,
        ),
{
}

/// A join that worked leaves the hub provisioned, with an empty result and no error; one that did
/// not shows that error, sends no result, and leaves the hub ready for other credentials.
pub proof fn law_joins_end_in_their_state(success: bool, r: Joined)
    requires
        call_ensures(do_join, (success,), r),
    ensures
        success <==> r.error is None,
        success <==> r.state == State::Provisioned,
        success <==> r.result is Some,
        success ==> r.result->0@ == seq![1u8, 0u8, 1u8],
        !success ==> r.error == Some(ErrorState::UnableToConnect) && r.state == State::Authorized,
{
    let none = Seq::<u8>::empty();
    assert(result_data(Seq::<Seq<char>>::empty()) =~= none);
    let body = seq![1u8, 0u8] + none;
    reveal_with_fuel(byte_sum, 3);
    assert(body =~= seq![1u8, 0u8]);
    assert(body.drop_last() =~= seq![1u8]);
    assert(seq![1u8].drop_last() =~= none);
    assert(byte_sum(body) == 1);
    assert(frame(1, none) =~= seq![1u8, 0u8, 1u8]);
}

/// What the hub tells of itself has each fact under its own name, and what is not there as null.
pub proof fn law_the_hub_tells_how_its_service_is(
    ap: Option<Profile>,
    sta: Option<Profile>,
    answers: Seq<Seq<char>>,
    pad: Seq<char>,
    state: Seq<char>,
    end: Seq<char>,
)
    requires
        blank(pad),
        snug(state),
        blank(end),
    ensures
        member(hub_info_doc(ap, sta, answers, Some(pad + state + end)), "hubd"@) == Some(
            Doc::Text(state),
        ),
        member(hub_info_doc(ap, sta, answers, None), "hubd"@) == Some(Doc::Text("unknown"@)),
        sta is None ==> member(hub_info_doc(ap, sta, answers, None), "uplink"@) == Some(Doc::Null),
        ap is None && sta is None ==> member(hub_info_doc(ap, sta, answers, None), "locator"@)
            == Some(Doc::Null) && member(hub_info_doc(ap, sta, answers, None), "ssid"@) == Some(
            Doc::Null,
        ),
{
    lemma_keys_differ();
    law_trimming_leaves_the_middle(pad, state, end);
}

/// The questions about the legs: the address of a device, and whether the internet can be reached,
/// asked afresh.
pub proof fn law_questions_ask_for_what_is_told(device: Seq<char>)
    ensures
        address_args(device) == seq!["-g"@, "IP4.ADDRESS"@, "device"@, "show"@, device],
        connectivity_args() == seq!["networking"@, "connectivity"@, "check"@],
{
}

/// The advertisement names the service and carries the scan response, digit for digit.
pub proof fn law_advertisements_carry_service_and_name(name: Seq<char>)
    ensures
        advert_args(name) == seq![
            "add-adv"@,
            "-c"@,
            "-g"@,
            "-u"@,
            "00467768-6228-2272-4663-277478268000"@,
            "-s"@,
            hex_bytes(scan_response(name)),
            "1"@,
        ],
{
}

/// Whatever is written, the error that was shown before is cleared, and what is done is what the
/// packet asks for.
pub proof fn law_commands_are_handled(packet: Seq<u8>, value: &[u8], r: (ErrorState, Work))
    requires
        call_ensures(handle_command, (value,), r),
        value@ == packet,
    ensures
        r.0 == ErrorState::NoError,
        work_for(decoded(packet), r.1),
{
}

} // verus!
