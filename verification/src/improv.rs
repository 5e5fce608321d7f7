//! Improv Wi-Fi over BLE: the wire layer of the open provisioning standard.
//!
//! Byte values, framing and checksum of the device side. A client writes RPC Command packets,
//! the device answers with RPC Result frames; nothing here talks to a radio.
use vstd::prelude::*;
use vstd::utf8::{decode_utf8, encode_utf8, valid_utf8};

use crate::bytes::{extend, utf8_bytes};
use crate::number::{signed_decimal, signed_text};
use crate::text::{chars, control, is_control};

pub mod cmd;

verus! {

// ---- GATT UUIDs (service and five characteristics) ----

pub const SERVICE_UUID: &'static str = "00467768-6228-2272-4663-277478268000";

pub const CHAR_CURRENT_STATE: &'static str = "00467768-6228-2272-4663-277478268001";

pub const CHAR_ERROR_STATE: &'static str = "00467768-6228-2272-4663-277478268002";

pub const CHAR_RPC_COMMAND: &'static str = "00467768-6228-2272-4663-277478268003";

pub const CHAR_RPC_RESULT: &'static str = "00467768-6228-2272-4663-277478268004";

pub const CHAR_CAPABILITIES: &'static str = "00467768-6228-2272-4663-277478268005";

/// Capability bit 0: identify.
pub const CAP_IDENTIFY: u8 = 0x01;

/// Capability bit 2: Wi-Fi scan. The one that the hub advertises.
pub const CAP_SCAN_WIFI: u8 = 0x04;

// ---- States ----

/// Provisioning state machine (Current State characteristic, notify).
#[derive(Clone, Copy, Debug, PartialEq, Eq, Structural)]
pub enum State {
    /// Physical authorization is needed before credentials are accepted. The hub has no button
    /// and starts at `Authorized`.
    AuthorizationRequired,
    Authorized,
    Provisioning,
    Provisioned,
}

impl State {
    pub open spec fn spec_byte(self) -> u8 {
        match self {
            State::AuthorizationRequired => 0x01,
            State::Authorized => 0x02,
            State::Provisioning => 0x03,
            State::Provisioned => 0x04,
        }
    }

    /// The value on the wire.
    pub fn byte(self) -> (b: u8)
        ensures
            b == self.spec_byte(),
    {
        match self {
            State::AuthorizationRequired => 0x01,
            State::Authorized => 0x02,
            State::Provisioning => 0x03,
            State::Provisioned => 0x04,
        }
    }
}

/// Error State characteristic (notify). Cleared to `NoError` on each new command.
#[derive(Clone, Copy, Debug, PartialEq, Eq, Structural)]
pub enum ErrorState {
    NoError,
    InvalidRpcPacket,
    UnknownRpcCommand,
    UnableToConnect,
    NotAuthorized,
    BadHostname,
    Unknown,
}

impl ErrorState {
    pub open spec fn spec_byte(self) -> u8 {
        match self {
            ErrorState::NoError => 0x00,
            ErrorState::InvalidRpcPacket => 0x01,
            ErrorState::UnknownRpcCommand => 0x02,
            ErrorState::UnableToConnect => 0x03,
            ErrorState::NotAuthorized => 0x04,
            ErrorState::BadHostname => 0x05,
            ErrorState::Unknown => 0xFF,
        }
    }

    /// The value on the wire.
    pub fn byte(self) -> (b: u8)
        ensures
            b == self.spec_byte(),
    {
        match self {
            ErrorState::NoError => 0x00,
            ErrorState::InvalidRpcPacket => 0x01,
            ErrorState::UnknownRpcCommand => 0x02,
            ErrorState::UnableToConnect => 0x03,
            ErrorState::NotAuthorized => 0x04,
            ErrorState::BadHostname => 0x05,
            ErrorState::Unknown => 0xFF,
        }
    }
}

// ---- Commands ----

/// A parsed, checksum-validated RPC command from the client.
#[derive(Debug, PartialEq, Eq)]
pub enum Command {
    /// Join this network. An empty password is an open network.
    SendWifi { ssid: String, password: String },
    Scan,
    DeviceInfo,
    Identify,
}

/// What a command asks for.
pub enum Request {
    SendWifi { ssid: Seq<char>, password: Seq<char> },
    Scan,
    DeviceInfo,
    Identify,
}

impl View for Command {
    type V = Request;

    open spec fn view(&self) -> Request {
        match self {
            Command::SendWifi { ssid, password } => Request::SendWifi {
                ssid: ssid@,
                password: password@,
            },
            Command::Scan => Request::Scan,
            Command::DeviceInfo => Request::DeviceInfo,
            Command::Identify => Request::Identify,
        }
    }
}

/// Why a raw RPC packet was rejected. Each maps to one `ErrorState`.
#[derive(Debug, PartialEq, Eq)]
pub enum ParseError {
    /// Malformed framing: short packet, length mismatch, bad checksum, or credentials that do
    /// not hold.
    Invalid,
    /// Well framed, but an id that the hub does not implement.
    UnknownCommand,
}

impl ParseError {
    pub open spec fn spec_error_state(self) -> ErrorState {
        match self {
            ParseError::Invalid => ErrorState::InvalidRpcPacket,
            ParseError::UnknownCommand => ErrorState::UnknownRpcCommand,
        }
    }

    pub fn error_state(&self) -> (r: ErrorState)
        ensures
            r == self.spec_error_state(),
    {
        match self {
            ParseError::Invalid => ErrorState::InvalidRpcPacket,
            ParseError::UnknownCommand => ErrorState::UnknownRpcCommand,
        }
    }
}

/// The sum of all bytes.
pub open spec fn byte_sum(bytes: Seq<u8>) -> int
    decreases bytes.len(),
{
    if bytes.len() == 0 {
        0
    } else {
        byte_sum(bytes.drop_last()) + bytes.last()
    }
}

/// The low byte of the sum of all bytes.
pub open spec fn sum_byte(bytes: Seq<u8>) -> u8 {
    (byte_sum(bytes) % 256) as u8
}

/// The Improv checksum: the sum of all bytes, low byte only.
pub fn checksum(bytes: &[u8]) -> (r: u8)
    ensures
        r == sum_byte(bytes@),
{
    let mut acc: u8 = 0;
    let mut i: usize = 0;
    assert(bytes@.take(0) =~= Seq::<u8>::empty());
    while i < bytes.len()
        invariant
            i <= bytes@.len(),
            acc == byte_sum(bytes@.take(i as int)) % 256,
        decreases bytes@.len() - i,
    {
        let ghost t = bytes@.take(i + 1);
        assert(t.drop_last() =~= bytes@.take(i as int));
        acc = acc.wrapping_add(bytes[i]);
        i += 1;
    }
    assert(bytes@.take(bytes@.len() as int) =~= bytes@);
    acc
}

/// Is `[cmd][len][data..len][checksum]` well framed: is the length as declared and the checksum
/// right?
pub open spec fn well_framed(packet: Seq<u8>) -> bool {
    &&& packet.len() >= 3
    &&& packet.len() == packet[1] + 3
    &&& packet.last() == sum_byte(packet.drop_last())
}

/// The data bytes of a framed packet.
pub open spec fn frame_data(packet: Seq<u8>) -> Seq<u8> {
    packet.subrange(2, packet.len() - 1)
}

pub open spec fn no_control(s: Seq<char>) -> bool {
    forall|i: int| 0 <= i < s.len() ==> !is_control(#[trigger] s[i])
}

/// A network name that may be joined: 1 to 32 bytes, no leading `-`, no control character.
pub open spec fn valid_ssid(ssid: Seq<char>) -> bool {
    &&& 1 <= encode_utf8(ssid).len() <= 32
    &&& ssid[0] != '-'
    &&& no_control(ssid)
}

/// A password that may be sent: at most 64 bytes, no control character.
pub open spec fn valid_password(password: Seq<char>) -> bool {
    &&& encode_utf8(password).len() <= 64
    &&& no_control(password)
}

/// The credentials in `[ssid_len][ssid..][pass_len][pass..]`, if they hold. Bytes after the
/// password are ignored.
pub open spec fn credentials(data: Seq<u8>) -> Option<(Seq<char>, Seq<char>)> {
    let n = data[0] as int;
    let m = data[n + 1] as int;
    if data.len() > 0 && data.len() > n + 1 && data.len() >= n + 2 + m {
        let ssid = data.subrange(1, n + 1);
        let password = data.subrange(n + 2, n + 2 + m);
        if valid_utf8(ssid) && valid_utf8(password) && valid_ssid(decode_utf8(ssid))
            && valid_password(decode_utf8(password)) {
            Some((decode_utf8(ssid), decode_utf8(password)))
        } else {
            None
        }
    } else {
        None
    }
}

/// The request in a packet, or why it is rejected.
pub open spec fn decoded(packet: Seq<u8>) -> Result<Request, ParseError> {
    if !well_framed(packet) {
        Err(ParseError::Invalid)
    } else if packet[0] == cmd::SEND_WIFI {
        match credentials(frame_data(packet)) {
            Some(c) => Ok(Request::SendWifi { ssid: c.0, password: c.1 }),
            None => Err(ParseError::Invalid),
        }
    } else if packet[0] == cmd::SCAN_WIFI {
        Ok(Request::Scan)
    } else if packet[0] == cmd::DEVICE_INFO {
        Ok(Request::DeviceInfo)
    } else if packet[0] == cmd::IDENTIFY {
        Ok(Request::Identify)
    } else {
        Err(ParseError::UnknownCommand)
    }
}

/// Parses one RPC Command packet. The declared length and the checksum are validated before any
/// field is trusted.
pub fn parse_command(packet: &[u8]) -> (r: Result<Command, ParseError>)
    ensures
        match r {
            Ok(c) => decoded(packet@) == Ok::<Request, ParseError>(c@),
            Err(e) => decoded(packet@) == Err::<Request, ParseError>(e),
        },
{
    let len: usize = packet.len();
    if len < 3 {
        return Err(ParseError::Invalid);
    }
    let command = packet[0];
    let data_len: usize = packet[1] as usize;
    if len != data_len + 3 {
        return Err(ParseError::Invalid);
    }
    let body = vstd::slice::slice_subrange(packet, 0, len - 1);
    assert(body@ =~= packet@.drop_last());
    if checksum(body) != packet[len - 1] {
        return Err(ParseError::Invalid);
    }
    let data = vstd::slice::slice_subrange(packet, 2, len - 1);
    if command == cmd::SEND_WIFI {
        match parse_wifi(data) {
            Some(c) => Ok(c),
            None => Err(ParseError::Invalid),
        }
    } else if command == cmd::SCAN_WIFI {
        Ok(Command::Scan)
    } else if command == cmd::DEVICE_INFO {
        Ok(Command::DeviceInfo)
    } else if command == cmd::IDENTIFY {
        Ok(Command::Identify)
    } else {
        Err(ParseError::UnknownCommand)
    }
}

fn has_control(v: &Vec<char>) -> (r: bool)
    ensures
        r == !no_control(v@),
{
    let mut i: usize = 0;
    while i < v.len()
        invariant
            i <= v@.len(),
            forall|j: int| 0 <= j < i ==> !is_control(#[trigger] v@[j]),
        decreases v@.len() - i,
    {
        if control(v[i]) {
            return true;
        }
        i += 1;
    }
    false
}

/// Parses Wi-Fi credentials and validates them at the protocol boundary: a name such as `-x`
/// could be read as a flag further on, and control characters are never valid.
fn parse_wifi(data: &[u8]) -> (r: Option<Command>)
    ensures
        match r {
            Some(c) => credentials(data@) matches Some(p) && c@ == (Request::SendWifi {
                ssid: p.0,
                password: p.1,
            }),
            None => credentials(data@) is None,
        },
{
    broadcast use vstd::utf8::decode_utf8_encode_utf8;

    let len: usize = data.len();
    if len == 0 {
        return None;
    }
    let ssid_len: usize = data[0] as usize;
    if len <= ssid_len + 1 {
        return None;
    }
    let pass_len: usize = data[ssid_len + 1] as usize;
    if len < ssid_len + 2 + pass_len {
        return None;
    }
    let ssid_bytes = vstd::slice::slice_subrange(data, 1, ssid_len + 1);
    let pass_bytes = vstd::slice::slice_subrange(data, ssid_len + 2, ssid_len + 2 + pass_len);
    let ssid = match String::from_utf8(vstd::slice::slice_to_vec(ssid_bytes)) {
        Ok(s) => s,
        Err(_) => {
            return None;
        },
    };
    let password = match String::from_utf8(vstd::slice::slice_to_vec(pass_bytes)) {
        Ok(s) => s,
        Err(_) => {
            return None;
        },
    };
    if ssid_len == 0 || ssid_len > 32 {
        return None;
    }
    let name = chars(ssid.as_str());
    proof {
        if name@.len() == 0 {
            assert(encode_utf8(name@) =~= Seq::<u8>::empty());
        }
    }
    if name[0] == '-' || has_control(&name) {
        return None;
    }
    if pass_len > 64 || has_control(&chars(password.as_str())) {
        return None;
    }
    Some(Command::SendWifi { ssid, password })
}

// ---- Results ----

/// A string as it stands in a result: its length byte (low byte of the length), then its bytes.
pub open spec fn prefixed(s: Seq<char>) -> Seq<u8> {
    seq![(encode_utf8(s).len() % 256) as u8] + encode_utf8(s)
}

/// The strings of a result, one after the other.
pub open spec fn result_data(strings: Seq<Seq<char>>) -> Seq<u8>
    decreases strings.len(),
{
    if strings.len() == 0 {
        Seq::empty()
    } else {
        result_data(strings.drop_last()) + prefixed(strings.last())
    }
}

/// `[cmd][len][data][checksum]`, with the low byte of the length.
pub open spec fn frame(command: u8, data: Seq<u8>) -> Seq<u8> {
    let body = seq![command, (data.len() % 256) as u8] + data;
    body.push(sum_byte(body))
}

/// Encodes an RPC Result. The total length covers each string's length byte and its bytes; a
/// length above 255 is written as its low byte.
pub fn encode_result(command: u8, strings: &[String]) -> (r: Vec<u8>)
    ensures
        r@ == frame(command, result_data(strings.deep_view())),
{
    let mut body: Vec<u8> = Vec::new();
    body.push(command);
    body.push(0);
    let ghost all = strings.deep_view();
    let mut i: usize = 0;
    assert(all.take(0) =~= Seq::<Seq<char>>::empty());
    assert(body@ =~= seq![command, 0u8] + result_data(all.take(0)));
    while i < strings.len()
        invariant
            all == strings.deep_view(),
            i <= strings@.len(),
            body@ == seq![command, 0u8] + result_data(all.take(i as int)),
        decreases strings@.len() - i,
    {
        let bytes = utf8_bytes(strings[i].as_str());
        let ghost before = body@;
        body.push((bytes.len() % 256) as u8);
        extend(&mut body, bytes.as_slice());
        let ghost t = all.take(i + 1);
        assert(t.drop_last() =~= all.take(i as int));
        assert(body@ =~= before + prefixed(all[i as int]));
        assert(body@ =~= seq![command, 0u8] + result_data(t));
        i += 1;
    }
    assert(all.take(strings@.len() as int) =~= all);
    let ghost data = result_data(all);
    let total: u8 = ((body.len() - 2) % 256) as u8;
    body.set(1, total);
    assert(body@ =~= seq![command, (data.len() % 256) as u8] + data);
    let sum = checksum(body.as_slice());
    body.push(sum);
    body
}

/// A scan result: the strings `[ssid, rssi, auth]`. A result without strings ends the scan.
pub fn scan_triplet(ssid: &str, rssi_dbm: i32, auth: &str) -> (r: [String; 3])
    ensures
        r@[0]@ == ssid@,
        r@[1]@ == signed_decimal(rssi_dbm as int),
        r@[2]@ == auth@,
{
    [ssid.to_owned(), signed_text(rssi_dbm), auth.to_owned()]
}

// ---- Laws ----

/// Credentials that a packet hands on are valid: the name is 1 to 32 bytes, starts with no `-`,
/// and neither name nor password holds a control character.
pub proof fn law_handed_on_credentials_are_valid(packet: Seq<u8>, ssid: Seq<char>, password: Seq<char>)
    requires
        decoded(packet) == Ok::<Request, ParseError>(Request::SendWifi { ssid, password }),
    ensures
        valid_ssid(ssid),
        valid_password(password),
{
}

/// A client that frames valid credentials is understood.
pub proof fn law_valid_credentials_are_understood(ssid: Seq<char>, password: Seq<char>)
    requires
        valid_ssid(ssid),
        valid_password(password),
    ensures
        decoded(frame(cmd::SEND_WIFI, prefixed(ssid) + prefixed(password))) == Ok::<
            Request,
            ParseError,
        >(Request::SendWifi { ssid, password }),
{
    broadcast use {vstd::utf8::encode_utf8_valid_utf8, vstd::utf8::encode_utf8_decode_utf8};

    let data = prefixed(ssid) + prefixed(password);
    let packet = frame(cmd::SEND_WIFI, data);
    let n = encode_utf8(ssid).len() as int;
    let m = encode_utf8(password).len() as int;
    law_frames_are_well_framed(cmd::SEND_WIFI, data);
    assert(data[0] == n);
    assert(data[n + 1] == m);
    assert(data.subrange(1, n + 1) =~= encode_utf8(ssid));
    assert(data.subrange(n + 2, n + 2 + m) =~= encode_utf8(password));
}

/// A frame over at most 255 data bytes is well framed and holds that data.
pub proof fn law_frames_are_well_framed(command: u8, data: Seq<u8>)
    requires
        data.len() <= 255,
    ensures
        well_framed(frame(command, data)),
        frame(command, data)[0] == command,
        frame_data(frame(command, data)) == data,
{
    let packet = frame(command, data);
    let body = seq![command, (data.len() % 256) as u8] + data;
    assert(packet.drop_last() =~= body);
    assert(frame_data(packet) =~= data);
}

proof fn lemma_byte_sum_update(s: Seq<u8>, i: int, b: u8)
    requires
        0 <= i < s.len(),
    ensures
        byte_sum(s.update(i, b)) == byte_sum(s) - s[i] + b,
    decreases s.len(),
{
    let t = s.update(i, b);
    if i == s.len() - 1 {
        assert(t.drop_last() =~= s.drop_last());
    } else {
        assert(t.drop_last() =~= s.drop_last().update(i, b));
        lemma_byte_sum_update(s.drop_last(), i, b);
    }
}

/// A packet in which exactly one byte was changed on the way is rejected as invalid.
pub proof fn law_one_wrong_byte_is_rejected(packet: Seq<u8>, i: int, b: u8)
    requires
        well_framed(packet),
        0 <= i < packet.len(),
        b != packet[i],
    ensures
        decoded(packet.update(i, b)) == Err::<Request, ParseError>(ParseError::Invalid),
{
    let q = packet.update(i, b);
    let last = packet.len() - 1;
    if i == last {
        assert(q.drop_last() =~= packet.drop_last());
    } else if i != 1 {
        assert(q.drop_last() =~= packet.drop_last().update(i, b));
        lemma_byte_sum_update(packet.drop_last(), i, b);
        let x = byte_sum(packet.drop_last());
        let y = byte_sum(q.drop_last());
        assert(x % 256 != y % 256) by {
            assert(y - x == b - packet[i]);
        }
    }
}

/// The byte strings in a run of length-prefixed strings, as a client reads them.
pub open spec fn read_strings(data: Seq<u8>) -> Option<Seq<Seq<u8>>>
    decreases data.len(),
{
    if data.len() == 0 {
        Some(Seq::empty())
    } else if data.len() < data[0] + 1 {
        None
    } else {
        match read_strings(data.skip(data[0] + 1)) {
            Some(rest) => Some(seq![data.subrange(1, data[0] + 1)] + rest),
            None => None,
        }
    }
}

proof fn lemma_result_data_first(strings: Seq<Seq<char>>)
    requires
        strings.len() > 0,
    ensures
        result_data(strings) == prefixed(strings[0]) + result_data(strings.skip(1)),
    decreases strings.len(),
{
    let rest = strings.skip(1);
    if strings.len() == 1 {
        assert(strings.drop_last() =~= Seq::<Seq<char>>::empty());
        assert(rest =~= Seq::<Seq<char>>::empty());
        assert(result_data(strings.drop_last()) =~= Seq::<u8>::empty());
        assert(result_data(strings) =~= prefixed(strings[0]) + result_data(rest));
    } else {
        lemma_result_data_first(strings.drop_last());
        assert(strings.drop_last().skip(1) =~= rest.drop_last());
        assert(result_data(strings) =~= prefixed(strings[0]) + result_data(rest));
    }
}

/// A client reads from a result exactly the strings that were put in, as long as they fit the
/// one-byte total length.
pub proof fn law_results_read_back(strings: Seq<Seq<char>>)
    requires
        result_data(strings).len() <= 255,
    ensures
        read_strings(result_data(strings)) == Some(strings.map_values(|s: Seq<char>| encode_utf8(s))),
    decreases strings.len(),
{
    let wanted = strings.map_values(|s: Seq<char>| encode_utf8(s));
    let data = result_data(strings);
    if strings.len() == 0 {
        assert(wanted =~= Seq::<Seq<u8>>::empty());
    } else {
        lemma_result_data_first(strings);
        let n = encode_utf8(strings[0]).len() as int;
        let rest = strings.skip(1);
        assert(prefixed(strings[0]).len() == n + 1);
        assert(data[0] == n);
        assert(data.subrange(1, n + 1) =~= encode_utf8(strings[0]));
        assert(data.skip(n + 1) =~= result_data(rest));
        law_results_read_back(rest);
        assert(wanted =~= seq![encode_utf8(strings[0])] + rest.map_values(
            |s: Seq<char>| encode_utf8(s),
        ));
    }
}

/// The values on the wire are those of the standard.
pub proof fn law_states_have_their_bytes(s: State, e: ErrorState)
    ensures
        State::AuthorizationRequired.spec_byte() == 1,
        State::Authorized.spec_byte() == 2,
        State::Provisioning.spec_byte() == 3,
        State::Provisioned.spec_byte() == 4,
        ErrorState::NoError.spec_byte() == 0,
        ErrorState::InvalidRpcPacket.spec_byte() == 1,
        ErrorState::UnknownRpcCommand.spec_byte() == 2,
        ErrorState::UnableToConnect.spec_byte() == 3,
        ErrorState::NotAuthorized.spec_byte() == 4,
        ErrorState::BadHostname.spec_byte() == 5,
        ErrorState::Unknown.spec_byte() == 255,
        ParseError::Invalid.spec_error_state() == ErrorState::InvalidRpcPacket,
        ParseError::UnknownCommand.spec_error_state() == ErrorState::UnknownRpcCommand,
{
}

/// The checksum is the sum of the bytes, a byte at a time: only what it leaves after 256 counts.
pub proof fn law_checksums_add_up(a: Seq<u8>, b: u8)
    ensures
        sum_byte(Seq::empty()) == 0,
        sum_byte(a.push(b)) == (sum_byte(a) + b) % 256,
{
    assert(a.push(b).drop_last() =~= a);
}

/// A well-framed packet asks for what its first byte says, whatever data it carries where the
/// request has none: 4 for a scan, 3 for what the device is, 2 to identify itself. A byte that is
/// none of the four commands is an unknown one; whatever is not well framed is invalid.
pub proof fn law_commands_are_told_by_their_byte(packet: Seq<u8>)
    ensures
        !well_framed(packet) ==> decoded(packet) == Err::<Request, ParseError>(ParseError::Invalid),
        well_framed(packet) ==> {
            &&& packet[0] == 4 ==> decoded(packet) == Ok::<Request, ParseError>(Request::Scan)
            &&& packet[0] == 3 ==> decoded(packet) == Ok::<Request, ParseError>(Request::DeviceInfo)
            &&& packet[0] == 2 ==> decoded(packet) == Ok::<Request, ParseError>(Request::Identify)
            &&& packet[0] == 0 || packet[0] > 4 ==> decoded(packet) == Err::<Request, ParseError>(
                ParseError::UnknownCommand,
            )
            &&& packet[0] == 1 ==> decoded(packet) == Err::<Request, ParseError>(
                ParseError::Invalid,
            ) || decoded(packet) matches Ok(Request::SendWifi { .. })
        },
        well_framed(packet) <==> packet.len() >= 3 && packet.len() == packet[1] as int + 3
            && packet[packet.len() - 1] == byte_sum(packet.take(packet.len() - 1)) % 256,
{
    if packet.len() >= 3 {
        assert(packet.drop_last() =~= packet.take(packet.len() - 1));
    }
}

/// Credentials are taken exactly if the name has 1 to 32 bytes and does not begin like a flag, the
/// password has at most 64 bytes, and neither holds a control character: of the characters below
/// 32, and from 127 to 159.
pub proof fn law_which_credentials_are_taken(ssid: Seq<char>, password: Seq<char>)
    requires
        encode_utf8(ssid).len() + encode_utf8(password).len() <= 253,
        ssid.len() > 0,
    ensures
        decoded(frame(1, prefixed(ssid) + prefixed(password))) == (if encode_utf8(ssid).len() <= 32
            && encode_utf8(password).len() <= 64 && ssid[0] != '-' && (forall|i: int|
            0 <= i < ssid.len() ==> 32 <= (#[trigger] ssid[i]) as int && !(127 <= ssid[i] as int
                <= 159)) && (forall|i: int|
            0 <= i < password.len() ==> 32 <= (#[trigger] password[i]) as int && !(127
                <= password[i] as int <= 159)) {
            Ok::<Request, ParseError>(Request::SendWifi { ssid, password })
        } else {
            Err::<Request, ParseError>(ParseError::Invalid)
        }),
{
    broadcast use {vstd::utf8::encode_utf8_valid_utf8, vstd::utf8::encode_utf8_decode_utf8};

    let data = prefixed(ssid) + prefixed(password);
    let packet = frame(1, data);
    let n = encode_utf8(ssid).len() as int;
    let m = encode_utf8(password).len() as int;
    law_frames_are_well_framed(1, data);
    assert(data[0] == n);
    assert(data[n + 1] == m);
    assert(data.subrange(1, n + 1) =~= encode_utf8(ssid));
    assert(data.subrange(n + 2, n + 2 + m) =~= encode_utf8(password));
    if n == 0 {
        assert(encode_utf8(ssid) =~= Seq::<u8>::empty());
        vstd::utf8::encode_utf8_decode_utf8(ssid);
        assert(vstd::utf8::decode_utf8(Seq::<u8>::empty()) =~= Seq::<char>::empty());
    }
    assert forall|c: char| #[trigger] is_control(c) == !(32 <= c as int && !(127 <= c as int
        <= 159)) by {}
    if no_control(ssid) {
        assert forall|i: int| 0 <= i < ssid.len() implies 32 <= (#[trigger] ssid[i]) as int && !(127
            <= ssid[i] as int <= 159) by {
            assert(!is_control(ssid[i]));
        }
    }
    if no_control(password) {
        assert forall|i: int| 0 <= i < password.len() implies 32 <= (#[trigger] password[i]) as int
            && !(127 <= password[i] as int <= 159) by {
            assert(!is_control(password[i]));
        }
    }
}

/// Credentials that do not fill the data they claim are refused.
pub proof fn law_short_credentials_are_refused(data: Seq<u8>)
    ensures
        data.len() == 0 ==> credentials(data) is None,
        data.len() > 0 && data.len() < data[0] + 2 ==> credentials(data) is None,
        data.len() > 0 && data.len() >= data[0] + 2 && data.len() < data[0] + 2 + data[data[0] + 1]
            ==> credentials(data) is None,
        data.len() > 0 && data[0] == 0 ==> credentials(data) is None,
{
    broadcast use vstd::utf8::decode_utf8_encode_utf8;

    if data.len() > 1 && data[0] == 0 {
        let none = data.subrange(1, 1);
        assert(none =~= Seq::<u8>::empty());
        if valid_utf8(none) {
            assert(encode_utf8(decode_utf8(none)) == none);
        }
    }
}

/// The capabilities are told by their bits.
pub proof fn law_capabilities_have_their_bits()
    ensures
        CAP_IDENTIFY == 1,
        CAP_SCAN_WIFI == 4,
{
}

} // verus!
