//! Wi-Fi setup over NetworkManager: what `nmcli` prints, what it is told, and what is made of it.
//!
//! The caller runs the commands that the functions here hand out, and hands back what they print.
use vstd::prelude::*;
use vstd::string::*;
use vstd::utf8::{encode_utf8, is_ascii_chars};

use crate::bytes::{output_text, text_in, utf8_bytes};
use crate::captive::opt_text;
use crate::json::{err, error_body, json_reply, ok, parsed, text_field, Body, Reply};
use crate::number::{i32_or_zero, law_signed_reads_back, parse_i32_or_zero, signed_decimal};
use crate::text::{
    blank, capital, capitals, chars, contains, law_trimming_leaves_the_middle, law_what_occurs,
    line_seq, lines, listed, occurs, same, snug, trim, trimmed, uppered,
};

verus! {

// ---- Rows ----

/// The fields of a row that `nmcli -t` prints, given the part of the first field that was read
/// already: colons part fields, and a backslash makes the next character stand for itself.
pub open spec fn fields_from(s: Seq<char>, cur: Seq<char>) -> Seq<Seq<char>>
    decreases s.len(),
{
    if s.len() == 0 {
        seq![cur]
    } else if s[0] == '\\' {
        if s.len() > 1 {
            fields_from(s.skip(2), cur.push(s[1]))
        } else {
            seq![cur]
        }
    } else if s[0] == ':' {
        seq![cur] + fields_from(s.skip(1), Seq::empty())
    } else {
        fields_from(s.skip(1), cur.push(s[0]))
    }
}

/// The fields of a row that `nmcli -t` prints.
pub open spec fn row_fields(line: Seq<char>) -> Seq<Seq<char>> {
    fields_from(line, Seq::empty())
}

pub fn split_nmcli(line: &str) -> (r: Vec<String>)
    ensures
        r.deep_view() == row_fields(line@),
{
    let v = chars(line);
    let len: usize = v.len();
    let mut out: Vec<String> = Vec::new();
    let mut cur = String::new();
    let mut i: usize = 0;
    assert(v@.skip(0) =~= v@);
    assert(out.deep_view() =~= Seq::<Seq<char>>::empty());
    assert(cur@ =~= Seq::<char>::empty());
    while i < len
        invariant
            len == v@.len(),
            v@ == line@,
            i <= len,
            row_fields(line@) =~= out.deep_view() + fields_from(v@.skip(i as int), cur@),
        decreases len - i,
    {
        let ghost rest = v@.skip(i as int);
        assert(rest[0] == v@[i as int]);
        let c = v[i];
        if c == '\\' {
            if i + 1 < len {
                assert(rest[1] == v@[i + 1]);
                assert(rest.skip(2) =~= v@.skip(i + 2));
                cur.push(v[i + 1]);
                i += 2;
            } else {
                assert(v@.skip(i + 1) =~= Seq::<char>::empty());
                i += 1;
            }
        } else if c == ':' {
            assert(rest.skip(1) =~= v@.skip(i + 1));
            let ghost before = out.deep_view();
            let ghost field = cur@;
            out.push(cur);
            assert(out.deep_view() =~= before.push(field));
            cur = String::new();
            assert(cur@ =~= Seq::<char>::empty());
            i += 1;
        } else {
            assert(rest.skip(1) =~= v@.skip(i + 1));
            cur.push(c);
            i += 1;
        }
    }
    assert(v@.skip(i as int) =~= Seq::<char>::empty());
    let ghost before = out.deep_view();
    let ghost field = cur@;
    out.push(cur);
    assert(out.deep_view() =~= before.push(field));
    out
}

// ---- Scanning ----

/// A network that was seen.
pub struct Net {
    pub ssid: String,
    /// 0 to 100, as `nmcli` gives it.
    pub signal: i32,
    /// `WPA3`, `WPA2`, `WPA`, `WEP`, or `NO` for an open network.
    pub security: String,
}

/// A network, in contracts.
pub struct Seen {
    pub ssid: Seq<char>,
    pub signal: int,
    pub security: Seq<char>,
}

impl View for Net {
    type V = Seen;

    open spec fn view(&self) -> Seen {
        Seen { ssid: self.ssid@, signal: self.signal as int, security: self.security@ }
    }
}

/// Networks, in contracts.
pub open spec fn seen(nets: Seq<Net>) -> Seq<Seen> {
    Seq::new(nets.len(), |i: int| nets[i]@)
}

/// The token for what `nmcli` says, in capitals, of a network's security: the strongest that it
/// names.
pub open spec fn security_token(upper: Seq<char>) -> Seq<char> {
    if occurs(upper, "WPA3"@) {
        "WPA3"@
    } else if occurs(upper, "WPA2"@) {
        "WPA2"@
    } else if occurs(upper, "WPA"@) {
        "WPA"@
    } else if occurs(upper, "WEP"@) {
        "WEP"@
    } else {
        "NO"@
    }
}

/// The token for a text that is in capitals already.
pub fn token_for(upper: &str) -> (r: &'static str)
    ensures
        r@ == security_token(upper@),
{
    if contains(upper, "WPA3") {
        "WPA3"
    } else if contains(upper, "WPA2") {
        "WPA2"
    } else if contains(upper, "WPA") {
        "WPA"
    } else if contains(upper, "WEP") {
        "WEP"
    } else {
        "NO"
    }
}

/// The token for what `nmcli` says of a network's security.
pub fn map_auth(sec: &str) -> (r: String)
    ensures
        r@ == security_token(capital(sec@)),
{
    token_for(capitals(sec).as_str()).to_owned()
}

pub open spec fn has_ssid(nets: Seq<Seen>, ssid: Seq<char>) -> bool {
    exists|i: int| 0 <= i < nets.len() && #[trigger] nets[i].ssid == ssid
}

/// Does the row name a network?
pub open spec fn names_net(row: Seq<Seq<char>>) -> bool {
    row.len() >= 3 && row[0].len() > 0
}

/// The network that a row names.
pub open spec fn net_in(row: Seq<Seq<char>>) -> Seen {
    Seen {
        ssid: row[0],
        signal: i32_or_zero(row[1]),
        security: security_token(capital(row[2])),
    }
}

/// The networks that lines list. A name that comes again is left out.
pub open spec fn nets_in(lines: Seq<Seq<char>>) -> Seq<Seen>
    decreases lines.len(),
{
    if lines.len() == 0 {
        Seq::empty()
    } else {
        let before = nets_in(lines.drop_last());
        let row = row_fields(lines.last());
        if names_net(row) && !has_ssid(before, row[0]) {
            before.push(net_in(row))
        } else {
            before
        }
    }
}

fn already(nets: &Vec<Net>, ssid: &str) -> (r: bool)
    ensures
        r == has_ssid(seen(nets@), ssid@),
{
    let mut i: usize = 0;
    while i < nets.len()
        invariant
            i <= nets@.len(),
            forall|j: int| 0 <= j < i ==> (#[trigger] seen(nets@)[j]).ssid != ssid@,
        decreases nets@.len() - i,
    {
        if same(nets[i].ssid.as_str(), ssid) {
            assert(seen(nets@)[i as int].ssid == ssid@);
            return true;
        }
        i += 1;
    }
    false
}

/// The networks in what `nmcli` lists of name, signal and security.
pub fn scan_text(text: &str) -> (nets: Vec<Net>)
    ensures
        seen(nets@) == nets_in(line_seq(text@)),
{
    let ls = lines(text);
    let ghost dv = line_seq(text@);
    let mut nets: Vec<Net> = Vec::new();
    let mut i: usize = 0;
    assert(seen(nets@) =~= Seq::<Seen>::empty());
    assert(dv.take(0) =~= Seq::<Seq<char>>::empty());
    while i < ls.len()
        invariant
            ls.deep_view() == dv,
            i <= ls@.len(),
            seen(nets@) == nets_in(dv.take(i as int)),
        decreases ls@.len() - i,
    {
        let ghost t = dv.take(i + 1);
        assert(t.drop_last() =~= dv.take(i as int));
        assert(t.last() == ls@[i as int]@);
        let f = split_nmcli(ls[i].as_str());
        let ghost row = f.deep_view();
        if f.len() >= 3 {
            assert(row[0] == f@[0]@ && row[1] == f@[1]@ && row[2] == f@[2]@);
            if !f[0].as_str().is_empty() && !already(&nets, f[0].as_str()) {
                let ghost before = seen(nets@);
                let net = Net {
                    ssid: f[0].clone(),
                    signal: parse_i32_or_zero(f[1].as_str()),
                    security: map_auth(f[2].as_str()),
                };
                nets.push(net);
                assert(seen(nets@) =~= before.push(net_in(row)));
            }
        }
        i += 1;
    }
    assert(dv.take(i as int) =~= dv);
    nets
}

/// The networks in what `nmcli` printed; none where it could not be run.
pub fn scan(printed: &Option<Vec<u8>>) -> (nets: Vec<Net>)
    ensures
        seen(nets@) == match printed {
            Some(bytes) => nets_in(line_seq(text_in(bytes@))),
            None => Seq::empty(),
        },
{
    match printed {
        Some(bytes) => scan_text(output_text(bytes.as_slice()).as_str()),
        None => {
            let nets: Vec<Net> = Vec::new();
            assert(seen(nets@) =~= Seq::<Seen>::empty());
            nets
        },
    }
}

// ---- Profiles ----

/// A wireless connection profile, and the device it is active on where that was asked for.
pub struct Row {
    pub name: String,
    pub device: String,
}

/// A profile, in contracts.
pub struct Profile {
    pub name: Seq<char>,
    pub device: Seq<char>,
}

impl View for Row {
    type V = Profile;

    open spec fn view(&self) -> Profile {
        Profile { name: self.name@, device: self.device@ }
    }
}

/// Profiles, in contracts.
pub open spec fn profiles(rows: Seq<Row>) -> Seq<Profile> {
    Seq::new(rows.len(), |i: int| rows[i]@)
}

/// The wireless profile that a row of name, type and perhaps device stands for. A row with fewer
/// fields than were asked for stands for none.
pub open spec fn profile_in(row: Seq<Seq<char>>, width: nat) -> Option<Profile> {
    if row.len() >= width && row.len() >= 2 && row[1] == "802-11-wireless"@ {
        Some(
            Profile {
                name: row[0],
                device: if row.len() > 2 {
                    row[2]
                } else {
                    Seq::empty()
                },
            },
        )
    } else {
        None
    }
}

/// The wireless profiles that lines list.
pub open spec fn profiles_in(lines: Seq<Seq<char>>, width: nat) -> Seq<Profile>
    decreases lines.len(),
{
    if lines.len() == 0 {
        Seq::empty()
    } else {
        match profile_in(row_fields(lines.last()), width) {
            Some(p) => profiles_in(lines.drop_last(), width).push(p),
            None => profiles_in(lines.drop_last(), width),
        }
    }
}

/// The wireless profiles in a list of `width` fields to a row.
pub fn wireless(list: &str, width: usize) -> (rows: Vec<Row>)
    ensures
        profiles(rows@) == profiles_in(line_seq(list@), width as nat),
{
    let ls = lines(list);
    let ghost dv = line_seq(list@);
    let mut rows: Vec<Row> = Vec::new();
    let mut i: usize = 0;
    assert(profiles(rows@) =~= Seq::<Profile>::empty());
    assert(dv.take(0) =~= Seq::<Seq<char>>::empty());
    while i < ls.len()
        invariant
            ls.deep_view() == dv,
            i <= ls@.len(),
            profiles(rows@) == profiles_in(dv.take(i as int), width as nat),
        decreases ls@.len() - i,
    {
        let ghost t = dv.take(i + 1);
        assert(t.drop_last() =~= dv.take(i as int));
        assert(t.last() == ls@[i as int]@);
        let f = split_nmcli(ls[i].as_str());
        let ghost row = f.deep_view();
        if f.len() >= width && f.len() >= 2 {
            assert(row[0] == f@[0]@ && row[1] == f@[1]@);
            if same(f[1].as_str(), "802-11-wireless") {
                let device = if f.len() > 2 {
                    assert(row[2] == f@[2]@);
                    f[2].clone()
                } else {
                    String::new()
                };
                let ghost before = profiles(rows@);
                let r = Row { name: f[0].clone(), device };
                assert(r.device@ =~= profile_in(row, width as nat)->0.device);
                rows.push(r);
                assert(profiles(rows@) =~= before.push(r@));
            }
        }
        i += 1;
    }
    assert(dv.take(i as int) =~= dv);
    rows
}

/// The command that asks for a profile's mode.
pub open spec fn mode_args(name: Seq<char>) -> Seq<Seq<char>> {
    seq!["-g"@, "802-11-wireless.mode"@, "connection"@, "show"@, name]
}

/// The command that asks for the network of a profile.
pub open spec fn ssid_args(name: Seq<char>) -> Seq<Seq<char>> {
    seq!["-g"@, "802-11-wireless.ssid"@, "connection"@, "show"@, name]
}

/// The command that asks which interface a profile is pinned to.
pub open spec fn pin_args(name: Seq<char>) -> Seq<Seq<char>> {
    seq!["-g"@, "connection.interface-name"@, "connection"@, "show"@, name]
}

fn show_args(field: &str, name: &str) -> (r: Vec<String>)
    ensures
        r.deep_view() == seq!["-g"@, field@, "connection"@, "show"@, name@],
{
    let r: Vec<String> = vec![
        "-g".to_owned(),
        field.to_owned(),
        "connection".to_owned(),
        "show".to_owned(),
        name.to_owned(),
    ];
    assert(r.deep_view() =~= seq!["-g"@, field@, "connection"@, "show"@, name@]);
    r
}

pub fn ask_mode(name: &str) -> (r: Vec<String>)
    ensures
        r.deep_view() == mode_args(name@),
{
    show_args("802-11-wireless.mode", name)
}

pub fn ask_ssid(name: &str) -> (r: Vec<String>)
    ensures
        r.deep_view() == ssid_args(name@),
{
    show_args("802-11-wireless.ssid", name)
}

pub fn ask_pin(name: &str) -> (r: Vec<String>)
    ensures
        r.deep_view() == pin_args(name@),
{
    show_args("connection.interface-name", name)
}

/// Does the answer to `mode_args` say that a profile is an access point?
pub open spec fn says_ap(answer: Seq<char>) -> bool {
    trimmed(answer) == "ap"@
}

pub fn is_ap_profile(answer: &str) -> (r: bool)
    ensures
        r == says_ap(answer@),
{
    same(trim(answer).as_str(), "ap")
}

/// The answer at a position; the empty text where there is none, as from a command that failed.
pub open spec fn answer_at(answers: Seq<Seq<char>>, i: int) -> Seq<char> {
    if 0 <= i < answers.len() {
        answers[i]
    } else {
        Seq::empty()
    }
}

/// The profiles that are access points, or those that are not, by the answers for their modes.
pub open spec fn in_mode(ps: Seq<Profile>, modes: Seq<Seq<char>>, ap: bool) -> Seq<Profile>
    decreases ps.len(),
{
    if ps.len() == 0 {
        Seq::empty()
    } else if says_ap(answer_at(modes, ps.len() - 1)) == ap {
        in_mode(ps.drop_last(), modes, ap).push(ps.last())
    } else {
        in_mode(ps.drop_last(), modes, ap)
    }
}

pub(crate) fn answer_of(answers: &Vec<String>, i: usize) -> (r: String)
    ensures
        r@ == answer_at(answers.deep_view(), i as int),
{
    if i < answers.len() {
        assert(answers.deep_view()[i as int] == answers@[i as int]@);
        answers[i].clone()
    } else {
        let r = String::new();
        assert(r@ =~= Seq::<char>::empty());
        r
    }
}

/// Picks out the access points among profiles, or the others.
pub fn pick(rows: &Vec<Row>, modes: &Vec<String>, ap: bool) -> (r: Vec<Row>)
    ensures
        profiles(r@) == in_mode(profiles(rows@), modes.deep_view(), ap),
{
    let ghost ps = profiles(rows@);
    let mut out: Vec<Row> = Vec::new();
    let mut i: usize = 0;
    assert(profiles(out@) =~= Seq::<Profile>::empty());
    assert(ps.take(0) =~= Seq::<Profile>::empty());
    while i < rows.len()
        invariant
            ps == profiles(rows@),
            i <= rows@.len(),
            profiles(out@) == in_mode(ps.take(i as int), modes.deep_view(), ap),
        decreases rows@.len() - i,
    {
        let ghost t = ps.take(i + 1);
        assert(t.drop_last() =~= ps.take(i as int));
        assert(t.last() == rows@[i as int]@);
        if is_ap_profile(answer_of(modes, i).as_str()) == ap {
            let ghost before = profiles(out@);
            let row = Row { name: rows[i].name.clone(), device: rows[i].device.clone() };
            out.push(row);
            assert(profiles(out@) =~= before.push(rows@[i as int]@));
        }
        i += 1;
    }
    assert(ps.take(i as int) =~= ps);
    out
}

/// The classroom access point's own name, from the answer for its profile.
pub fn ap_ssid(answer: &str) -> (r: String)
    ensures
        r@ == trimmed(answer@),
{
    trim(answer)
}

/// The first answer with something in it, trimmed.
pub open spec fn first_said(answers: Seq<Seq<char>>) -> Option<Seq<char>>
    decreases answers.len(),
{
    if answers.len() == 0 {
        None
    } else if trimmed(answers[0]).len() > 0 {
        Some(trimmed(answers[0]))
    } else {
        first_said(answers.skip(1))
    }
}

pub fn first_answer(answers: &Vec<String>) -> (r: Option<String>)
    ensures
        opt_text(r) == first_said(answers.deep_view()),
{
    let ghost dv = answers.deep_view();
    let mut i: usize = 0;
    assert(dv.skip(0) =~= dv);
    while i < answers.len()
        invariant
            dv == answers.deep_view(),
            i <= answers@.len(),
            first_said(dv.skip(i as int)) == first_said(dv),
        decreases answers@.len() - i,
    {
        assert(dv.skip(i as int)[0] == answers@[i as int]@);
        assert(dv.skip(i as int).skip(1) =~= dv.skip(i + 1));
        let s = trim(answers[i].as_str());
        if !s.as_str().is_empty() {
            return Some(s);
        }
        i += 1;
    }
    None
}

/// The network that the uplink is on, from the answers for the networks of the active profiles
/// that are not access points.
pub fn uplink_ssid(answers: &Vec<String>) -> (r: Option<String>)
    ensures
        opt_text(r) == first_said(answers.deep_view()),
{
    first_answer(answers)
}

// ---- Which radio ----

/// The devices that access points hold: those they are active on, and those they are pinned to.
pub open spec fn ap_devices(active_aps: Seq<Profile>, pins: Seq<Seq<char>>) -> Seq<Seq<char>>
    decreases pins.len(),
{
    if pins.len() == 0 {
        active_aps.map_values(|p: Profile| p.device)
    } else if trimmed(pins.last()).len() > 0 {
        ap_devices(active_aps, pins.drop_last()).push(trimmed(pins.last()))
    } else {
        ap_devices(active_aps, pins.drop_last())
    }
}

/// The first Wi-Fi device of a list that is not among those taken.
pub open spec fn first_free(lines: Seq<Seq<char>>, taken: Seq<Seq<char>>) -> Option<Seq<char>>
    decreases lines.len(),
{
    if lines.len() == 0 {
        None
    } else {
        let row = row_fields(lines[0]);
        if row.len() >= 2 && row[1] == "wifi"@ && !taken.contains(row[0]) {
            Some(row[0])
        } else {
            first_free(lines.skip(1), taken)
        }
    }
}

/// The device for the uplink: a Wi-Fi device that no access point holds. `active` are the active
/// access points, `pins` the answers for what each access point, active or not, is pinned to, and
/// `devices` the list of devices.
pub open spec fn free_device(
    active: Seq<Profile>,
    pins: Seq<Seq<char>>,
    devices: Seq<char>,
) -> Option<Seq<char>> {
    first_free(line_seq(devices), ap_devices(active, pins))
}

fn taken_devices(active: &Vec<Row>, pins: &Vec<String>) -> (r: Vec<String>)
    ensures
        r.deep_view() == ap_devices(profiles(active@), pins.deep_view()),
{
    let ghost ps = profiles(active@);
    let ghost dv = pins.deep_view();
    let mut out: Vec<String> = Vec::new();
    let mut i: usize = 0;
    while i < active.len()
        invariant
            ps == profiles(active@),
            i <= active@.len(),
            out@.len() == i,
            forall|j: int| 0 <= j < i ==> (#[trigger] out@[j])@ == ps[j].device,
        decreases active@.len() - i,
    {
        out.push(active[i].device.clone());
        i += 1;
    }
    assert(out.deep_view() =~= ps.map_values(|p: Profile| p.device));
    assert(dv.take(0) =~= Seq::<Seq<char>>::empty());
    let mut k: usize = 0;
    while k < pins.len()
        invariant
            dv == pins.deep_view(),
            k <= pins@.len(),
            out.deep_view() == ap_devices(ps, dv.take(k as int)),
        decreases pins@.len() - k,
    {
        let ghost t = dv.take(k + 1);
        assert(t.drop_last() =~= dv.take(k as int));
        assert(t.last() == pins@[k as int]@);
        let d = trim(pins[k].as_str());
        if !d.as_str().is_empty() {
            let ghost before = out.deep_view();
            let ghost dev = d@;
            out.push(d);
            assert(out.deep_view() =~= before.push(dev));
        }
        k += 1;
    }
    assert(dv.take(k as int) =~= dv);
    out
}

/// Chooses the radio for the uplink, never one that carries an access point.
pub fn uplink_device(active: &Vec<Row>, pins: &Vec<String>, devices: &str) -> (r: Option<String>)
    ensures
        opt_text(r) == free_device(profiles(active@), pins.deep_view(), devices@),
{
    let taken = taken_devices(active, pins);
    let ghost gone = taken.deep_view();
    let ls = lines(devices);
    let ghost dv = line_seq(devices@);
    let mut i: usize = 0;
    assert(dv.skip(0) =~= dv);
    while i < ls.len()
        invariant
            ls.deep_view() == dv,
            gone == taken.deep_view(),
            gone == ap_devices(profiles(active@), pins.deep_view()),
            dv == line_seq(devices@),
            i <= ls@.len(),
            first_free(dv.skip(i as int), gone) == first_free(dv, gone),
        decreases ls@.len() - i,
    {
        assert(dv.skip(i as int)[0] == ls@[i as int]@);
        assert(dv.skip(i as int).skip(1) =~= dv.skip(i + 1));
        let f = split_nmcli(ls[i].as_str());
        if f.len() >= 2 {
            assert(f.deep_view()[0] == f@[0]@ && f.deep_view()[1] == f@[1]@);
            if same(f[1].as_str(), "wifi") && !listed(&taken, f[0].as_str()) {
                return Some(f[0].clone());
            }
        }
        i += 1;
    }
    None
}

// ---- Joining ----

/// The words that `nmcli device wifi connect` takes for options where it looks for a name.
pub open spec fn is_keyword(ssid: Seq<char>) -> bool {
    ||| ssid == "password"@
    ||| ssid == "ifname"@
    ||| ssid == "bssid"@
    ||| ssid == "hidden"@
    ||| ssid == "name"@
    ||| ssid == "private"@
    ||| ssid == "wep-key-type"@
}

/// Why a network cannot be joined from here; nothing where it can.
pub open spec fn ssid_refusal(ssid: Seq<char>) -> Option<Seq<char>> {
    if ssid.len() == 0 {
        Some("pick a network"@)
    } else if encode_utf8(ssid).len() > 32 {
        Some("network name too long (max 32 characters)"@)
    } else if ssid[0] == '-' || is_keyword(ssid) {
        Some(
            "can't join a network named \""@ + ssid + "\" from here — connect it manually"@,
        )
    } else {
        None
    }
}

fn keyword(ssid: &str) -> (r: bool)
    ensures
        r == is_keyword(ssid@),
{
    same(ssid, "password") || same(ssid, "ifname") || same(ssid, "bssid") || same(ssid, "hidden")
        || same(ssid, "name") || same(ssid, "private") || same(ssid, "wep-key-type")
}

/// May a network be named to `nmcli`?
pub fn check_ssid(ssid: &str) -> (r: Result<(), String>)
    ensures
        match r {
            Ok(_) => ssid_refusal(ssid@) is None,
            Err(e) => ssid_refusal(ssid@) == Some(e@),
        },
{
    let cs = chars(ssid);
    if cs.len() == 0 {
        return Err("pick a network".to_owned());
    }
    if utf8_bytes(ssid).len() > 32 {
        return Err("network name too long (max 32 characters)".to_owned());
    }
    if cs[0] == '-' || keyword(ssid) {
        let mut e = "can't join a network named \"".to_owned();
        e.append(ssid);
        e.append("\" from here — connect it manually");
        return Err(e);
    }
    Ok(())
}

/// The command that joins a network on a device; an open network has no password.
pub open spec fn join_args(ssid: Seq<char>, device: Seq<char>, password: Seq<char>) -> Seq<
    Seq<char>,
> {
    let open = seq!["device"@, "wifi"@, "connect"@, ssid, "ifname"@, device];
    if password.len() > 0 {
        open + seq!["password"@, password]
    } else {
        open
    }
}

pub fn join_command(ssid: &str, device: &str, password: &str) -> (r: Vec<String>)
    ensures
        r.deep_view() == join_args(ssid@, device@, password@),
{
    let mut r: Vec<String> = vec![
        "device".to_owned(),
        "wifi".to_owned(),
        "connect".to_owned(),
        ssid.to_owned(),
        "ifname".to_owned(),
        device.to_owned(),
    ];
    if !password.is_empty() {
        r.push("password".to_owned());
        r.push(password.to_owned());
    }
    assert(r.deep_view() =~= join_args(ssid@, device@, password@));
    r
}

/// Why a join cannot be tried; nothing where it can.
pub open spec fn join_refusal(ssid: Seq<char>, device: Option<Seq<char>>) -> Option<Seq<char>> {
    match ssid_refusal(ssid) {
        Some(e) => Some(e),
        None => match device {
            Some(_) => None,
            None => Some("no spare Wi-Fi radio — the only one carries the classroom AP"@),
        },
    }
}

/// The command that joins a venue's network on the radio that was chosen for the uplink, or why
/// there is none.
pub fn connect(ssid: &str, password: &str, device: &Option<String>) -> (r: Result<
    Vec<String>,
    String,
>)
    ensures
        match r {
            Ok(args) => {
                &&& join_refusal(ssid@, opt_text(*device)) is None
                &&& device matches Some(d)
                &&& args.deep_view() == join_args(ssid@, d@, password@)
            },
            Err(e) => join_refusal(ssid@, opt_text(*device)) == Some(e@),
        },
{
    match check_ssid(ssid) {
        Ok(_) => {},
        Err(e) => {
            return Err(e);
        },
    }
    match device {
        Some(d) => Ok(join_command(ssid, d.as_str(), password)),
        None => Err("no spare Wi-Fi radio — the only one carries the classroom AP".to_owned()),
    }
}

/// How a command ended.
pub enum Ran {
    /// It ran, and said this on its error output.
    Exit { success: bool, stderr: Vec<u8> },
    /// It could not be run.
    NotRun(String),
}

/// What went wrong with a command; nothing where it succeeded.
pub open spec fn failure(ran: Ran) -> Option<Seq<char>> {
    match ran {
        Ran::Exit { success, stderr } => if success {
            None
        } else {
            Some(trimmed(text_in(stderr@)))
        },
        Ran::NotRun(e) => Some(e@),
    }
}

/// Takes in how a command ended: the panel shows what went wrong as it is.
pub fn outcome(ran: &Ran) -> (r: Result<(), String>)
    ensures
        match r {
            Ok(_) => failure(*ran) is None,
            Err(e) => failure(*ran) == Some(e@),
        },
{
    match ran {
        Ran::Exit { success, stderr } => if *success {
            Ok(())
        } else {
            Err(trim(output_text(stderr.as_slice()).as_str()))
        },
        Ran::NotRun(e) => Err(e.clone()),
    }
}

/// What to do with a request to join.
pub enum Join {
    Answer(Reply),
    Try { ssid: String, password: String },
}

/// A request without a network is answered at once; another is tried.
pub open spec fn join_step(ssid: Seq<char>, password: Seq<char>, j: Join) -> bool {
    match j {
        Join::Answer(r) => {
            &&& ssid.len() == 0
            &&& r.0@ == "400 Bad Request"@
            &&& r.1@ == "application/json"@
            &&& r.2@ == "{\"ok\":false,\"error\":\"missing ssid\"}"@
        },
        Join::Try { ssid: s, password: p } => ssid.len() > 0 && s@ == ssid && p@ == password,
    }
}

pub fn join_request(ssid: String, password: String) -> (j: Join)
    ensures
        join_step(ssid@, password@, j),
{
    if ssid.as_str().is_empty() {
        Join::Answer(
            (
                "400 Bad Request",
                "application/json",
                "{\"ok\":false,\"error\":\"missing ssid\"}".to_owned(),
            ),
        )
    } else {
        Join::Try { ssid, password }
    }
}

/// `POST /wifi/connect` with `{ssid, password}`.
pub fn wifi_connect_json(body: &str) -> (j: Join)
    ensures
        join_step(
            text_field(parsed(body@), "ssid"@),
            text_field(parsed(body@), "password"@),
            j,
        ),
{
    let b = Body::parse(body);
    join_request(b.text("ssid"), b.text("password"))
}

/// The answer for what a join or a forget came to.
pub fn outcome_reply(r: &Result<(), String>) -> (reply: Reply)
    ensures
        match r {
            Ok(_) => json_reply(reply, "{\"ok\":true}"@),
            Err(e) => json_reply(reply, error_body(e@)),
        },
{
    match r {
        Ok(_) => ok(),
        Err(e) => err(e.as_str()),
    }
}

// ---- Forgetting ----

/// The command that deletes a profile.
pub open spec fn delete_args(name: Seq<char>) -> Seq<Seq<char>> {
    seq!["connection"@, "delete"@, name]
}

/// What to do next to forget the uplink.
pub enum Forget {
    /// Run this command, and come back with how it ended.
    Delete(Vec<String>),
    Done(Result<(), String>),
}

/// The first thing that went wrong.
pub open spec fn first_failure(ran: Seq<Ran>) -> Option<Seq<char>>
    decreases ran.len(),
{
    if ran.len() == 0 {
        None
    } else {
        match failure(ran[0]) {
            Some(e) => Some(e),
            None => first_failure(ran.skip(1)),
        }
    }
}

/// What to do next, after these commands: the profiles are deleted one by one, a failure ends it,
/// and to have had nothing to delete is a failure too.
pub open spec fn forget_step(stations: Seq<Profile>, ran: Seq<Ran>, f: Forget) -> bool {
    match first_failure(ran) {
        Some(e) => f matches Forget::Done(Err(t)) && t@ == e,
        None => if ran.len() < stations.len() {
            f matches Forget::Delete(args) && args.deep_view() == delete_args(
                stations[ran.len() as int].name,
            )
        } else if ran.len() == 0 {
            f matches Forget::Done(Err(t)) && t@ == "no stored uplink to forget"@
        } else {
            f matches Forget::Done(Ok(_))
        },
    }
}

/// The next step in forgetting the stored uplinks: every wireless profile that is no access point
/// is deleted, active or not.
pub fn forget(stations: &Vec<Row>, ran: &Vec<Ran>) -> (f: Forget)
    ensures
        forget_step(profiles(stations@), ran@, f),
{
    let mut i: usize = 0;
    assert(ran@.skip(0) =~= ran@);
    while i < ran.len()
        invariant
            i <= ran@.len(),
            first_failure(ran@.skip(i as int)) == first_failure(ran@),
        decreases ran@.len() - i,
    {
        assert(ran@.skip(i as int)[0] == ran@[i as int]);
        assert(ran@.skip(i as int).skip(1) =~= ran@.skip(i + 1));
        match outcome(&ran[i]) {
            Ok(_) => {},
            Err(e) => {
                return Forget::Done(Err(e));
            },
        }
        i += 1;
    }
    if ran.len() < stations.len() {
        let name = stations[ran.len()].name.clone();
        let args: Vec<String> = vec!["connection".to_owned(), "delete".to_owned(), name];
        assert(args.deep_view() =~= delete_args(stations@[ran@.len() as int]@.name));
        Forget::Delete(args)
    } else if ran.len() == 0 {
        Forget::Done(Err("no stored uplink to forget".to_owned()))
    } else {
        Forget::Done(Ok(()))
    }
}

// ---- Laws ----

/// A field as `nmcli -t` writes it.
pub open spec fn escaped(field: Seq<char>) -> Seq<char>
    decreases field.len(),
{
    if field.len() == 0 {
        Seq::empty()
    } else if field[0] == ':' || field[0] == '\\' {
        seq!['\\', field[0]] + escaped(field.skip(1))
    } else {
        seq![field[0]] + escaped(field.skip(1))
    }
}

/// A row as `nmcli -t` writes it.
pub open spec fn written(fields: Seq<Seq<char>>) -> Seq<char>
    decreases fields.len(),
{
    if fields.len() == 0 {
        Seq::empty()
    } else if fields.len() == 1 {
        escaped(fields[0])
    } else {
        escaped(fields[0]) + seq![':'] + written(fields.skip(1))
    }
}

proof fn lemma_escaped(field: Seq<char>, rest: Seq<char>, cur: Seq<char>)
    ensures
        fields_from(escaped(field) + rest, cur) == fields_from(rest, cur + field),
    decreases field.len(),
{
    let s = escaped(field) + rest;
    if field.len() == 0 {
        assert(s =~= rest);
        assert(cur + field =~= cur);
    } else {
        let tail = field.skip(1);
        lemma_escaped(tail, rest, cur.push(field[0]));
        assert(cur.push(field[0]) + tail =~= cur + field);
        if field[0] == ':' || field[0] == '\\' {
            assert(s[0] == '\\' && s[1] == field[0]);
            assert(s.skip(2) =~= escaped(tail) + rest);
        } else {
            assert(s[0] == field[0]);
            assert(s.skip(1) =~= escaped(tail) + rest);
        }
    }
}

/// Rows read back: whatever the fields hold, colons and backslashes too, splitting the row that
/// was written of them gives the fields.
pub proof fn law_rows_read_back(fields: Seq<Seq<char>>)
    requires
        fields.len() > 0,
    ensures
        row_fields(written(fields)) == fields,
    decreases fields.len(),
{
    let first = fields[0];
    let none = Seq::<char>::empty();
    assert(none + first =~= first);
    if fields.len() == 1 {
        lemma_escaped(first, none, none);
        assert(escaped(first) + none =~= escaped(first));
        assert(row_fields(written(fields)) =~= fields);
    } else {
        let rest = fields.skip(1);
        law_rows_read_back(rest);
        let tail = seq![':'] + written(rest);
        lemma_escaped(first, tail, none);
        assert(escaped(first) + seq![':'] + written(rest) =~= escaped(first) + tail);
        assert(tail.skip(1) =~= written(rest));
        assert(row_fields(written(fields)) =~= seq![first] + rest);
        assert(seq![first] + rest =~= fields);
    }
}

proof fn lemma_nets(lines: Seq<Seq<char>>)
    ensures
        forall|i: int, j: int|
            0 <= i < j < nets_in(lines).len() ==> (#[trigger] nets_in(lines)[i]).ssid != (
            #[trigger] nets_in(lines)[j]).ssid,
        forall|i: int| 0 <= i < nets_in(lines).len() ==> (#[trigger] nets_in(lines)[i]).ssid.len() > 0,
    decreases lines.len(),
{
    if lines.len() > 0 {
        lemma_nets(lines.drop_last());
        let before = nets_in(lines.drop_last());
        let now = nets_in(lines);
        let row = row_fields(lines.last());
        if names_net(row) && !has_ssid(before, row[0]) {
            assert forall|i: int, j: int| 0 <= i < j < now.len() implies (#[trigger] now[i]).ssid
                != (#[trigger] now[j]).ssid by {
                assert(now[i] == before[i]);
                if j == before.len() {
                    assert(before[i].ssid != row[0]);
                } else {
                    assert(now[j] == before[j]);
                }
            }
        }
    }
}

/// No network is listed twice, and none without a name.
pub proof fn law_networks_are_listed_once(text: Seq<char>)
    ensures
        forall|i: int, j: int|
            0 <= i < j < nets_in(line_seq(text)).len() ==> (#[trigger] nets_in(line_seq(text))[i]).ssid
                != (#[trigger] nets_in(line_seq(text))[j]).ssid,
        forall|i: int|
            0 <= i < nets_in(line_seq(text)).len() ==> (#[trigger] nets_in(
                line_seq(text),
            )[i]).ssid.len() > 0,
{
    lemma_nets(line_seq(text));
}

proof fn lemma_net_has_line(lines: Seq<Seq<char>>, k: int)
    requires
        0 <= k < nets_in(lines).len(),
    ensures
        exists|i: int|
            0 <= i < lines.len() && names_net(row_fields(#[trigger] lines[i])) && nets_in(lines)[k]
                == net_in(row_fields(lines[i])),
    decreases lines.len(),
{
    if lines.len() > 0 {
        let init = lines.drop_last();
        let before = nets_in(init);
        if k < before.len() {
            lemma_net_has_line(init, k);
            let i = choose|i: int|
                0 <= i < init.len() && names_net(row_fields(#[trigger] init[i])) && before[k]
                    == net_in(row_fields(init[i]));
            assert(lines[i] == init[i]);
            assert(nets_in(lines)[k] == before[k]);
        } else {
            assert(lines[lines.len() - 1] == lines.last());
        }
    }
}

/// Of the lines that name a network, the first one counts.
pub proof fn law_the_first_line_counts(lines: Seq<Seq<char>>, i: int)
    requires
        0 <= i < lines.len(),
        names_net(row_fields(lines[i])),
        forall|j: int|
            0 <= j < i && names_net(row_fields(#[trigger] lines[j])) ==> row_fields(lines[j])[0]
                != row_fields(lines[i])[0],
    ensures
        nets_in(lines).contains(net_in(row_fields(lines[i]))),
    decreases lines.len(),
{
    let init = lines.drop_last();
    let before = nets_in(init);
    let now = nets_in(lines);
    let row = row_fields(lines[i]);
    if i < init.len() {
        assert(init[i] == lines[i]);
        assert forall|j: int| 0 <= j < i && names_net(row_fields(#[trigger] init[j])) implies row_fields(
            init[j],
        )[0] != row_fields(init[i])[0] by {
            assert(init[j] == lines[j]);
        }
        law_the_first_line_counts(init, i);
        let k = before.index_of(net_in(row));
        assert(now[k] == net_in(row));
    } else {
        if has_ssid(before, row[0]) {
            let k = choose|k: int| 0 <= k < before.len() && #[trigger] before[k].ssid == row[0];
            lemma_net_has_line(init, k);
            let j = choose|j: int|
                0 <= j < init.len() && names_net(row_fields(#[trigger] init[j])) && before[k]
                    == net_in(row_fields(init[j]));
            assert(lines[j] == init[j]);
        }
        assert(now[now.len() - 1] == net_in(row));
    }
}

/// Is this one of the profiles, and are the answers for it so?
pub open spec fn is_in_mode(p: Profile, ps: Seq<Profile>, modes: Seq<Seq<char>>, ap: bool) -> bool {
    exists|i: int| 0 <= i < ps.len() && says_ap(answer_at(modes, i)) == ap && #[trigger] ps[i] == p
}

proof fn lemma_in_mode(ps: Seq<Profile>, modes: Seq<Seq<char>>, ap: bool)
    ensures
        forall|i: int|
            0 <= i < ps.len() && says_ap(answer_at(modes, i)) == ap ==> in_mode(
                ps,
                modes,
                ap,
            ).contains(#[trigger] ps[i]),
        forall|k: int|
            0 <= k < in_mode(ps, modes, ap).len() ==> is_in_mode(
                #[trigger] in_mode(ps, modes, ap)[k],
                ps,
                modes,
                ap,
            ),
    decreases ps.len(),
{
    if ps.len() > 0 {
        let init = ps.drop_last();
        lemma_in_mode(init, modes, ap);
        let before = in_mode(init, modes, ap);
        let now = in_mode(ps, modes, ap);
        assert forall|i: int| 0 <= i < ps.len() && says_ap(answer_at(modes, i))
            == ap implies now.contains(#[trigger] ps[i]) by {
            if i < init.len() {
                assert(before.contains(init[i]));
                let k = before.index_of(init[i]);
                assert(now[k] == ps[i]);
            } else {
                assert(now[now.len() - 1] == ps[i]);
            }
        }
        assert forall|k: int| 0 <= k < now.len() implies is_in_mode(
            #[trigger] now[k],
            ps,
            modes,
            ap,
        ) by {
            if k < before.len() {
                assert(now[k] == before[k]);
                let i = choose|i: int|
                    0 <= i < init.len() && says_ap(answer_at(modes, i)) == ap && #[trigger] init[i]
                        == before[k];
                assert(ps[i] == init[i]);
            } else {
                assert(now[k] == ps[ps.len() - 1]);
            }
        }
    }
}

/// What NetworkManager answers, command by command.
pub open spec fn modes_by(ps: Seq<Profile>, nm: spec_fn(Seq<Seq<char>>) -> Seq<char>) -> Seq<
    Seq<char>,
> {
    Seq::new(ps.len(), |i: int| nm(mode_args(ps[i].name)))
}

pub open spec fn pins_by(ps: Seq<Profile>, nm: spec_fn(Seq<Seq<char>>) -> Seq<char>) -> Seq<
    Seq<char>,
> {
    Seq::new(ps.len(), |i: int| nm(pin_args(ps[i].name)))
}

proof fn lemma_ap_devices(aps: Seq<Profile>, pins: Seq<Seq<char>>)
    ensures
        forall|i: int|
            0 <= i < aps.len() ==> ap_devices(aps, pins).contains((#[trigger] aps[i]).device),
        forall|i: int|
            0 <= i < pins.len() && trimmed(#[trigger] pins[i]).len() > 0 ==> ap_devices(
                aps,
                pins,
            ).contains(trimmed(pins[i])),
    decreases pins.len(),
{
    let now = ap_devices(aps, pins);
    if pins.len() == 0 {
        assert forall|i: int| 0 <= i < aps.len() implies now.contains((#[trigger] aps[i]).device) by {
            assert(now[i] == aps[i].device);
        }
    } else {
        let init = pins.drop_last();
        lemma_ap_devices(aps, init);
        let before = ap_devices(aps, init);
        assert forall|i: int| 0 <= i < aps.len() implies now.contains((#[trigger] aps[i]).device) by {
            let k = before.index_of(aps[i].device);
            assert(now[k] == aps[i].device);
        }
        assert forall|i: int| 0 <= i < pins.len() && trimmed(#[trigger] pins[i]).len()
            > 0 implies now.contains(trimmed(pins[i])) by {
            if i < init.len() {
                assert(before.contains(trimmed(init[i])));
                let k = before.index_of(trimmed(init[i]));
                assert(now[k] == trimmed(pins[i]));
            } else {
                assert(now[now.len() - 1] == trimmed(pins[i]));
            }
        }
    }
}

proof fn lemma_first_free(lines: Seq<Seq<char>>, taken: Seq<Seq<char>>)
    ensures
        first_free(lines, taken) matches Some(d) ==> {
            &&& !taken.contains(d)
            &&& exists|i: int|
                0 <= i < lines.len() && row_fields(#[trigger] lines[i]).len() >= 2 && row_fields(
                    lines[i],
                )[0] == d && row_fields(lines[i])[1] == "wifi"@
        },
    decreases lines.len(),
{
    if lines.len() > 0 {
        let tail = lines.skip(1);
        lemma_first_free(tail, taken);
        let row = row_fields(lines[0]);
        if !(row.len() >= 2 && row[1] == "wifi"@ && !taken.contains(row[0])) {
            if let Some(d) = first_free(tail, taken) {
                let i = choose|i: int|
                    0 <= i < tail.len() && row_fields(#[trigger] tail[i]).len() >= 2 && row_fields(
                        tail[i],
                    )[0] == d && row_fields(tail[i])[1] == "wifi"@;
                assert(lines[i + 1] == tail[i]);
            }
        }
    }
}

/// The uplink never takes the access point's radio: whatever NetworkManager answers, the device
/// that is chosen is a Wi-Fi device, no active access point is on it, and no access point, active
/// or not, is pinned to it.
pub proof fn law_the_access_point_keeps_its_radio(
    active: Seq<Profile>,
    all: Seq<Profile>,
    nm: spec_fn(Seq<Seq<char>>) -> Seq<char>,
    devices: Seq<char>,
    d: Seq<char>,
)
    requires
        free_device(
            in_mode(active, modes_by(active, nm), true),
            pins_by(in_mode(all, modes_by(all, nm), true), nm),
            devices,
        ) == Some(d),
    ensures
        forall|i: int|
            0 <= i < active.len() && says_ap(nm(mode_args((#[trigger] active[i]).name)))
                ==> active[i].device != d,
        forall|i: int|
            0 <= i < all.len() && says_ap(nm(mode_args((#[trigger] all[i]).name))) && trimmed(
                nm(pin_args(all[i].name)),
            ).len() > 0 ==> trimmed(nm(pin_args(all[i].name))) != d,
        exists|i: int|
            0 <= i < line_seq(devices).len() && row_fields(#[trigger] line_seq(devices)[i]).len() >= 2
                && row_fields(line_seq(devices)[i])[0] == d && row_fields(line_seq(devices)[i])[1]
                == "wifi"@,
{
    let aps = in_mode(active, modes_by(active, nm), true);
    let pinned = in_mode(all, modes_by(all, nm), true);
    let pins = pins_by(pinned, nm);
    let taken = ap_devices(aps, pins);
    lemma_in_mode(active, modes_by(active, nm), true);
    lemma_in_mode(all, modes_by(all, nm), true);
    lemma_ap_devices(aps, pins);
    lemma_first_free(line_seq(devices), taken);
    assert forall|i: int|
        0 <= i < active.len() && says_ap(nm(mode_args((#[trigger] active[i]).name))) implies active[i].device
        != d by {
        assert(answer_at(modes_by(active, nm), i) == nm(mode_args(active[i].name)));
        let k = aps.index_of(active[i]);
        assert(aps[k].device == active[i].device);
    }
    assert forall|i: int|
        0 <= i < all.len() && says_ap(nm(mode_args((#[trigger] all[i]).name))) && trimmed(
            nm(pin_args(all[i].name)),
        ).len() > 0 implies trimmed(nm(pin_args(all[i].name))) != d by {
        assert(answer_at(modes_by(all, nm), i) == nm(mode_args(all[i].name)));
        let k = pinned.index_of(all[i]);
        assert(pins[k] == nm(pin_args(all[i].name)));
    }
}

/// A join names a network that `nmcli` cannot take for anything else: not a flag, not one of its
/// own words, and no longer than a network's name can be; and it names the radio.
pub proof fn law_joins_are_safe_commands(
    ssid: Seq<char>,
    device: Seq<char>,
    password: Seq<char>,
)
    requires
        join_refusal(ssid, Some(device)) is None,
    ensures
        ({
            let args = join_args(ssid, device, password);
            &&& args[3] == ssid
            &&& args[4] == "ifname"@
            &&& args[5] == device
            &&& 1 <= encode_utf8(ssid).len() <= 32
            &&& ssid[0] != '-'
            &&& !is_keyword(ssid)
        }),
{
    reveal_with_fuel(encode_utf8, 1);
    vstd::utf8::encode_utf8_decode_utf8(ssid);
    if encode_utf8(ssid).len() == 0 {
        assert(encode_utf8(ssid) =~= Seq::<u8>::empty());
        assert(vstd::utf8::decode_utf8(Seq::<u8>::empty()) =~= Seq::<char>::empty());
    }
}

/// Forgetting deletes every profile that is no access point, and never one that is.
pub proof fn law_forgetting_spares_access_points(ps: Seq<Profile>, modes: Seq<Seq<char>>)
    ensures
        forall|k: int|
            0 <= k < in_mode(ps, modes, false).len() ==> is_in_mode(
                #[trigger] in_mode(ps, modes, false)[k],
                ps,
                modes,
                false,
            ),
        forall|i: int|
            0 <= i < ps.len() && !says_ap(answer_at(modes, i)) ==> in_mode(
                ps,
                modes,
                false,
            ).contains(#[trigger] ps[i]),
{
    lemma_in_mode(ps, modes, false);
}

/// The badge is the strongest protection that a text names, whatever else it says; `NO` is for a
/// text that names none.
pub proof fn law_the_strongest_protection_is_shown(a: Seq<char>, b: Seq<char>, s: Seq<char>)
    ensures
        security_token(a + "WPA3"@ + b) == "WPA3"@,
        !occurs(a + "WPA2"@ + b, "WPA3"@) ==> security_token(a + "WPA2"@ + b) == "WPA2"@,
        !occurs(a + "WPA"@ + b, "WPA3"@) && !occurs(a + "WPA"@ + b, "WPA2"@) ==> security_token(
            a + "WPA"@ + b,
        ) == "WPA"@,
        !occurs(a + "WEP"@ + b, "WPA"@) ==> security_token(a + "WEP"@ + b) == "WEP"@,
        security_token(s) == "NO"@ <==> !occurs(s, "WPA"@) && !occurs(s, "WEP"@),
{
    law_what_occurs(s, a, "WPA3"@, b);
    law_what_occurs(s, a, "WPA2"@, b);
    law_what_occurs(s, a, "WPA"@, b);
    law_what_occurs(s, a, "WEP"@, b);
    lemma_wpa_is_named(s);
    lemma_wpa_is_named(a + "WEP"@ + b);
    reveal_strlit("NO");
    reveal_strlit("WPA3");
    reveal_strlit("WPA2");
    reveal_strlit("WPA");
    reveal_strlit("WEP");
    assert("NO"@.len() == 2 && "WPA3"@.len() == 4 && "WPA2"@.len() == 4 && "WPA"@.len() == 3
        && "WEP"@.len() == 3);
}

/// Whoever names a version of WPA names WPA.
proof fn lemma_wpa_is_named(s: Seq<char>)
    ensures
        occurs(s, "WPA3"@) || occurs(s, "WPA2"@) ==> occurs(s, "WPA"@),
{
    reveal_strlit("WPA3");
    reveal_strlit("WPA2");
    reveal_strlit("WPA");
    if occurs(s, "WPA3"@) {
        let i = choose|i: int|
            0 <= i && i + "WPA3"@.len() <= s.len() && #[trigger] s.subrange(i, i + "WPA3"@.len())
                == "WPA3"@;
        assert(s.subrange(i, i + 3) =~= s.subrange(i, i + 4).take(3));
        assert("WPA3"@.take(3) =~= "WPA"@);
    } else if occurs(s, "WPA2"@) {
        let i = choose|i: int|
            0 <= i && i + "WPA2"@.len() <= s.len() && #[trigger] s.subrange(i, i + "WPA2"@.len())
                == "WPA2"@;
        assert(s.subrange(i, i + 3) =~= s.subrange(i, i + 4).take(3));
        assert("WPA2"@.take(3) =~= "WPA"@);
    }
}

/// The badge does not depend on the case in which the protection is named.
pub proof fn law_protection_is_named_in_any_case(a: Seq<char>, word: Seq<char>, b: Seq<char>)
    requires
        is_ascii_chars(a + word + b),
    ensures
        uppered(word) == "WPA3"@ ==> security_token(capital(a + word + b)) == "WPA3"@,
        uppered(word) == "WPA2"@ && !occurs(uppered(a + word + b), "WPA3"@) ==> security_token(
            capital(a + word + b),
        ) == "WPA2"@,
        uppered(word) == "WPA"@ ==> security_token(capital(a + word + b)) != "NO"@,
        uppered(word) == "WEP"@ ==> security_token(capital(a + word + b)) != "NO"@,
{
    let s = a + word + b;
    assert(uppered(s) =~= uppered(a) + uppered(word) + uppered(b));
    law_the_strongest_protection_is_shown(uppered(a), uppered(b), uppered(s));
    law_what_occurs(s, uppered(a), uppered(word), uppered(b));
}

/// A row of name, signal and security is the network of that name, with that signal and the badge
/// of that security; more fields do not matter, and a row without a name is no network.
pub proof fn law_rows_are_networks(
    ssid: Seq<char>,
    signal: i32,
    security: Seq<char>,
    more: Seq<Seq<char>>,
)
    ensures
        ssid.len() > 0 ==> nets_in(
            seq![written(seq![ssid, signed_decimal(signal as int), security] + more)],
        ) == seq![Seen { ssid, signal: signal as int, security: security_token(capital(security)) }],
        ssid.len() == 0 ==> nets_in(
            seq![written(seq![ssid, signed_decimal(signal as int), security] + more)],
        ).len() == 0,
        nets_in(seq![written(seq![ssid, signed_decimal(signal as int)])]).len() == 0,
        nets_in(seq![written(seq![ssid])]).len() == 0,
{
    let row = seq![ssid, signed_decimal(signal as int), security] + more;
    law_signed_reads_back(signal);
    law_rows_read_back(row);
    law_rows_read_back(seq![ssid, signed_decimal(signal as int)]);
    law_rows_read_back(seq![ssid]);
    lemma_one_line(written(row));
    lemma_one_line(written(seq![ssid, signed_decimal(signal as int)]));
    lemma_one_line(written(seq![ssid]));
    assert(row[0] == ssid && row[1] == signed_decimal(signal as int) && row[2] == security);
}

proof fn lemma_one_line(line: Seq<char>)
    ensures
        nets_in(seq![line]) == if names_net(row_fields(line)) {
            seq![net_in(row_fields(line))]
        } else {
            Seq::empty()
        },
{
    let none = Seq::<Seq<char>>::empty();
    assert(seq![line].drop_last() =~= none);
    assert(nets_in(none) =~= Seq::<Seen>::empty());
    assert(nets_in(seq![line]) =~= if names_net(row_fields(line)) {
        seq![net_in(row_fields(line))]
    } else {
        Seq::empty()
    });
}

/// A profile is listed exactly if its row says that it is wireless and has as many fields as were
/// asked for, with the device that the row names; every line counts, each for itself.
pub proof fn law_wireless_rows_are_profiles(
    name: Seq<char>,
    kind: Seq<char>,
    device: Seq<char>,
    a: Seq<Seq<char>>,
    b: Seq<Seq<char>>,
    width: nat,
)
    ensures
        profiles_in(seq![written(seq![name, kind, device])], 3) == if kind == "802-11-wireless"@ {
            seq![Profile { name, device }]
        } else {
            Seq::empty()
        },
        profiles_in(seq![written(seq![name, kind])], 2) == if kind == "802-11-wireless"@ {
            seq![Profile { name, device: Seq::empty() }]
        } else {
            Seq::empty()
        },
        profiles_in(seq![written(seq![name, kind])], 3).len() == 0,
        profiles_in(seq![written(seq![name])], 2).len() == 0,
        profiles_in(a + b, width) == profiles_in(a, width) + profiles_in(b, width),
{
    law_rows_read_back(seq![name, kind, device]);
    law_rows_read_back(seq![name, kind]);
    law_rows_read_back(seq![name]);
    lemma_one_profile(written(seq![name, kind, device]), 3);
    lemma_one_profile(written(seq![name, kind]), 2);
    lemma_one_profile(written(seq![name, kind]), 3);
    lemma_one_profile(written(seq![name]), 2);
    lemma_profiles_add_up(a, b, width);
}

proof fn lemma_one_profile(line: Seq<char>, width: nat)
    ensures
        profiles_in(seq![line], width) == match profile_in(row_fields(line), width) {
            Some(p) => seq![p],
            None => Seq::empty(),
        },
{
    let none = Seq::<Seq<char>>::empty();
    assert(seq![line].drop_last() =~= none);
    assert(profiles_in(none, width) =~= Seq::<Profile>::empty());
    assert(profiles_in(seq![line], width) =~= match profile_in(row_fields(line), width) {
        Some(p) => seq![p],
        None => Seq::empty(),
    });
}

proof fn lemma_profiles_add_up(a: Seq<Seq<char>>, b: Seq<Seq<char>>, width: nat)
    ensures
        profiles_in(a + b, width) == profiles_in(a, width) + profiles_in(b, width),
    decreases b.len(),
{
    if b.len() == 0 {
        assert(a + b =~= a);
        assert(profiles_in(a, width) + profiles_in(b, width) =~= profiles_in(a, width));
    } else {
        assert((a + b).drop_last() =~= a + b.drop_last());
        lemma_profiles_add_up(a, b.drop_last(), width);
        assert(profiles_in(a + b, width) =~= profiles_in(a, width) + profiles_in(b, width));
    }
}

/// A profile is an access point exactly if the answer for its mode is `ap`.
pub proof fn law_access_points_say_so(pad: Seq<char>, mode: Seq<char>, end: Seq<char>)
    requires
        blank(pad),
        snug(mode),
        blank(end),
    ensures
        says_ap(pad + mode + end) <==> mode == seq!['a', 'p'],
{
    reveal_strlit("ap");
    assert("ap"@ =~= seq!['a', 'p']);
    law_trimming_leaves_the_middle(pad, mode, end);
}

/// Of several answers the first one with something in it counts, without the white space around
/// it.
pub proof fn law_the_first_answer_counts(
    before: Seq<Seq<char>>,
    pad: Seq<char>,
    name: Seq<char>,
    end: Seq<char>,
    after: Seq<Seq<char>>,
)
    requires
        forall|i: int| 0 <= i < before.len() ==> blank(#[trigger] before[i]),
        blank(pad),
        name.len() > 0,
        snug(name),
        blank(end),
    ensures
        first_said(before + seq![pad + name + end] + after) == Some(name),
        first_said(before) is None,
    decreases before.len(),
{
    let all = before + seq![pad + name + end] + after;
    if before.len() == 0 {
        assert(all[0] == pad + name + end);
        law_trimming_leaves_the_middle(pad, name, end);
    } else {
        let none = Seq::<char>::empty();
        let rest = before.skip(1);
        assert(all[0] == before[0]);
        assert(before[0] + none + none =~= before[0]);
        law_trimming_leaves_the_middle(before[0], none, none);
        assert forall|i: int| 0 <= i < rest.len() implies blank(#[trigger] rest[i]) by {
            assert(rest[i] == before[i + 1]);
        }
        law_the_first_answer_counts(rest, pad, name, end, after);
        assert(all.skip(1) =~= rest + seq![pad + name + end] + after);
    }
}

/// The uplink gets a radio wherever one is free: the first Wi-Fi device on the list that no active
/// access point is on and that none is pinned to.
pub proof fn law_a_free_radio_is_found(
    active: Seq<Profile>,
    pins: Seq<Seq<char>>,
    devices: Seq<char>,
    k: int,
    d: Seq<char>,
)
    requires
        0 <= k < line_seq(devices).len(),
        row_fields(line_seq(devices)[k]).len() >= 2,
        row_fields(line_seq(devices)[k])[0] == d,
        row_fields(line_seq(devices)[k])[1] == "wifi"@,
        forall|i: int| 0 <= i < active.len() ==> (#[trigger] active[i]).device != d,
        forall|i: int| 0 <= i < pins.len() ==> trimmed(#[trigger] pins[i]) != d,
    ensures
        free_device(active, pins, devices) is Some,
        (forall|j: int|
            0 <= j < k && row_fields(#[trigger] line_seq(devices)[j]).len() >= 2 ==> row_fields(
                line_seq(devices)[j],
            )[1] != "wifi"@) ==> free_device(active, pins, devices) == Some(d),
{
    lemma_only_those_are_taken(active, pins, d);
    lemma_a_free_one_is_found(line_seq(devices), ap_devices(active, pins), k);
}

proof fn lemma_only_those_are_taken(active: Seq<Profile>, pins: Seq<Seq<char>>, d: Seq<char>)
    requires
        forall|i: int| 0 <= i < active.len() ==> (#[trigger] active[i]).device != d,
        forall|i: int| 0 <= i < pins.len() ==> trimmed(#[trigger] pins[i]) != d,
    ensures
        !ap_devices(active, pins).contains(d),
    decreases pins.len(),
{
    let now = ap_devices(active, pins);
    if pins.len() == 0 {
        assert forall|i: int| 0 <= i < now.len() implies now[i] != d by {
            assert(now[i] == active[i].device);
        }
    } else {
        let init = pins.drop_last();
        assert forall|i: int| 0 <= i < init.len() implies trimmed(#[trigger] init[i]) != d by {
            assert(init[i] == pins[i]);
        }
        lemma_only_those_are_taken(active, init, d);
        let before = ap_devices(active, init);
        assert(trimmed(pins[pins.len() - 1]) != d);
        assert forall|i: int| 0 <= i < now.len() implies now[i] != d by {
            if i < before.len() {
                assert(before.contains(before[i]));
                assert(now[i] == before[i]);
            }
        }
    }
}

proof fn lemma_a_free_one_is_found(lines: Seq<Seq<char>>, taken: Seq<Seq<char>>, k: int)
    requires
        0 <= k < lines.len(),
        row_fields(lines[k]).len() >= 2,
        row_fields(lines[k])[1] == "wifi"@,
        !taken.contains(row_fields(lines[k])[0]),
    ensures
        first_free(lines, taken) is Some,
        (forall|j: int|
            0 <= j < k && row_fields(#[trigger] lines[j]).len() >= 2 ==> row_fields(lines[j])[1]
                != "wifi"@) ==> first_free(lines, taken) == Some(row_fields(lines[k])[0]),
    decreases k,
{
    if k > 0 {
        let rest = lines.skip(1);
        assert(rest[k - 1] == lines[k]);
        lemma_a_free_one_is_found(rest, taken, k - 1);
        if forall|j: int|
            0 <= j < k && row_fields(#[trigger] lines[j]).len() >= 2 ==> row_fields(lines[j])[1]
                != "wifi"@ {
            assert(row_fields(lines[0]).len() >= 2 ==> row_fields(lines[0])[1] != "wifi"@);
            assert forall|j: int|
                0 <= j < k - 1 && row_fields(#[trigger] rest[j]).len() >= 2 implies row_fields(
                rest[j],
            )[1] != "wifi"@ by {
                assert(rest[j] == lines[j + 1]);
            }
        }
    }
}

/// Every network can be joined but these: one without a name, one with a name of more than 32
/// bytes, one whose name begins like a flag, and those whose names are words of the command.
pub proof fn law_which_networks_can_be_joined(ssid: Seq<char>, device: Seq<char>)
    ensures
        join_refusal(ssid, Some(device)) is None <==> ssid.len() > 0 && encode_utf8(ssid).len() <= 32
            && ssid[0] != '-' && ssid != "password"@ && ssid != "ifname"@ && ssid != "bssid"@
            && ssid != "hidden"@ && ssid != "name"@ && ssid != "private"@ && ssid
            != "wep-key-type"@,
        join_refusal(ssid, None) is Some,
        ssid.len() == 0 ==> join_refusal(ssid, Some(device)) == Some("pick a network"@),
        encode_utf8(ssid).len() > 32 && ssid.len() > 0 ==> join_refusal(ssid, Some(device)) == Some(
            "network name too long (max 32 characters)"@,
        ),
        join_refusal(ssid, Some(device)) is None ==> join_refusal(ssid, None) == Some(
            "no spare Wi-Fi radio — the only one carries the classroom AP"@,
        ),
{
}

/// A join is one command, word for word; the password is named exactly if there is one.
pub proof fn law_joins_name_network_radio_and_password(
    ssid: Seq<char>,
    device: Seq<char>,
    password: Seq<char>,
)
    ensures
        join_args(ssid, device, Seq::empty()) == seq![
            "device"@,
            "wifi"@,
            "connect"@,
            ssid,
            "ifname"@,
            device,
        ],
        password.len() > 0 ==> join_args(ssid, device, password) == join_args(
            ssid,
            device,
            Seq::empty(),
        ) + seq!["password"@, password],
{
}

/// What went wrong is told as the command said it, without the white space around it; a command
/// that succeeded went right whatever it said.
pub proof fn law_failures_are_told(ran: Ran, pad: Seq<char>, said: Seq<char>, end: Seq<char>)
    requires
        blank(pad),
        snug(said),
        blank(end),
    ensures
        match ran {
            Ran::Exit { success, stderr } => {
                &&& success ==> failure(ran) is None
                &&& !success && text_in(stderr@) == pad + said + end ==> failure(ran) == Some(said)
                &&& !success ==> failure(ran) is Some
            },
            Ran::NotRun(e) => failure(ran) == Some(e@),
        },
{
    law_trimming_leaves_the_middle(pad, said, end);
}

/// Forgetting goes through the profiles in order: as long as nothing fails the next one is deleted,
/// by its name; it is done when all are; the first failure ends it and is what is told; and to have
/// had none to delete is a failure.
pub proof fn law_forgetting_goes_in_order(
    stations: Seq<Profile>,
    ran: Seq<Ran>,
    f: Forget,
    i: int,
)
    requires
        forget_step(stations, ran, f),
    ensures
        (forall|j: int| 0 <= j < ran.len() ==> failure(#[trigger] ran[j]) is None) ==> {
            &&& ran.len() < stations.len() ==> f is Delete && f->Delete_0.deep_view() == seq![
                "connection"@,
                "delete"@,
                stations[ran.len() as int].name,
            ]
            &&& ran.len() >= stations.len() && ran.len() > 0 ==> f is Done && f->Done_0 is Ok
            &&& ran.len() >= stations.len() && ran.len() == 0 ==> f is Done && f->Done_0 is Err
                && (f->Done_0)->Err_0@ == "no stored uplink to forget"@
        },
        0 <= i < ran.len() && failure(ran[i]) is Some && (forall|j: int|
            0 <= j < i ==> failure(#[trigger] ran[j]) is None) ==> f is Done && f->Done_0 is Err
            && Some((f->Done_0)->Err_0@) == failure(ran[i]),
{
    lemma_first_failure(ran, ran.len() as int);
    if 0 <= i < ran.len() {
        lemma_first_failure(ran, i);
    }
}

proof fn lemma_first_failure(ran: Seq<Ran>, i: int)
    requires
        0 <= i <= ran.len(),
    ensures
        (forall|j: int| 0 <= j < i ==> failure(#[trigger] ran[j]) is None) ==> (if i < ran.len() {
            failure(ran[i]) is Some ==> first_failure(ran) == failure(ran[i])
        } else {
            first_failure(ran) is None
        }),
    decreases i,
{
    if i > 0 && forall|j: int| 0 <= j < i ==> failure(#[trigger] ran[j]) is None {
        let rest = ran.skip(1);
        assert(failure(ran[0]) is None);
        assert forall|j: int| 0 <= j < i - 1 implies failure(#[trigger] rest[j]) is None by {
            assert(rest[j] == ran[j + 1]);
        }
        lemma_first_failure(rest, i - 1);
        assert(i < ran.len() ==> rest[i - 1] == ran[i]);
    }
}

/// The questions about a profile name it last, behind what is asked.
pub proof fn law_questions_name_the_profile(name: Seq<char>)
    ensures
        mode_args(name) == seq!["-g"@, "802-11-wireless.mode"@, "connection"@, "show"@, name],
        ssid_args(name) == mode_args(name).update(1, "802-11-wireless.ssid"@),
        pin_args(name) == mode_args(name).update(1, "connection.interface-name"@),
{
    assert(ssid_args(name) =~= mode_args(name).update(1, "802-11-wireless.ssid"@));
    assert(pin_args(name) =~= mode_args(name).update(1, "connection.interface-name"@));
}

/// The badge that is shown is the one for what the text says in capitals.
pub proof fn law_badges_are_shown(sec: &str, r: String)
    requires
        call_ensures(map_auth, (sec,), r),
    ensures
        r@ == security_token(capital(sec@)),
{
}

/// A join is tried exactly if it names a network, with the name and the password that were given;
/// otherwise it is answered as bad.
pub proof fn law_joins_without_a_network_are_bad(ssid: Seq<char>, password: Seq<char>, j: Join)
    requires
        join_step(ssid, password, j),
    ensures
        j is Try <==> ssid.len() > 0,
        j is Try ==> j->Try_ssid@ == ssid && j->Try_password@ == password,
        j is Answer ==> j->Answer_0.0@ == "400 Bad Request"@ && j->Answer_0.2@
            == "{\"ok\":false,\"error\":\"missing ssid\"}"@,
{
}

/// Networks are listed in the order in which they were seen first: more lines only add to the list.
pub proof fn law_networks_come_in_order(lines: Seq<Seq<char>>, line: Seq<char>)
    ensures
        nets_in(lines).is_prefix_of(nets_in(lines.push(line))),
        nets_in(lines.push(line)).len() <= nets_in(lines).len() + 1,
{
    assert(lines.push(line).drop_last() =~= lines);
    let before = nets_in(lines);
    let after = nets_in(lines.push(line));
    assert(after.subrange(0, before.len() as int) =~= before);
}

/// Profiles are picked one by one, in order, each by the answer for its own mode; one without an
/// answer is no access point.
pub proof fn law_profiles_are_picked_one_by_one(
    ps: Seq<Profile>,
    p: Profile,
    modes: Seq<Seq<char>>,
    ap: bool,
)
    ensures
        in_mode(Seq::empty(), modes, ap).len() == 0,
        ps.len() < modes.len() ==> in_mode(ps.push(p), modes, ap) == if says_ap(
            modes[ps.len() as int],
        ) == ap {
            in_mode(ps, modes, ap).push(p)
        } else {
            in_mode(ps, modes, ap)
        },
        ps.len() >= modes.len() ==> in_mode(ps.push(p), modes, ap) == if ap {
            in_mode(ps, modes, ap)
        } else {
            in_mode(ps, modes, ap).push(p)
        },
{
    assert(ps.push(p).drop_last() =~= ps);
    if ps.len() >= modes.len() {
        let none = Seq::<char>::empty();
        law_access_points_say_so(none, none, none);
        assert(none + none + none =~= none);
    }
}

/// A row is read character by character: a colon ends a field, a backslash makes whatever follows it
/// stand for itself, and one that nothing follows is left out; every other character belongs to the
/// field it stands in.
pub proof fn law_rows_are_read_character_by_character(c: char, rest: Seq<char>, cur: Seq<char>)
    ensures
        fields_from(seq!['\\', c] + rest, cur) == fields_from(rest, cur.push(c)),
        fields_from(seq!['\\'], cur) == seq![cur],
        fields_from(seq![':'] + rest, cur) == seq![cur] + row_fields(rest),
        c != ':' && c != '\\' ==> fields_from(seq![c] + rest, cur) == fields_from(
            rest,
            cur.push(c),
        ),
        fields_from(Seq::empty(), cur) == seq![cur],
{
    assert((seq!['\\', c] + rest).skip(2) =~= rest);
    assert((seq![':'] + rest).skip(1) =~= rest);
    assert((seq![c] + rest).skip(1) =~= rest);
}

} // verus!
