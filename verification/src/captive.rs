//! The captive greeting: which devices are on the access point, which of them have accepted, and
//! for how long that lasts.
//!
//! A device that has tapped Accept is released: its probes get the answers of a clean network. The
//! release lasts as long as the device stays associated, and ninety seconds more. Running the
//! tools that tell who is associated is the caller's part; reading what they print, and deciding,
//! is done here.
use vstd::prelude::*;
use vstd::string::*;

use crate::address::{addr_text, Addr, Ip};
use crate::http::{
    header_in, law_absent_headers_are_not_found, law_headers_are_found, not_headed, scan_lines,
};
use crate::number::decimal;
use crate::text::{
    ascii_lower, before, blank, chars, head_field, is_space, law_separators_cut,
    law_trimming_leaves_the_middle, law_white_space_parts_words, line_seq, lines, listed,
    lower_char, lowered, same, snug, starts_with, string_of, trim, trimmed, word_seq, words,
};

verus! {

// ---- What the tools print ----

/// What follows a prefix of a text; nothing where the text does not start with it.
pub open spec fn after_prefix(s: Seq<char>, prefix: Seq<char>) -> Option<Seq<char>> {
    if prefix.is_prefix_of(s) {
        Some(s.skip(prefix.len() as int))
    } else {
        None
    }
}

fn strip_prefix(s: &str, prefix: &str) -> (r: Option<String>)
    ensures
        match r {
            Some(t) => after_prefix(s@, prefix@) == Some(t@),
            None => after_prefix(s@, prefix@) is None,
        },
{
    if starts_with(s, prefix) {
        let v = chars(s);
        let n: usize = chars(prefix).len();
        let t = string_of(&v, n, v.len());
        assert(t@ =~= s@.skip(n as int));
        Some(t)
    } else {
        None
    }
}

/// The interface that `iw dev` lists as an access point, given the interface whose block was last
/// begun. A block without a name ends the one before it.
pub open spec fn ap_in(lines: Seq<Seq<char>>, name: Option<Seq<char>>) -> Option<Seq<char>>
    decreases lines.len(),
{
    if lines.len() == 0 {
        None
    } else {
        let t = trimmed(lines[0]);
        match after_prefix(t, "Interface "@) {
            Some(n) => ap_in(lines.skip(1), Some(trimmed(n))),
            None => if "Unnamed/non-netdev"@.is_prefix_of(t) {
                ap_in(lines.skip(1), None)
            } else if t == "type AP"@ && name is Some {
                name
            } else {
                ap_in(lines.skip(1), name)
            },
        }
    }
}

/// The text inside an optional string.
pub open spec fn opt_text(s: Option<String>) -> Option<Seq<char>> {
    match s {
        Some(t) => Some(t@),
        None => None,
    }
}

/// The access point's interface, from what `iw dev` prints: found by its type, never by its name.
pub fn parse_ap_iface(text: &str) -> (r: Option<String>)
    ensures
        opt_text(r) == ap_in(line_seq(text@), None),
{
    let ls = lines(text);
    let ghost dv = line_seq(text@);
    let mut name: Option<String> = None;
    let mut i: usize = 0;
    assert(dv.skip(0) =~= dv);
    while i < ls.len()
        invariant
            ls.deep_view() == dv,
            dv == line_seq(text@),
            i <= ls@.len(),
            ap_in(dv.skip(i as int), opt_text(name)) == ap_in(dv, None),
        decreases ls@.len() - i,
    {
        assert(dv.skip(i as int)[0] == ls@[i as int]@);
        assert(dv.skip(i as int).skip(1) =~= dv.skip(i + 1));
        let t = trim(ls[i].as_str());
        match strip_prefix(t.as_str(), "Interface ") {
            Some(n) => {
                name = Some(trim(n.as_str()));
            },
            None => {
                if starts_with(t.as_str(), "Unnamed/non-netdev") {
                    name = None;
                } else if same(t.as_str(), "type AP") && name.is_some() {
                    return name;
                }
            },
        }
        i += 1;
    }
    None
}

/// The station that a line of `iw dev <ap> station dump` begins.
pub open spec fn station_of(line: Seq<char>) -> Option<Seq<char>> {
    match after_prefix(line, "Station "@) {
        Some(rest) => if word_seq(rest).len() > 0 {
            Some(lowered(word_seq(rest)[0]))
        } else {
            None
        },
        None => None,
    }
}

/// The stations that lines begin.
pub open spec fn stations(lines: Seq<Seq<char>>) -> Set<Seq<char>>
    decreases lines.len(),
{
    if lines.len() == 0 {
        Set::empty()
    } else {
        match station_of(lines.last()) {
            Some(m) => stations(lines.drop_last()).insert(m),
            None => stations(lines.drop_last()),
        }
    }
}

/// Hardware addresses, each once.
pub struct MacSet {
    macs: Vec<String>,
}

impl MacSet {
    #[verifier::type_invariant]
    spec fn each_once(self) -> bool {
        self.macs.deep_view().no_duplicates()
    }

    pub closed spec fn view(&self) -> Set<Seq<char>> {
        self.macs.deep_view().to_set()
    }

    pub fn len(&self) -> (n: usize)
        ensures
            n == self@.len(),
    {
        proof {
            use_type_invariant(self);
            self.macs.deep_view().unique_seq_to_set();
        }
        self.macs.len()
    }

    pub fn is_empty(&self) -> (r: bool)
        ensures
            r == (self@ == Set::<Seq<char>>::empty()),
    {
        if self.macs.len() == 0 {
            assert(self@ =~= Set::<Seq<char>>::empty());
            true
        } else {
            assert(self@.contains(self.macs.deep_view()[0]));
            false
        }
    }

    pub fn contains(&self, mac: &str) -> (r: bool)
        ensures
            r == self@.contains(mac@),
    {
        listed(&self.macs, mac)
    }
}

/// The devices that are associated, from what `iw dev <ap> station dump` prints. No lines mean
/// that nobody is there, which is not the same as not having been able to ask.
pub fn parse_station_macs(text: &str) -> (r: MacSet)
    ensures
        r@ == stations(line_seq(text@)),
{
    let ls = lines(text);
    let ghost dv = line_seq(text@);
    let mut macs: Vec<String> = Vec::new();
    let mut i: usize = 0;
    assert(dv.take(0) =~= Seq::<Seq<char>>::empty());
    assert(macs.deep_view() =~= Seq::<Seq<char>>::empty());
    assert(macs.deep_view().to_set() =~= Set::<Seq<char>>::empty());
    while i < ls.len()
        invariant
            ls.deep_view() == dv,
            i <= ls@.len(),
            macs.deep_view().no_duplicates(),
            macs.deep_view().to_set() == stations(dv.take(i as int)),
        decreases ls@.len() - i,
    {
        let ghost t = dv.take(i + 1);
        assert(t.drop_last() =~= dv.take(i as int));
        assert(t.last() == ls@[i as int]@);
        match strip_prefix(ls[i].as_str(), "Station ") {
            Some(rest) => {
                let ws = words(rest.as_str());
                if ws.len() > 0 {
                    assert(ws.deep_view()[0] == ws@[0]@);
                    let m = ascii_lower(ws[0].as_str());
                    let ghost before = macs.deep_view();
                    if listed(&macs, m.as_str()) {
                        assert(before.to_set().insert(m@) =~= before.to_set());
                    } else {
                        macs.push(m);
                        assert(macs.deep_view() =~= before.push(m@));
                        assert(macs.deep_view().to_set() =~= before.to_set().insert(m@)) by {
                            let now = macs.deep_view();
                            assert forall|x: Seq<char>| #[trigger]
                                before.to_set().insert(m@).contains(x) implies now.to_set().contains(
                                x,
                            ) by {
                                if x == m@ {
                                    assert(now[before.len() as int] == x);
                                } else {
                                    let k = before.index_of(x);
                                    assert(now[k] == x);
                                }
                            }
                        }
                    }
                }
            },
            None => {},
        }
        i += 1;
    }
    assert(dv.take(i as int) =~= dv);
    MacSet { macs }
}

/// What follows the word `lladdr`.
pub open spec fn link_address(fields: Seq<Seq<char>>) -> Option<Seq<char>>
    decreases fields.len(),
{
    if fields.len() == 0 {
        None
    } else if fields[0] == "lladdr"@ {
        if fields.len() > 1 {
            Some(lowered(fields[1]))
        } else {
            None
        }
    } else {
        link_address(fields.skip(1))
    }
}

/// The hardware address in the first line that is about an address.
pub open spec fn mac_in(lines: Seq<Seq<char>>, ip: Seq<char>) -> Option<Seq<char>>
    decreases lines.len(),
{
    if lines.len() == 0 {
        None
    } else {
        let ws = word_seq(lines[0]);
        if ws.len() > 0 && ws[0] == ip {
            link_address(ws.skip(1))
        } else {
            mac_in(lines.skip(1), ip)
        }
    }
}

fn find_link_address(ws: &Vec<String>) -> (r: Option<String>)
    requires
        ws@.len() > 0,
    ensures
        opt_text(r) == link_address(ws.deep_view().skip(1)),
{
    let ghost dv = ws.deep_view();
    let mut i: usize = 1;
    while i < ws.len()
        invariant
            dv == ws.deep_view(),
            1 <= i <= ws@.len(),
            link_address(dv.skip(i as int)) == link_address(dv.skip(1)),
        decreases ws@.len() - i,
    {
        let ghost rest = dv.skip(i as int);
        assert(rest[0] == ws@[i as int]@);
        assert(rest.skip(1) =~= dv.skip(i + 1));
        if same(ws[i].as_str(), "lladdr") {
            if i + 1 < ws.len() {
                assert(rest[1] == ws@[i + 1]@);
                return Some(ascii_lower(ws[i + 1].as_str()));
            }
            return None;
        }
        i += 1;
    }
    None
}

/// The hardware address that answers for an address, from what `ip neigh show` prints, whatever
/// the state of the entry. An entry that failed has none.
pub fn parse_mac_for_ip(text: &str, ip: &Ip) -> (r: Option<String>)
    ensures
        opt_text(r) == mac_in(line_seq(text@), addr_text(ip@)),
{
    let ip_text = ip.text();
    let ls = lines(text);
    let ghost dv = line_seq(text@);
    let mut i: usize = 0;
    assert(dv.skip(0) =~= dv);
    while i < ls.len()
        invariant
            ls.deep_view() == dv,
            dv == line_seq(text@),
            i <= ls@.len(),
            ip_text@ == addr_text(ip@),
            mac_in(dv.skip(i as int), ip_text@) == mac_in(dv, ip_text@),
        decreases ls@.len() - i,
    {
        assert(dv.skip(i as int)[0] == ls@[i as int]@);
        assert(dv.skip(i as int).skip(1) =~= dv.skip(i + 1));
        let ws = words(ls[i].as_str());
        if ws.len() > 0 {
            assert(ws.deep_view()[0] == ws@[0]@);
            if same(ws[0].as_str(), ip_text.as_str()) {
                return find_link_address(&ws);
            }
        }
        i += 1;
    }
    None
}

// ---- Releases ----

/// How long a released device may be away before it is greeted again: ninety seconds, in
/// nanoseconds.
pub const GRACE: u64 = 90_000_000_000;

/// The release of one device: who tapped Accept, the address it held, and when it was last seen.
pub struct Ack {
    mac: Option<String>,
    ip: Ip,
    seen: u64,
}

/// A release, in contracts.
pub struct Release {
    pub mac: Option<Seq<char>>,
    pub ip: Addr,
    pub seen: u64,
}

impl View for Ack {
    type V = Release;

    closed spec fn view(&self) -> Release {
        Release { mac: opt_text(self.mac), ip: self.ip@, seen: self.seen }
    }
}

/// The devices that are released.
pub struct Acks {
    list: Vec<Ack>,
}

impl View for Acks {
    type V = Seq<Release>;

    closed spec fn view(&self) -> Seq<Release> {
        Seq::new(self.list@.len(), |i: int| self.list@[i]@)
    }
}

/// Is the device at this address released?
pub open spec fn is_released(acks: Seq<Release>, ip: Addr) -> bool {
    exists|i: int| 0 <= i < acks.len() && #[trigger] acks[i].ip == ip
}

/// The releases of other addresses.
pub open spec fn without(acks: Seq<Release>, ip: Addr) -> Seq<Release>
    decreases acks.len(),
{
    if acks.len() == 0 {
        Seq::empty()
    } else if acks.last().ip == ip {
        without(acks.drop_last(), ip)
    } else {
        without(acks.drop_last(), ip).push(acks.last())
    }
}

/// The releases after an Accept: one for the address, the newest.
pub open spec fn accepted(
    acks: Seq<Release>,
    mac: Option<Seq<char>>,
    ip: Addr,
    now: u64,
) -> Seq<Release> {
    without(acks, ip).push(Release { mac, ip, seen: now })
}

/// A release after the stations were asked for: a device that is associated was seen now. One
/// whose hardware address is not known cannot be looked for.
pub open spec fn seen_again(a: Release, here: Set<Seq<char>>, now: u64) -> Release {
    match a.mac {
        Some(m) if here.contains(m) => Release { seen: now, ..a },
        _ => a,
    }
}

/// Does a release still hold?
pub open spec fn holds(a: Release, now: u64) -> bool {
    now - a.seen < GRACE
}

/// The releases that still hold, after the stations were asked for.
pub open spec fn kept(acks: Seq<Release>, here: Set<Seq<char>>, now: u64) -> Seq<Release>
    decreases acks.len(),
{
    if acks.len() == 0 {
        Seq::empty()
    } else {
        let a = seen_again(acks.last(), here, now);
        if holds(a, now) {
            kept(acks.drop_last(), here, now).push(a)
        } else {
            kept(acks.drop_last(), here, now)
        }
    }
}

/// The addresses whose releases no longer hold.
pub open spec fn lapsed(acks: Seq<Release>, here: Set<Seq<char>>, now: u64) -> Seq<Addr>
    decreases acks.len(),
{
    if acks.len() == 0 {
        Seq::empty()
    } else if holds(seen_again(acks.last(), here, now), now) {
        lapsed(acks.drop_last(), here, now)
    } else {
        lapsed(acks.drop_last(), here, now).push(acks.last().ip)
    }
}

/// The addresses in a list.
pub open spec fn addrs(l: Seq<Ip>) -> Seq<Addr> {
    Seq::new(l.len(), |i: int| l[i]@)
}

impl Acks {
    pub fn new() -> (r: Acks)
        ensures
            r@ == Seq::<Release>::empty(),
    {
        let r = Acks { list: Vec::new() };
        assert(r@ =~= Seq::<Release>::empty());
        r
    }

    pub fn is_empty(&self) -> (r: bool)
        ensures
            r == (self@.len() == 0),
    {
        self.list.len() == 0
    }

    /// Has the device at this address tapped Accept?
    pub fn is_acked(&self, ip: &Ip) -> (r: bool)
        ensures
            r == is_released(self@, ip@),
    {
        let mut i: usize = 0;
        while i < self.list.len()
            invariant
                i <= self@.len(),
                forall|j: int| 0 <= j < i ==> (#[trigger] self@[j]).ip != ip@,
            decreases self@.len() - i,
        {
            if self.list[i].ip.equals(ip) {
                assert(self@[i as int].ip == ip@);
                return true;
            }
            i += 1;
        }
        false
    }

    /// A device has tapped Accept.
    pub fn accept(&mut self, mac: Option<String>, ip: Ip, now: u64)
        ensures
            final(self)@ == accepted(old(self)@, opt_text(mac), ip@, now),
    {
        let ghost acks = self@;
        let ghost mut done: int = 0;
        let mut i: usize = 0;
        assert(acks.take(0) =~= Seq::<Release>::empty());
        assert(self@ =~= without(acks.take(0), ip@) + acks.skip(0));
        while i < self.list.len()
            invariant
                0 <= done <= acks.len(),
                i <= self@.len(),
                self@.len() - i == acks.len() - done,
                self@.take(i as int) == without(acks.take(done), ip@),
                self@.skip(i as int) == acks.skip(done),
            decreases self@.len() - i,
        {
            let ghost before = self@;
            let ghost t = acks.take(done + 1);
            assert(t.drop_last() =~= acks.take(done));
            assert(t.last() == acks.skip(done)[0]);
            assert(before.skip(i as int)[0] == before[i as int]);
            if self.list[i].ip.equals(&ip) {
                self.list.remove(i);
                assert(self@ =~= before.remove(i as int));
                assert(self@.take(i as int) =~= before.take(i as int));
                assert(self@.skip(i as int) =~= before.skip(i as int).skip(1));
            } else {
                i += 1;
                assert(self@.take(i as int) =~= before.take(i - 1).push(before[i - 1]));
                assert(self@.skip(i as int) =~= before.skip(i - 1).skip(1));
            }
            assert(acks.skip(done).skip(1) =~= acks.skip(done + 1));
            proof {
                done = done + 1;
            }
        }
        assert(acks.take(acks.len() as int) =~= acks);
        assert(self@.take(i as int) =~= self@);
        let ghost left = self@;
        self.list.push(Ack { mac, ip, seen: now });
        assert(self@ =~= left.push(Release { mac: opt_text(mac), ip: ip@, seen: now }));
    }

    /// Takes in who is associated: those are seen, and the releases of devices that have been
    /// away for too long lapse. Their addresses are handed back, to be captured again.
    pub fn reap(&mut self, here: &MacSet, now: u64) -> (expired: Vec<Ip>)
        ensures
            final(self)@ == kept(old(self)@, here@, now),
            addrs(expired@) == lapsed(old(self)@, here@, now),
    {
        let ghost acks = self@;
        let ghost mut done: int = 0;
        let mut expired: Vec<Ip> = Vec::new();
        let mut i: usize = 0;
        assert(acks.take(0) =~= Seq::<Release>::empty());
        assert(self@ =~= kept(acks.take(0), here@, now) + acks.skip(0));
        assert(addrs(expired@) =~= Seq::<Addr>::empty());
        while i < self.list.len()
            invariant
                0 <= done <= acks.len(),
                i <= self@.len(),
                self@.len() - i == acks.len() - done,
                self@.take(i as int) == kept(acks.take(done), here@, now),
                self@.skip(i as int) == acks.skip(done),
                addrs(expired@) == lapsed(acks.take(done), here@, now),
            decreases self@.len() - i,
        {
            let ghost before = self@;
            let ghost t = acks.take(done + 1);
            assert(t.drop_last() =~= acks.take(done));
            assert(t.last() == acks.skip(done)[0]);
            assert(before.skip(i as int)[0] == before[i as int]);
            assert(before[i as int] == self.list@[i as int]@);
            let associated = match &self.list[i].mac {
                Some(m) => here.contains(m.as_str()),
                None => false,
            };
            let seen: u64 = if associated {
                now
            } else {
                self.list[i].seen
            };
            let ghost a = seen_again(t.last(), here@, now);
            assert(a.seen == seen);
            if now >= seen && now - seen >= GRACE {
                let gone = self.list.remove(i);
                let ghost so_far = addrs(expired@);
                expired.push(gone.ip);
                assert(addrs(expired@) =~= so_far.push(t.last().ip));
                assert(self@ =~= before.remove(i as int));
                assert(self@.take(i as int) =~= before.take(i as int));
                assert(self@.skip(i as int) =~= before.skip(i as int).skip(1));
            } else {
                self.list[i].seen = seen;
                assert(self@ =~= before.update(i as int, a));
                i += 1;
                assert(self@.take(i as int) =~= before.take(i - 1).push(a));
                assert(self@.skip(i as int) =~= before.skip(i - 1).skip(1));
            }
            assert(acks.skip(done).skip(1) =~= acks.skip(done + 1));
            proof {
                done = done + 1;
            }
        }
        assert(acks.take(acks.len() as int) =~= acks);
        assert(self@.take(i as int) =~= self@);
        expired
    }
}

/// What a round of the reaper comes to.
pub struct Round {
    /// The addresses to be captured again.
    pub expired: Vec<Ip>,
    /// Should it be said that nobody can be asked who is there?
    pub say: bool,
}

/// The reaper of releases; it remembers whether it has said that it cannot ask.
pub struct Reaper {
    warned: bool,
}

impl Reaper {
    pub closed spec fn view(&self) -> bool {
        self.warned
    }

    pub fn new() -> (r: Reaper)
        ensures
            !r@,
    {
        Reaper { warned: false }
    }

    /// One round. Not knowing who is there is not the same as nobody being there: a round that
    /// could not ask lets no release lapse, and the first such round in a row says so. Where nobody
    /// is released there is nothing to ask, and nothing to say.
    pub fn round(&mut self, acks: &mut Acks, here: &Option<MacSet>, now: u64) -> (r: Round)
        ensures
            match here {
                Some(h) => {
                    &&& final(acks)@ == kept(old(acks)@, h@, now)
                    &&& addrs(r.expired@) == lapsed(old(acks)@, h@, now)
                    &&& final(self)@ == (old(self)@ && old(acks)@.len() == 0)
                },
                None => {
                    &&& final(acks)@ == old(acks)@
                    &&& r.expired@.len() == 0
                    &&& final(self)@ == (old(self)@ || old(acks)@.len() > 0)
                },
            },
            r.say == (here is None && !old(self)@ && old(acks)@.len() > 0),
    {
        if acks.is_empty() {
            let expired: Vec<Ip> = Vec::new();
            assert(addrs(expired@) =~= Seq::<Addr>::empty());
            assert(acks@ =~= Seq::<Release>::empty());
            return Round { expired, say: false };
        }
        match here {
            Some(h) => {
                self.warned = false;
                let expired = acks.reap(h, now);
                Round { expired, say: false }
            },
            None => {
                let say = !self.warned;
                self.warned = true;
                Round { expired: Vec::new(), say }
            },
        }
    }
}

/// Who is associated, from how `iw dev <ap> station dump` ended and what it printed: unknown where
/// it failed.
pub fn associated(success: bool, text: &str) -> (r: Option<MacSet>)
    ensures
        match r {
            Some(m) => success && m@ == stations(line_seq(text@)),
            None => !success,
        },
{
    if success {
        Some(parse_station_macs(text))
    } else {
        None
    }
}

/// The arguments of `nft` that put an address into the set of released ones, or take it out; the
/// set holds IPv4 alone.
pub open spec fn nft_args(op: Seq<char>, ip: Addr) -> Option<Seq<Seq<char>>> {
    match ip {
        Addr::V4(..) => Some(
            seq![
                op,
                "element"@,
                "ip"@,
                "hub-captive"@,
                "acked"@,
                "{ "@ + addr_text(ip) + " }"@,
            ],
        ),
        Addr::V6(_) => None,
    }
}

/// The command that releases an address at the packet layer (`add`) or captures it (`delete`).
pub fn nft_acked(op: &str, ip: &Ip) -> (r: Option<Vec<String>>)
    ensures
        match r {
            Some(args) => nft_args(op@, ip@) == Some(args.deep_view()),
            None => nft_args(op@, ip@) is None,
        },
{
    match ip {
        Ip::V4(..) => {
            let mut braced = "{ ".to_owned();
            braced.append(ip.text().as_str());
            braced.append(" }");
            let args: Vec<String> = vec![
                op.to_owned(),
                "element".to_owned(),
                "ip".to_owned(),
                "hub-captive".to_owned(),
                "acked".to_owned(),
                braced,
            ];
            assert(args.deep_view() =~= seq![
                op@,
                "element"@,
                "ip"@,
                "hub-captive"@,
                "acked"@,
                "{ "@ + addr_text(ip@) + " }"@,
            ]);
            Some(args)
        },
        Ip::V6(_) => None,
    }
}

// ---- Whom a request is for ----

/// Is this host, without its port, a name of the hub? Its addresses, its name on the local
/// network, loopback, and every bare label.
pub open spec fn is_own_name(host: Seq<char>) -> bool {
    ||| host == "10.42.0.1"@
    ||| host == "hub.local"@
    ||| host == "10.55.0.1"@
    ||| "127."@.is_prefix_of(host)
    ||| host.len() > 0 && !host.contains('.')
}

/// Is a request addressed to another server, so that only the captive capture can have brought it
/// here? Without a `Host` it counts as the hub's own, and so does a bracketed IPv6 host.
pub open spec fn is_foreign(req: Seq<char>) -> bool {
    match header_in(line_seq(req), "host"@) {
        Some(v) => {
            let host = trimmed(v);
            !(host.len() > 0 && host[0] == '[') && !is_own_name(head_field(host, ':'))
        },
        None => false,
    }
}

fn bare_label(host: &str) -> (r: bool)
    ensures
        r == (host@.len() > 0 && !host@.contains('.')),
{
    let v = chars(host);
    let mut i: usize = 0;
    while i < v.len()
        invariant
            v@ == host@,
            i <= v@.len(),
            forall|j: int| 0 <= j < i ==> v@[j] != '.',
        decreases v@.len() - i,
    {
        if v[i] == '.' {
            assert(host@.contains(host@[i as int]));
            return false;
        }
        i += 1;
    }
    v.len() > 0
}

fn own_name(host: &str) -> (r: bool)
    ensures
        r == is_own_name(host@),
{
    same(host, "10.42.0.1") || same(host, "hub.local") || same(host, "10.55.0.1") || starts_with(
        host,
        "127.",
    ) || bare_label(host)
}

pub fn foreign_host(req: &str) -> (r: bool)
    ensures
        r == is_foreign(req@),
{
    let v = match scan_lines(&lines(req), "host", false) {
        Some(v) => v,
        None => {
            return false;
        },
    };
    let host = trim(v.as_str());
    let cs = chars(host.as_str());
    if cs.len() > 0 && cs[0] == '[' {
        return false;
    }
    !own_name(before(host.as_str(), ':').as_str())
}

// ---- Laws ----

/// No address has two releases.
pub open spec fn one_each(acks: Seq<Release>) -> bool {
    forall|i: int, j: int|
        0 <= i < j < acks.len() ==> (#[trigger] acks[i]).ip != (#[trigger] acks[j]).ip
}

proof fn lemma_without(acks: Seq<Release>, ip: Addr)
    ensures
        forall|k: int|
            0 <= k < without(acks, ip).len() ==> {
                &&& (#[trigger] without(acks, ip)[k]).ip != ip
                &&& acks.contains(without(acks, ip)[k])
            },
        forall|i: int|
            0 <= i < acks.len() && (#[trigger] acks[i]).ip != ip ==> without(acks, ip).contains(
                acks[i],
            ),
        one_each(acks) ==> one_each(without(acks, ip)),
    decreases acks.len(),
{
    if acks.len() > 0 {
        let init = acks.drop_last();
        let rest = without(init, ip);
        let w = without(acks, ip);
        lemma_without(init, ip);
        assert forall|k: int| 0 <= k < w.len() implies (#[trigger] w[k]).ip != ip
            && acks.contains(w[k]) by {
            if k < rest.len() {
                assert(w[k] == rest[k]);
                let i = init.index_of(rest[k]);
                assert(acks[i] == w[k]);
            } else {
                assert(w[k] == acks[acks.len() - 1]);
            }
        }
        assert forall|i: int| 0 <= i < acks.len() && (#[trigger] acks[i]).ip
            != ip implies w.contains(acks[i]) by {
            if i < init.len() {
                assert(init[i].ip != ip);
                let k = rest.index_of(init[i]);
                assert(w[k] == acks[i]);
            } else {
                assert(w[w.len() - 1] == acks[i]);
            }
        }
        if one_each(acks) {
            assert(one_each(init)) by {
                assert forall|i: int, j: int| 0 <= i < j < init.len() implies (#[trigger] init[i]).ip
                    != (#[trigger] init[j]).ip by {
                    assert(acks[i].ip != acks[j].ip);
                }
            }
            assert forall|i: int, j: int| 0 <= i < j < w.len() implies (#[trigger] w[i]).ip != (
            #[trigger] w[j]).ip by {
                if j < rest.len() {
                    assert(rest[i].ip != rest[j].ip);
                } else {
                    let k = init.index_of(rest[i]);
                    assert(acks[k].ip != acks[acks.len() - 1].ip);
                }
            }
        }
    }
}

/// An Accept releases the device that tapped it, and changes nothing for any other address.
pub proof fn law_an_accept_releases_one_device(
    acks: Seq<Release>,
    mac: Option<Seq<char>>,
    ip: Addr,
    now: u64,
    other: Addr,
)
    requires
        other != ip,
    ensures
        is_released(accepted(acks, mac, ip, now), ip),
        is_released(accepted(acks, mac, ip, now), other) == is_released(acks, other),
{
    let after = accepted(acks, mac, ip, now);
    let w = without(acks, ip);
    lemma_without(acks, ip);
    assert(after[w.len() as int].ip == ip);
    if is_released(acks, other) {
        let i = choose|i: int| 0 <= i < acks.len() && #[trigger] acks[i].ip == other;
        let k = w.index_of(acks[i]);
        assert(after[k].ip == other);
    }
    if is_released(after, other) {
        let k = choose|k: int| 0 <= k < after.len() && #[trigger] after[k].ip == other;
        assert(after[k] == w[k]);
        let i = acks.index_of(w[k]);
        assert(acks[i].ip == other);
    }
}

proof fn lemma_kept(acks: Seq<Release>, here: Set<Seq<char>>, now: u64, ip: Addr)
    ensures
        is_released(kept(acks, here, now), ip) == (exists|i: int|
            0 <= i < acks.len() && (#[trigger] acks[i]).ip == ip && holds(
                seen_again(acks[i], here, now),
                now,
            )),
        lapsed(acks, here, now).contains(ip) == (exists|i: int|
            0 <= i < acks.len() && (#[trigger] acks[i]).ip == ip && !holds(
                seen_again(acks[i], here, now),
                now,
            )),
    decreases acks.len(),
{
    if acks.len() > 0 {
        let init = acks.drop_last();
        let last = acks.last();
        lemma_kept(init, here, now, ip);
        let k0 = kept(init, here, now);
        let k1 = kept(acks, here, now);
        let l0 = lapsed(init, here, now);
        let l1 = lapsed(acks, here, now);
        assert(last == acks[acks.len() - 1]);
        assert forall|i: int| 0 <= i < init.len() implies #[trigger] acks[i] == init[i] by {}
        if holds(seen_again(last, here, now), now) {
            assert(k1 == k0.push(seen_again(last, here, now)));
            assert(l1 == l0);
            if is_released(k0, ip) {
                let k = choose|k: int| 0 <= k < k0.len() && #[trigger] k0[k].ip == ip;
                assert(k1[k].ip == ip);
                let i = choose|i: int|
                    0 <= i < init.len() && (#[trigger] init[i]).ip == ip && holds(
                        seen_again(init[i], here, now),
                        now,
                    );
                assert(acks[i].ip == ip);
            }
            if last.ip == ip {
                assert(k1[k0.len() as int].ip == ip);
            }
            if is_released(k1, ip) && last.ip != ip {
                let k = choose|k: int| 0 <= k < k1.len() && #[trigger] k1[k].ip == ip;
                assert(k0[k].ip == ip);
            }
            if l0.contains(ip) {
                let i = choose|i: int|
                    0 <= i < init.len() && (#[trigger] init[i]).ip == ip && !holds(
                        seen_again(init[i], here, now),
                        now,
                    );
                assert(acks[i].ip == ip);
            }
        } else {
            assert(k1 == k0);
            assert(l1 == l0.push(last.ip));
            if l0.contains(ip) {
                assert(l1[l0.index_of(ip)] == ip);
                let i = choose|i: int|
                    0 <= i < init.len() && (#[trigger] init[i]).ip == ip && !holds(
                        seen_again(init[i], here, now),
                        now,
                    );
                assert(acks[i].ip == ip);
            }
            if last.ip == ip {
                assert(l1[l0.len() as int] == ip);
            }
            if l1.contains(ip) && last.ip != ip {
                assert(l0[l1.index_of(ip)] == ip);
            }
            if is_released(k0, ip) {
                let i = choose|i: int|
                    0 <= i < init.len() && (#[trigger] init[i]).ip == ip && holds(
                        seen_again(init[i], here, now),
                        now,
                    );
                assert(acks[i].ip == ip);
            }
        }
        assert forall|i: int|
            0 <= i < acks.len() && (#[trigger] acks[i]).ip == ip && i < init.len() implies init[i].ip
            == ip by {}
    }
}

proof fn lemma_kept_comes_from(acks: Seq<Release>, here: Set<Seq<char>>, now: u64)
    ensures
        forall|k: int|
            0 <= k < kept(acks, here, now).len() ==> exists|i: int|
                0 <= i < acks.len() && #[trigger] kept(acks, here, now)[k] == seen_again(
                    #[trigger] acks[i],
                    here,
                    now,
                ),
        one_each(acks) ==> one_each(kept(acks, here, now)),
    decreases acks.len(),
{
    if acks.len() > 0 {
        let init = acks.drop_last();
        let k0 = kept(init, here, now);
        let k1 = kept(acks, here, now);
        lemma_kept_comes_from(init, here, now);
        assert forall|k: int| 0 <= k < k1.len() implies exists|i: int|
            0 <= i < acks.len() && #[trigger] k1[k] == seen_again(#[trigger] acks[i], here, now) by {
            if k < k0.len() {
                assert(k1[k] == k0[k]);
                let i = choose|i: int|
                    0 <= i < init.len() && k0[k] == seen_again(#[trigger] init[i], here, now);
                assert(acks[i] == init[i]);
            } else {
                assert(k1[k] == seen_again(acks[acks.len() - 1], here, now));
            }
        }
        if one_each(acks) {
            assert(one_each(init)) by {
                assert forall|i: int, j: int| 0 <= i < j < init.len() implies (#[trigger] init[i]).ip
                    != (#[trigger] init[j]).ip by {
                    assert(acks[i].ip != acks[j].ip);
                }
            }
            assert forall|i: int, j: int| 0 <= i < j < k1.len() implies (#[trigger] k1[i]).ip != (
            #[trigger] k1[j]).ip by {
                if j < k0.len() {
                    assert(k0[i].ip != k0[j].ip);
                } else {
                    assert(k1[i] == k0[i]);
                    let m = choose|m: int|
                        0 <= m < init.len() && k0[i] == seen_again(#[trigger] init[m], here, now);
                    assert(acks[m].ip != acks[acks.len() - 1].ip);
                }
            }
        }
    }
}

/// No operation gives an address a second release.
pub proof fn law_one_release_for_an_address(
    acks: Seq<Release>,
    mac: Option<Seq<char>>,
    ip: Addr,
    here: Set<Seq<char>>,
    now: u64,
)
    requires
        one_each(acks),
    ensures
        one_each(accepted(acks, mac, ip, now)),
        one_each(kept(acks, here, now)),
{
    lemma_without(acks, ip);
    lemma_kept_comes_from(acks, here, now);
}

/// A round splits the released addresses in two: those that stay released, and those that are
/// handed back to be captured. It stays released exactly if the device is associated, or was seen
/// less than ninety seconds ago.
pub proof fn law_a_round_keeps_or_hands_back(
    acks: Seq<Release>,
    i: int,
    here: Set<Seq<char>>,
    now: u64,
)
    requires
        one_each(acks),
        0 <= i < acks.len(),
    ensures
        is_released(kept(acks, here, now), acks[i].ip) == ((acks[i].mac matches Some(m)
            && here.contains(m)) || now - acks[i].seen < GRACE),
        lapsed(acks, here, now).contains(acks[i].ip) == !is_released(
            kept(acks, here, now),
            acks[i].ip,
        ),
{
    let ip = acks[i].ip;
    lemma_kept(acks, here, now, ip);
    assert forall|j: int| 0 <= j < acks.len() && (#[trigger] acks[j]).ip == ip implies j == i by {
        if j < i {
            assert(acks[j].ip != acks[i].ip);
        }
        if i < j {
            assert(acks[i].ip != acks[j].ip);
        }
    }
}

/// A round releases nobody.
pub proof fn law_a_round_releases_nobody(
    acks: Seq<Release>,
    ip: Addr,
    here: Set<Seq<char>>,
    now: u64,
)
    requires
        !is_released(acks, ip),
    ensures
        !is_released(kept(acks, here, now), ip),
        !lapsed(acks, here, now).contains(ip),
{
    lemma_kept(acks, here, now, ip);
}

/// The releases after rounds, each with who was associated and when it was asked.
pub open spec fn after_rounds(
    acks: Seq<Release>,
    rounds: Seq<(Set<Seq<char>>, u64)>,
) -> Seq<Release>
    decreases rounds.len(),
{
    if rounds.len() == 0 {
        acks
    } else {
        let before = after_rounds(acks, rounds.drop_last());
        kept(before, rounds.last().0, rounds.last().1)
    }
}

/// A device that is associated in every round stays released, however long that is.
pub proof fn law_a_device_that_stays_stays_released(
    acks: Seq<Release>,
    i: int,
    mac: Seq<char>,
    rounds: Seq<(Set<Seq<char>>, u64)>,
)
    requires
        0 <= i < acks.len(),
        acks[i].mac == Some(mac),
        forall|r: int| 0 <= r < rounds.len() ==> (#[trigger] rounds[r]).0.contains(mac),
    ensures
        is_released(after_rounds(acks, rounds), acks[i].ip),
{
    lemma_stays(acks, i, mac, rounds);
}

proof fn lemma_stays(
    acks: Seq<Release>,
    i: int,
    mac: Seq<char>,
    rounds: Seq<(Set<Seq<char>>, u64)>,
)
    requires
        0 <= i < acks.len(),
        acks[i].mac == Some(mac),
        forall|r: int| 0 <= r < rounds.len() ==> (#[trigger] rounds[r]).0.contains(mac),
    ensures
        exists|k: int|
            0 <= k < after_rounds(acks, rounds).len() && (#[trigger] after_rounds(acks, rounds)[k]).ip
                == acks[i].ip && after_rounds(acks, rounds)[k].mac == Some(mac),
    decreases rounds.len(),
{
    if rounds.len() == 0 {
        assert(after_rounds(acks, rounds)[i].ip == acks[i].ip);
    } else {
        let init = rounds.drop_last();
        assert forall|r: int| 0 <= r < init.len() implies (#[trigger] init[r]).0.contains(mac) by {
            assert(rounds[r].0.contains(mac));
        }
        lemma_stays(acks, i, mac, init);
        let before = after_rounds(acks, init);
        let k = choose|k: int|
            0 <= k < before.len() && (#[trigger] before[k]).ip == acks[i].ip && before[k].mac
                == Some(mac);
        let (here, now) = rounds.last();
        assert(rounds[rounds.len() - 1].0.contains(mac));
        lemma_kept_has(before, here, now, k);
        let after = kept(before, here, now);
        let n = after.index_of(seen_again(before[k], here, now));
        assert(after[n].ip == acks[i].ip);
    }
}

proof fn lemma_kept_has(acks: Seq<Release>, here: Set<Seq<char>>, now: u64, i: int)
    requires
        0 <= i < acks.len(),
        holds(seen_again(acks[i], here, now), now),
    ensures
        kept(acks, here, now).contains(seen_again(acks[i], here, now)),
    decreases acks.len(),
{
    let init = acks.drop_last();
    let k1 = kept(acks, here, now);
    let a = seen_again(acks[i], here, now);
    if i < init.len() {
        lemma_kept_has(init, here, now, i);
        let k = kept(init, here, now).index_of(a);
        assert(k1[k] == a);
    } else {
        assert(k1[k1.len() - 1] == a);
    }
}

/// A device that is gone is greeted again: if it is associated in no round, and a round comes
/// ninety seconds or more after it was last seen, its release has lapsed.
pub proof fn law_a_device_that_leaves_is_greeted_again(
    acks: Seq<Release>,
    i: int,
    rounds: Seq<(Set<Seq<char>>, u64)>,
    late: int,
)
    requires
        one_each(acks),
        0 <= i < acks.len(),
        forall|r: int|
            0 <= r < rounds.len() ==> (acks[i].mac matches Some(m) ==> !(
            #[trigger] rounds[r]).0.contains(m)),
        0 <= late < rounds.len(),
        rounds[late].1 - acks[i].seen >= GRACE,
    ensures
        !is_released(after_rounds(acks, rounds), acks[i].ip),
{
    lemma_unseen(acks, i, rounds);
    lemma_lapses(acks, i, rounds, late);
}

proof fn lemma_unseen(acks: Seq<Release>, i: int, rounds: Seq<(Set<Seq<char>>, u64)>)
    requires
        one_each(acks),
        0 <= i < acks.len(),
        forall|r: int|
            0 <= r < rounds.len() ==> (acks[i].mac matches Some(m) ==> !(
            #[trigger] rounds[r]).0.contains(m)),
    ensures
        forall|k: int|
            0 <= k < after_rounds(acks, rounds).len() && (#[trigger] after_rounds(
                acks,
                rounds,
            )[k]).ip == acks[i].ip ==> after_rounds(acks, rounds)[k] == acks[i],
    decreases rounds.len(),
{
    let after = after_rounds(acks, rounds);
    if rounds.len() == 0 {
        assert forall|k: int| 0 <= k < after.len() && (#[trigger] after[k]).ip
            == acks[i].ip implies after[k] == acks[i] by {
            if k < i {
                assert(acks[k].ip != acks[i].ip);
            }
            if i < k {
                assert(acks[i].ip != acks[k].ip);
            }
        }
    } else {
        let init = rounds.drop_last();
        assert forall|r: int| 0 <= r < init.len() implies (acks[i].mac matches Some(m) ==> !(
        #[trigger] init[r]).0.contains(m)) by {
            assert(rounds[r] == init[r]);
        }
        lemma_unseen(acks, i, init);
        let before = after_rounds(acks, init);
        let (here, now) = rounds.last();
        assert(rounds[rounds.len() - 1] == rounds.last());
        lemma_kept_comes_from(before, here, now);
        assert forall|k: int| 0 <= k < after.len() && (#[trigger] after[k]).ip
            == acks[i].ip implies after[k] == acks[i] by {
            let m = choose|m: int|
                0 <= m < before.len() && after[k] == seen_again(#[trigger] before[m], here, now);
            assert(before[m].ip == acks[i].ip);
        }
    }
}

proof fn lemma_lapses(acks: Seq<Release>, i: int, rounds: Seq<(Set<Seq<char>>, u64)>, late: int)
    requires
        one_each(acks),
        0 <= i < acks.len(),
        forall|r: int|
            0 <= r < rounds.len() ==> (acks[i].mac matches Some(m) ==> !(
            #[trigger] rounds[r]).0.contains(m)),
        0 <= late < rounds.len(),
        rounds[late].1 - acks[i].seen >= GRACE,
    ensures
        !is_released(after_rounds(acks, rounds), acks[i].ip),
    decreases rounds.len(),
{
    let init = rounds.drop_last();
    let before = after_rounds(acks, init);
    let (here, now) = rounds.last();
    let ip = acks[i].ip;
    assert forall|r: int| 0 <= r < init.len() implies (acks[i].mac matches Some(m) ==> !(
    #[trigger] init[r]).0.contains(m)) by {
        assert(rounds[r] == init[r]);
    }
    assert(rounds[rounds.len() - 1] == rounds.last());
    lemma_kept(before, here, now, ip);
    if late < init.len() {
        assert(init[late] == rounds[late]);
        lemma_lapses(acks, i, init, late);
    } else {
        lemma_unseen(acks, i, init);
    }
}

/// A request to a host, as it comes in: lines that name no host, then the host, with or without a
/// port, under its name in any case, and whatever follows.
pub open spec fn request_to(
    before: Seq<char>,
    key: Seq<char>,
    pad: Seq<char>,
    host: Seq<char>,
    port: Seq<char>,
    end: Seq<char>,
    after: Seq<char>,
) -> Seq<char> {
    before + (key + ":"@ + (pad + (host + port) + end) + "\r\n"@ + after)
}

/// Is this a line that a client may send for its host?
pub open spec fn host_line(
    before: Seq<char>,
    key: Seq<char>,
    pad: Seq<char>,
    host: Seq<char>,
    port: Seq<char>,
    end: Seq<char>,
) -> bool {
    &&& before.len() > 0 ==> before.last() == '\n'
    &&& forall|j: int|
        0 <= j < line_seq(before).len() ==> not_headed(#[trigger] line_seq(before)[j], "host"@)
    &&& lowered(key) == "host"@
    &&& blank(pad)
    &&& blank(end)
    &&& !pad.contains('\n')
    &&& !end.contains('\n')
    &&& forall|i: int| 0 <= i < host.len() ==> !is_space(#[trigger] host[i]) && host[i] != ':'
    &&& forall|i: int| 0 <= i < port.len() ==> !is_space(#[trigger] port[i])
    &&& port.len() > 0 ==> port[0] == ':'
}

proof fn lemma_host_is_read(
    before: Seq<char>,
    key: Seq<char>,
    pad: Seq<char>,
    host: Seq<char>,
    port: Seq<char>,
    end: Seq<char>,
    after: Seq<char>,
)
    requires
        host_line(before, key, pad, host, port, end),
    ensures
        is_foreign(request_to(before, key, pad, host, port, end, after)) == (!((host
            + port).len() > 0 && (host + port)[0] == '[') && !is_own_name(host)),
{
    reveal_strlit("host");
    let name = "host"@;
    let value = host + port;
    let v = pad + value + end;
    assert(lowered(key).len() == key.len());
    assert forall|i: int| 0 <= i < key.len() implies key[i] != ':' && key[i] != '\n' by {
        assert(name[i] == lower_char(key[i]));
    }
    assert(lowered(name) =~= name);
    assert forall|i: int| 0 <= i < value.len() implies !is_space(#[trigger] value[i]) by {
        if i < host.len() {
            assert(value[i] == host[i]);
        } else {
            assert(value[i] == port[i - host.len()]);
        }
    }
    assert(!v.contains('\n')) by {
        assert forall|i: int| 0 <= i < v.len() implies v[i] != '\n' by {
            let m = pad.len() as int;
            let n = m + value.len();
            if i < m {
                assert(pad.contains(pad[i]));
            } else if i < n {
                assert(v[i] == value[i - m]);
            } else {
                assert(end.contains(end[i - n]));
            }
        }
    }
    assert(snug(value));
    law_headers_are_found(before, key, pad, value, end, after, name);
    assert(!host.contains(':'));
    if port.len() > 0 {
        assert(value =~= host + seq![':'] + port.skip(1));
        law_separators_cut(host, ':', port.skip(1));
    } else {
        assert(value =~= host);
        law_separators_cut(host, ':', port);
    }
}

/// A dotted host is another server, unless it is one of the hub's two addresses, its name on the
/// local network, or loopback: whatever its first or its last part is, with or without a port.
pub proof fn law_other_servers_are_foreign(
    before: Seq<char>,
    key: Seq<char>,
    pad: Seq<char>,
    host: Seq<char>,
    port: Seq<char>,
    end: Seq<char>,
    after: Seq<char>,
)
    requires
        host_line(before, key, pad, host, port, end),
        host.contains('.'),
        host[0] != '[',
        host != "10.42.0.1"@,
        host != "hub.local"@,
        host != "10.55.0.1"@,
        !(host.len() >= 4 && host[0] == '1' && host[1] == '2' && host[2] == '7' && host[3] == '.'),
    ensures
        is_foreign(request_to(before, key, pad, host, port, end, after)),
{
    reveal_strlit("127.");
    lemma_host_is_read(before, key, pad, host, port, end, after);
    assert((host + port)[0] == host[0]);
    if "127."@.is_prefix_of(host) {
        assert(host.subrange(0, 4)[0] == '1');
        assert(host.subrange(0, 4)[1] == '2');
        assert(host.subrange(0, 4)[2] == '7');
        assert(host.subrange(0, 4)[3] == '.');
    }
}

/// The hub's own names are not foreign: its addresses, its name on the local network, loopback,
/// every name without a dot, and whatever is bracketed; nor is a request that names no host.
pub proof fn law_the_hub_answers_to_its_names(
    before: Seq<char>,
    key: Seq<char>,
    pad: Seq<char>,
    host: Seq<char>,
    port: Seq<char>,
    end: Seq<char>,
    after: Seq<char>,
    loopback: Seq<char>,
)
    requires
        host_line(before, key, pad, host, port, end),
        host == "10.42.0.1"@ || host == "hub.local"@ || host == "10.55.0.1"@ || host == "127."@
            + loopback || (host.len() > 0 && !host.contains('.')) || (host.len() > 0 && host[0]
            == '['),
    ensures
        !is_foreign(request_to(before, key, pad, host, port, end, after)),
        !is_foreign(before),
{
    reveal_strlit("host");
    reveal_strlit("127.");
    reveal_strlit("10.42.0.1");
    reveal_strlit("hub.local");
    reveal_strlit("10.55.0.1");
    lemma_host_is_read(before, key, pad, host, port, end, after);
    assert((host + port)[0] == host[0]);
    if host == "127."@ + loopback {
        assert(host.subrange(0, 4) =~= "127."@);
    }
    law_absent_headers_are_not_found(before, "host"@);
}

/// The listing of interfaces is read line by line: a line with a name begins the block of that
/// interface, a line of an interface without a name ends the block before it, and the line that
/// says access point is answered with the interface whose block it stands in. All other lines are
/// passed over, and so is white space around any of them.
pub proof fn law_the_access_point_is_found_by_type(
    pad: Seq<char>,
    line: Seq<char>,
    end: Seq<char>,
    name: Seq<char>,
    within: Option<Seq<char>>,
    rest: Seq<Seq<char>>,
)
    requires
        blank(pad),
        snug(line),
        blank(end),
        name.len() > 0,
        snug(name),
    ensures
        line == "Interface "@ + name ==> ap_in(seq![pad + line + end] + rest, within) == ap_in(
            rest,
            Some(name),
        ),
        "Unnamed/non-netdev"@.is_prefix_of(line) ==> ap_in(seq![pad + line + end] + rest, within)
            == ap_in(rest, None),
        line == "type AP"@ && within is Some ==> ap_in(seq![pad + line + end] + rest, within)
            == within,
        line == "type AP"@ && within is None ==> ap_in(seq![pad + line + end] + rest, within)
            == ap_in(rest, None),
        line != "type AP"@ && !"Interface "@.is_prefix_of(line) && !"Unnamed/non-netdev"@.is_prefix_of(
            line,
        ) ==> ap_in(seq![pad + line + end] + rest, within) == ap_in(rest, within),
        ap_in(Seq::empty(), within) is None,
{
    reveal_strlit("Interface ");
    reveal_strlit("Unnamed/non-netdev");
    reveal_strlit("type AP");
    let all = seq![pad + line + end] + rest;
    assert(all[0] == pad + line + end);
    assert(all.skip(1) =~= rest);
    law_trimming_leaves_the_middle(pad, line, end);
    let none = Seq::<char>::empty();
    if line == "Interface "@ + name {
        assert(line.subrange(0, 10) =~= "Interface "@);
        assert(line.skip(10) =~= name);
        assert(none + name + none =~= name);
        law_trimming_leaves_the_middle(none, name, none);
    }
    if "Unnamed/non-netdev"@.is_prefix_of(line) {
        assert(line[0] == line.subrange(0, 18)[0]);
        if "Interface "@.is_prefix_of(line) {
            assert(line[0] == line.subrange(0, 10)[0]);
        }
    }
    if line == "type AP"@ {
        assert(line[0] == 't');
    }
}

/// A station is a line that begins with its word; its address is the next word, in small letters,
/// whatever follows. Every line counts, and no other line names anybody.
pub proof fn law_stations_are_listed(
    gap: Seq<char>,
    mac: Seq<char>,
    rest: Seq<char>,
    line: Seq<char>,
    a: Seq<Seq<char>>,
    b: Seq<Seq<char>>,
)
    requires
        blank(gap),
        mac.len() > 0,
        forall|i: int| 0 <= i < mac.len() ==> !is_space(#[trigger] mac[i]),
        rest.len() > 0 ==> is_space(rest[0]),
    ensures
        stations(seq!["Station "@ + (gap + mac + rest)]) == set![lowered(mac)],
        stations(seq!["Station "@ + gap]) == Set::<Seq<char>>::empty(),
        !"Station "@.is_prefix_of(line) ==> stations(seq![line]) == Set::<Seq<char>>::empty(),
        stations(a + b) == stations(a) + stations(b),
{
    reveal_strlit("Station ");
    let said = "Station "@ + (gap + mac + rest);
    assert(said.subrange(0, 8) =~= "Station "@);
    assert(said.skip(8) =~= gap + mac + rest);
    law_white_space_parts_words(gap, mac, rest);
    assert(word_seq(said.skip(8))[0] == mac);
    let empty = "Station "@ + gap;
    assert(empty.subrange(0, 8) =~= "Station "@);
    assert(empty.skip(8) =~= gap);
    lemma_one_station(said);
    lemma_one_station(empty);
    lemma_one_station(line);
    assert(stations(seq![said]) =~= set![lowered(mac)]);
    lemma_stations_add_up(a, b);
}

proof fn lemma_one_station(line: Seq<char>)
    ensures
        stations(seq![line]) == match station_of(line) {
            Some(m) => Set::empty().insert(m),
            None => Set::<Seq<char>>::empty(),
        },
{
    let none = Seq::<Seq<char>>::empty();
    assert(seq![line].drop_last() =~= none);
    assert(stations(none) =~= Set::<Seq<char>>::empty());
}

proof fn lemma_stations_add_up(a: Seq<Seq<char>>, b: Seq<Seq<char>>)
    ensures
        stations(a + b) == stations(a) + stations(b),
    decreases b.len(),
{
    if b.len() == 0 {
        assert(a + b =~= a);
        assert(stations(a) + stations(b) =~= stations(a));
    } else {
        assert((a + b).drop_last() =~= a + b.drop_last());
        lemma_stations_add_up(a, b.drop_last());
        assert(stations(a + b) =~= stations(a) + stations(b));
    }
}

/// Neighbours are read line by line: a line whose first word is the address is answered with the
/// word behind its first `lladdr`, in small letters, or with nothing where it has none; a line
/// about another address is passed over.
pub proof fn law_neighbours_are_looked_up(line: Seq<char>, rest: Seq<Seq<char>>, ip: Seq<char>, k: int)
    ensures
        word_seq(line).len() == 0 || word_seq(line)[0] != ip ==> mac_in(seq![line] + rest, ip)
            == mac_in(rest, ip),
        1 <= k < word_seq(line).len() - 1 && word_seq(line)[0] == ip && word_seq(line)[k]
            == "lladdr"@ && (forall|j: int| 1 <= j < k ==> #[trigger] word_seq(line)[j] != "lladdr"@)
            ==> mac_in(seq![line] + rest, ip) == Some(lowered(word_seq(line)[k + 1])),
        word_seq(line).len() > 0 && word_seq(line)[0] == ip && (forall|j: int|
            1 <= j < word_seq(line).len() - 1 ==> #[trigger] word_seq(line)[j] != "lladdr"@)
            ==> mac_in(seq![line] + rest, ip) is None,
        mac_in(Seq::empty(), ip) is None,
{
    let all = seq![line] + rest;
    let ws = word_seq(line);
    assert(all[0] == line);
    assert(all.skip(1) =~= rest);
    if ws.len() > 0 && ws[0] == ip {
        let tail = ws.skip(1);
        if 1 <= k < ws.len() - 1 && ws[k] == "lladdr"@ && (forall|j: int|
            1 <= j < k ==> #[trigger] word_seq(line)[j] != "lladdr"@) {
            assert forall|j: int| 0 <= j < k - 1 implies #[trigger] tail[j] != "lladdr"@ by {
                assert(tail[j] == word_seq(line)[j + 1]);
            }
            lemma_link_address(tail, k - 1);
        }
        if forall|j: int| 1 <= j < ws.len() - 1 ==> #[trigger] word_seq(line)[j] != "lladdr"@ {
            assert forall|j: int| 0 <= j < tail.len() - 1 implies #[trigger] tail[j]
                != "lladdr"@ by {
                assert(tail[j] == word_seq(line)[j + 1]);
            }
            lemma_no_link_address(tail);
        }
    }
}

proof fn lemma_link_address(ws: Seq<Seq<char>>, k: int)
    requires
        0 <= k < ws.len() - 1,
        ws[k] == "lladdr"@,
        forall|j: int| 0 <= j < k ==> #[trigger] ws[j] != "lladdr"@,
    ensures
        link_address(ws) == Some(lowered(ws[k + 1])),
    decreases k,
{
    if k > 0 {
        let rest = ws.skip(1);
        assert(ws[0] != "lladdr"@);
        assert forall|j: int| 0 <= j < k - 1 implies #[trigger] rest[j] != "lladdr"@ by {
            assert(rest[j] == ws[j + 1]);
        }
        lemma_link_address(rest, k - 1);
    }
}

proof fn lemma_no_link_address(ws: Seq<Seq<char>>)
    requires
        forall|j: int| 0 <= j < ws.len() - 1 ==> #[trigger] ws[j] != "lladdr"@,
    ensures
        link_address(ws) is None,
    decreases ws.len(),
{
    reveal_with_fuel(link_address, 2);
    if ws.len() > 1 {
        let rest = ws.skip(1);
        assert(ws[0] != "lladdr"@);
        assert forall|j: int| 0 <= j < rest.len() - 1 implies #[trigger] rest[j] != "lladdr"@ by {
            assert(rest[j] == ws[j + 1]);
        }
        lemma_no_link_address(rest);
    }
}

/// A device that has just tapped Accept stays released in the next round exactly if it is
/// associated then, or less than ninety seconds have gone by since.
pub proof fn law_an_accept_lasts_ninety_seconds(
    acks: Seq<Release>,
    mac: Option<Seq<char>>,
    ip: Addr,
    then: u64,
    here: Set<Seq<char>>,
    now: u64,
)
    requires
        one_each(acks),
    ensures
        is_released(kept(accepted(acks, mac, ip, then), here, now), ip) <==> (mac is Some
            && here.contains(mac->0)) || now - then < 90 * 1_000_000_000,
{
    let after = accepted(acks, mac, ip, then);
    law_one_release_for_an_address(acks, mac, ip, here, then);
    let i = after.len() - 1;
    assert(after[i] == (Release { mac, ip, seen: then }));
    law_a_round_keeps_or_hands_back(after, i, here, now);
}

/// An address of IPv4 is put into the set of the released, or taken out, by one command that names
/// it in braces; others never are.
pub proof fn law_released_addresses_are_named_to_the_filter(
    op: Seq<char>,
    a: u8,
    b: u8,
    c: u8,
    d: u8,
    six: Seq<char>,
)
    ensures
        nft_args(op, Addr::V6(six)) is None,
        nft_args(op, Addr::V4(a, b, c, d)) == Some(
            seq![
                op,
                "element"@,
                "ip"@,
                "hub-captive"@,
                "acked"@,
                "{ "@ + (decimal(a as nat) + "."@ + decimal(b as nat) + "."@ + decimal(c as nat)
                    + "."@ + decimal(d as nat)) + " }"@,
            ],
        ),
{
}

/// Whether a request is foreign is answered as the laws on its text say; and who is associated is
/// known exactly if the tool could be asked.
pub proof fn law_requests_are_told_apart(text: &str, r: bool, ran: bool, here: Option<MacSet>)
    ensures
        call_ensures(foreign_host, (text,), r) ==> r == is_foreign(text@),
        call_ensures(associated, (ran, text), here) ==> here is Some == ran,
        call_ensures(associated, (ran, text), here) && ran ==> here->0@ == stations(line_seq(text@)),
{
}

} // verus!
