//! The fleet: which boards the hub itself vouches for, and where it can be found.
//!
//! What a board says of its own address is whatever its publisher chose. What the hub's DHCP
//! server wrote into its lease files is not: a board's id comes from the hardware address that
//! holds the lease.
use vstd::prelude::*;
use vstd::string::*;
use vstd::utf8::is_ascii_chars;

use crate::address::{addr_text, is_usable, Addr, Ip};
use crate::captive::opt_text;
use crate::json::{
    doc, drop_nulls, insert, member, members, new_map, null, object, optional_text, render, rendered,
    text, text_or_null, Doc,
};
use crate::number::{
    at_most, law_digits_are_worth_their_place, law_numerals_are_read, parse_hex_byte,
    unsigned_number,
};
use crate::text::{
    blank, ends_with, fields, head_field, is_space, law_separators_cut,
    law_trimming_leaves_the_middle, law_white_space_parts_words, lemma_fields_first,
    lemma_fields_join, line_seq, lines, small, small_letters, snug, split, starts_with,
    trim, trimmed, word_seq, words,
};
use crate::uplink::Uplink;

verus! {

// ---- Leases ----

/// Is this the name of a lease file? There is one for each interface that hands out addresses.
pub open spec fn names_leases(name: Seq<char>) -> bool {
    "dnsmasq-"@.is_prefix_of(name) && ".leases"@.is_suffix_of(name)
}

pub fn is_lease_file(name: &str) -> (r: bool)
    ensures
        r == names_leases(name@),
{
    starts_with(name, "dnsmasq-") && ends_with(name, ".leases")
}

/// A board's id and the address that was leased to it.
pub struct Lease {
    pub id: Seq<char>,
    pub ip: Seq<char>,
}

/// Is the first byte of a hardware address that of an address a maker assigned? Phones and laptops
/// randomise theirs, and those have the second lowest bit set.
pub open spec fn is_assigned(octet: Seq<char>) -> bool {
    at_most(unsigned_number(octet, 16), 255) matches Some(b) && (b / 2) % 2 == 0
}

/// The id of a board, from the last two bytes of its hardware address in small letters.
pub open spec fn board_id(fifth: Seq<char>, sixth: Seq<char>) -> Seq<char> {
    "rover-"@ + fifth + sixth
}

/// The lease of a board that a line `<expiry> <mac> <ip> ..` records.
pub open spec fn lease_of(line: Seq<char>) -> Option<Lease> {
    let ws = word_seq(line);
    if ws.len() < 3 {
        None
    } else {
        let octets = fields(ws[1], ':');
        if octets.len() == 6 && is_assigned(octets[0]) {
            Some(
                Lease {
                    id: board_id(small(octets[4]), small(octets[5])),
                    ip: ws[2],
                },
            )
        } else {
            None
        }
    }
}

/// The leases that lines record.
pub open spec fn leases_in(lines: Seq<Seq<char>>) -> Seq<Lease>
    decreases lines.len(),
{
    if lines.len() == 0 {
        Seq::empty()
    } else {
        match lease_of(lines.last()) {
            Some(l) => leases_in(lines.drop_last()).push(l),
            None => leases_in(lines.drop_last()),
        }
    }
}

/// The leases that files record.
pub open spec fn all_leases(files: Seq<Seq<char>>) -> Seq<Lease>
    decreases files.len(),
{
    if files.len() == 0 {
        Seq::empty()
    } else {
        all_leases(files.drop_last()) + leases_in(line_seq(files.last()))
    }
}

/// How many leases claim an id.
pub open spec fn claims(ls: Seq<Lease>, id: Seq<char>) -> nat
    decreases ls.len(),
{
    if ls.len() == 0 {
        0
    } else if ls.last().id == id {
        claims(ls.drop_last(), id) + 1
    } else {
        claims(ls.drop_last(), id)
    }
}

/// The address of the last lease that claims an id.
pub open spec fn claimed(ls: Seq<Lease>, id: Seq<char>) -> Seq<char>
    decreases ls.len(),
{
    if ls.len() == 0 {
        Seq::empty()
    } else if ls.last().id == id {
        ls.last().ip
    } else {
        claimed(ls.drop_last(), id)
    }
}

/// The boards that leases vouch for: those whose id exactly one lease claims.
pub open spec fn vouched(ls: Seq<Lease>) -> Map<Seq<char>, Doc> {
    Map::new(|id: Seq<char>| claims(ls, id) == 1, |id: Seq<char>| Doc::Text(claimed(ls, id)))
}

/// Every id that is claimed: with its address, or with nothing where two leases claim it.
spec fn noted(ls: Seq<Lease>) -> Map<Seq<char>, Doc> {
    Map::new(
        |id: Seq<char>| claims(ls, id) >= 1,
        |id: Seq<char>|
            if claims(ls, id) == 1 {
                Doc::Text(claimed(ls, id))
            } else {
                Doc::Null
            },
    )
}

/// A lease read from a line: the id and the address.
fn read_lease(line: &str) -> (r: Option<(String, String)>)
    ensures
        match r {
            Some(p) => lease_of(line@) == Some(Lease { id: p.0@, ip: p.1@ }),
            None => lease_of(line@) is None,
        },
{
    let ws = words(line);
    if ws.len() < 3 {
        return None;
    }
    assert(ws.deep_view()[1] == ws@[1]@);
    assert(ws.deep_view()[2] == ws@[2]@);
    let octets = split(ws[1].as_str(), ':');
    if octets.len() != 6 {
        return None;
    }
    let ghost dv = octets.deep_view();
    assert(dv[0] == octets@[0]@ && dv[4] == octets@[4]@ && dv[5] == octets@[5]@);
    match parse_hex_byte(octets[0].as_str()) {
        Some(first) => {
            if (first / 2) % 2 != 0 {
                return None;
            }
        },
        None => {
            return None;
        },
    }
    let mut id = "rover-".to_owned();
    id.append(small_letters(octets[4].as_str()).as_str());
    id.append(small_letters(octets[5].as_str()).as_str());
    Some((id, ws[2].clone()))
}

fn note_lease(
    out: &mut serde_json::Map<String, serde_json::Value>,
    id: String,
    ip: String,
    Ghost(ls): Ghost<Seq<Lease>>,
)
    requires
        members(*old(out)) == noted(ls),
    ensures
        members(*final(out)) == noted(ls.push(Lease { id: id@, ip: ip@ })),
{
    let ghost now = ls.push(Lease { id: id@, ip: ip@ });
    assert(now.drop_last() =~= ls);
    let again = id.clone();
    match insert(out, id, text(ip)) {
        Some(_) => {
            insert(out, again, null());
        },
        None => {},
    }
    assert(members(*out) =~= noted(now));
}

fn note_file(
    out: &mut serde_json::Map<String, serde_json::Value>,
    body: &str,
    Ghost(ls): Ghost<Seq<Lease>>,
)
    requires
        members(*old(out)) == noted(ls),
    ensures
        members(*final(out)) == noted(ls + leases_in(line_seq(body@))),
{
    let lns = lines(body);
    let ghost dv = line_seq(body@);
    let mut i: usize = 0;
    assert(ls + leases_in(dv.take(0)) =~= ls);
    while i < lns.len()
        invariant
            lns.deep_view() == dv,
            i <= lns@.len(),
            members(*out) == noted(ls + leases_in(dv.take(i as int))),
        decreases lns@.len() - i,
    {
        let ghost t = dv.take(i + 1);
        let ghost so_far = ls + leases_in(dv.take(i as int));
        assert(t.drop_last() =~= dv.take(i as int));
        assert(t.last() == lns@[i as int]@);
        match read_lease(lns[i].as_str()) {
            Some(p) => {
                let (id, ip) = p;
                let ghost l = Lease { id: id@, ip: ip@ };
                assert(ls + leases_in(t) =~= so_far.push(l));
                note_lease(out, id, ip, Ghost(so_far));
            },
            None => {
                assert(ls + leases_in(t) =~= so_far);
            },
        }
        i += 1;
    }
    assert(dv.take(i as int) =~= dv);
}

/// The boards that the hub vouches for, from the contents of all lease files.
pub fn vouched_boards(files: &Vec<String>) -> (out: serde_json::Map<String, serde_json::Value>)
    ensures
        members(out) == vouched(all_leases(files.deep_view())),
{
    let ghost dv = files.deep_view();
    let mut out = new_map();
    let mut i: usize = 0;
    assert(all_leases(dv.take(0)) =~= Seq::<Lease>::empty());
    assert(members(out) =~= noted(all_leases(dv.take(0))));
    while i < files.len()
        invariant
            dv == files.deep_view(),
            i <= files@.len(),
            members(out) == noted(all_leases(dv.take(i as int))),
        decreases files@.len() - i,
    {
        let ghost t = dv.take(i + 1);
        assert(t.drop_last() =~= dv.take(i as int));
        assert(t.last() == files@[i as int]@);
        note_file(&mut out, files[i].as_str(), Ghost(all_leases(dv.take(i as int))));
        i += 1;
    }
    assert(dv.take(i as int) =~= dv);
    drop_nulls(&mut out);
    assert(members(out) =~= vouched(all_leases(dv)));
    out
}

// ---- What the dashboard asks for ----

/// The hub's name: what the system says, or `hub`.
pub open spec fn host_name(read: Option<Seq<char>>) -> Seq<char> {
    match read {
        Some(s) => trimmed(s),
        None => "hub"@,
    }
}

/// The answer to `/fleet`.
pub open spec fn fleet_doc(
    uplink: Seq<char>,
    locator: Seq<char>,
    ssid: Seq<char>,
    host: Seq<char>,
    boards: Map<Seq<char>, Doc>,
) -> Doc {
    Doc::Object(
        map![
            "uplink"@ => Doc::Text(uplink),
            "locator"@ => Doc::Text(locator),
            "ssid"@ => Doc::Text(ssid),
            "host"@ => Doc::Text(host),
            "boards"@ => Doc::Object(boards),
        ],
    )
}

/// The answer to `/fleet`, from what is known of the uplink, where the broker is, the name of the
/// access point, what the system says is the hub's name, and the contents of the lease files.
pub fn fleet_json(
    uplink: Uplink,
    locator: &str,
    ssid: &str,
    hostname: &Option<String>,
    leases: &Vec<String>,
) -> (r: String)
    ensures
        r@ == rendered(
            fleet_doc(
                uplink.spec_word(),
                locator@,
                ssid@,
                host_name(opt_text(*hostname)),
                vouched(all_leases(leases.deep_view())),
            ),
        ),
{
    let host = match hostname {
        Some(s) => trim(s.as_str()),
        None => "hub".to_owned(),
    };
    let mut m = new_map();
    insert(&mut m, "uplink".to_owned(), text(uplink.word().to_owned()));
    insert(&mut m, "locator".to_owned(), text(locator.to_owned()));
    insert(&mut m, "ssid".to_owned(), text(ssid.to_owned()));
    insert(&mut m, "host".to_owned(), text(host));
    insert(&mut m, "boards".to_owned(), object(vouched_boards(leases)));
    render(&object(m))
}

/// The answer to `/wifi/status`.
pub open spec fn wifi_status_doc(ssid: Option<Seq<char>>, uplink: Seq<char>, ifaces: Doc) -> Doc {
    Doc::Object(
        map![
            "ssid"@ => optional_text(ssid),
            "uplink"@ => Doc::Text(uplink),
            "ifaces"@ => ifaces,
        ],
    )
}

/// The answer to `/wifi/status`: the network that the uplink is on, what is known of the uplink,
/// and the radios with the addresses they hold, handed on as they were listed.
pub fn wifi_status_json(ssid: Option<String>, uplink: Uplink, ifaces: serde_json::Value) -> (r:
    String)
    ensures
        r@ == rendered(wifi_status_doc(opt_text(ssid), uplink.spec_word(), doc(ifaces))),
{
    let mut m = new_map();
    insert(&mut m, "ssid".to_owned(), text_or_null(ssid));
    insert(&mut m, "uplink".to_owned(), text(uplink.word().to_owned()));
    insert(&mut m, "ifaces".to_owned(), ifaces);
    render(&object(m))
}

// ---- Where the hub is ----

/// Is this the name of a network card?
pub open spec fn is_card(name: Seq<char>) -> bool {
    "en"@.is_prefix_of(name) || "eth"@.is_prefix_of(name) || "wl"@.is_prefix_of(name)
}

/// Is this the name of a tunnel or a bridge?
pub open spec fn is_tunnel(name: Seq<char>) -> bool {
    ||| "utun"@.is_prefix_of(name)
    ||| "tun"@.is_prefix_of(name)
    ||| "tailscale"@.is_prefix_of(name)
    ||| "docker"@.is_prefix_of(name)
    ||| "veth"@.is_prefix_of(name)
    ||| "br-"@.is_prefix_of(name)
}

/// The address of the first interface that is usable and whose name is right: of a card, or of
/// anything that is no tunnel.
pub open spec fn first_address(ifs: Seq<(Seq<char>, Addr)>, card: bool) -> Option<Addr>
    decreases ifs.len(),
{
    if ifs.len() == 0 {
        None
    } else if is_usable(ifs[0].1) && (if card {
        is_card(ifs[0].0)
    } else {
        !is_tunnel(ifs[0].0)
    }) {
        Some(ifs[0].1)
    } else {
        first_address(ifs.skip(1), card)
    }
}

/// The address that others can reach the hub at: of a card first, then of anything that is no
/// tunnel. Cards are told by their names and not by address ranges: real networks hand out
/// addresses of every range.
pub open spec fn reachable_at(ifs: Seq<(Seq<char>, Addr)>) -> Seq<char> {
    match first_address(ifs, true) {
        Some(a) => addr_text(a),
        None => match first_address(ifs, false) {
            Some(a) => addr_text(a),
            None => "<this-machine>"@,
        },
    }
}

/// Interfaces, in contracts.
pub open spec fn if_view(ifs: Seq<(String, Ip)>) -> Seq<(Seq<char>, Addr)> {
    Seq::new(ifs.len(), |i: int| (ifs[i].0@, ifs[i].1@))
}

fn card(name: &str) -> (r: bool)
    ensures
        r == is_card(name@),
{
    starts_with(name, "en") || starts_with(name, "eth") || starts_with(name, "wl")
}

fn tunnel(name: &str) -> (r: bool)
    ensures
        r == is_tunnel(name@),
{
    starts_with(name, "utun") || starts_with(name, "tun") || starts_with(name, "tailscale")
        || starts_with(name, "docker") || starts_with(name, "veth") || starts_with(name, "br-")
}

fn find_address(ifs: &Vec<(String, Ip)>, of_card: bool) -> (r: Option<String>)
    ensures
        match r {
            Some(t) => first_address(if_view(ifs@), of_card) matches Some(a) && t@ == addr_text(a),
            None => first_address(if_view(ifs@), of_card) is None,
        },
{
    let ghost v = if_view(ifs@);
    let mut i: usize = 0;
    assert(v.skip(0) =~= v);
    while i < ifs.len()
        invariant
            v == if_view(ifs@),
            i <= ifs@.len(),
            first_address(v.skip(i as int), of_card) == first_address(v, of_card),
        decreases ifs@.len() - i,
    {
        assert(v.skip(i as int)[0] == (ifs@[i as int].0@, ifs@[i as int].1@));
        assert(v.skip(i as int).skip(1) =~= v.skip(i + 1));
        let name = ifs[i].0.as_str();
        let right = if of_card {
            card(name)
        } else {
            !tunnel(name)
        };
        if ifs[i].1.usable() && right {
            return Some(ifs[i].1.text());
        }
        i += 1;
    }
    None
}

/// Chooses the address that the hub is announced at, from its interfaces.
pub fn choose_host(ifs: &Vec<(String, Ip)>) -> (r: String)
    ensures
        r@ == reachable_at(if_view(ifs@)),
{
    match find_address(ifs, true) {
        Some(t) => t,
        None => match find_address(ifs, false) {
            Some(t) => t,
            None => "<this-machine>".to_owned(),
        },
    }
}

/// The port of an address with a port: what follows its last colon.
pub open spec fn port_in(addr: Seq<char>) -> Seq<char> {
    fields(addr, ':').last()
}

pub fn port_of(addr: &str) -> (r: String)
    ensures
        r@ == port_in(addr@),
{
    let fs = split(addr, ':');
    proof {
        lemma_fields_first(addr@, ':');
        assert(fs.deep_view().last() == fs@[fs@.len() - 1]@);
    }
    let n: usize = fs.len();
    fs[n - 1].clone()
}

/// Where rovers find the broker.
pub fn locator(host: &str, broker_addr: &str) -> (r: String)
    ensures
        r@ == "mqtt://"@ + host@ + ":"@ + port_in(broker_addr@),
{
    let mut s = "mqtt://".to_owned();
    s.append(host);
    s.append(":");
    s.append(port_of(broker_addr).as_str());
    s
}

// ---- Laws ----

proof fn lemma_claims_two(ls: Seq<Lease>, i: int, j: int)
    requires
        0 <= i < j < ls.len(),
        ls[i].id == ls[j].id,
    ensures
        claims(ls, ls[i].id) >= 2,
    decreases ls.len(),
{
    let init = ls.drop_last();
    if j == ls.len() - 1 {
        lemma_claims_one(init, i);
    } else {
        lemma_claims_two(init, i, j);
    }
}

proof fn lemma_claims_one(ls: Seq<Lease>, i: int)
    requires
        0 <= i < ls.len(),
    ensures
        claims(ls, ls[i].id) >= 1,
    decreases ls.len(),
{
    if i < ls.len() - 1 {
        lemma_claims_one(ls.drop_last(), i);
    }
}

/// An id that two leases claim vouches for nobody: whoever imitates a board's address takes its
/// name off the list, and gets nothing.
pub proof fn law_an_ambiguous_id_vouches_for_nobody(ls: Seq<Lease>, i: int, j: int)
    requires
        0 <= i < j < ls.len(),
        ls[i].id == ls[j].id,
    ensures
        !vouched(ls).contains_key(ls[i].id),
{
    lemma_claims_two(ls, i, j);
}

/// A board whose id no other lease claims is vouched for, at the address it holds.
pub proof fn law_a_sole_lease_vouches(ls: Seq<Lease>, i: int)
    requires
        0 <= i < ls.len(),
        forall|j: int| 0 <= j < ls.len() && j != i ==> (#[trigger] ls[j]).id != ls[i].id,
    ensures
        vouched(ls).contains_key(ls[i].id),
        vouched(ls)[ls[i].id] == Doc::Text(ls[i].ip),
{
    lemma_sole(ls, i);
}

proof fn lemma_no_claims(ls: Seq<Lease>, id: Seq<char>)
    requires
        forall|j: int| 0 <= j < ls.len() ==> (#[trigger] ls[j]).id != id,
    ensures
        claims(ls, id) == 0,
    decreases ls.len(),
{
    if ls.len() > 0 {
        assert(ls[ls.len() - 1].id != id);
        lemma_no_claims(ls.drop_last(), id);
    }
}

proof fn lemma_sole(ls: Seq<Lease>, i: int)
    requires
        0 <= i < ls.len(),
        forall|j: int| 0 <= j < ls.len() && j != i ==> (#[trigger] ls[j]).id != ls[i].id,
    ensures
        claims(ls, ls[i].id) == 1,
        claimed(ls, ls[i].id) == ls[i].ip,
    decreases ls.len(),
{
    let init = ls.drop_last();
    assert forall|j: int| 0 <= j < init.len() && j != i implies (#[trigger] init[j]).id
        != ls[i].id by {
        assert(ls[j].id != ls[i].id);
    }
    if i == ls.len() - 1 {
        lemma_no_claims(init, ls[i].id);
    } else {
        assert(ls[ls.len() - 1].id != ls[i].id);
        lemma_sole(init, i);
    }
}

/// Nobody else is vouched for: every id on the list, and its address, is in a lease.
pub proof fn law_only_leases_vouch(ls: Seq<Lease>, id: Seq<char>)
    requires
        vouched(ls).contains_key(id),
    ensures
        exists|i: int|
            0 <= i < ls.len() && (#[trigger] ls[i]).id == id && vouched(ls)[id] == Doc::Text(ls[i].ip),
{
    lemma_claimed(ls, id);
}

proof fn lemma_claimed(ls: Seq<Lease>, id: Seq<char>)
    requires
        claims(ls, id) >= 1,
    ensures
        exists|i: int| 0 <= i < ls.len() && (#[trigger] ls[i]).id == id && claimed(ls, id) == ls[i].ip,
    decreases ls.len(),
{
    let init = ls.drop_last();
    if ls.last().id == id {
        assert(ls[ls.len() - 1].id == id);
    } else {
        lemma_claimed(init, id);
        let i = choose|i: int|
            0 <= i < init.len() && (#[trigger] init[i]).id == id && claimed(init, id) == init[i].ip;
        assert(ls[i].id == id);
    }
}

proof fn lemma_claims_join(a: Seq<Lease>, b: Seq<Lease>, id: Seq<char>)
    ensures
        claims(a + b, id) == claims(a, id) + claims(b, id),
        claimed(a + b, id) == if claims(b, id) > 0 {
            claimed(b, id)
        } else {
            claimed(a, id)
        },
        claims(b, id) == 0 ==> claimed(b, id) == Seq::<char>::empty(),
    decreases b.len(),
{
    if b.len() == 0 {
        assert(a + b =~= a);
    } else {
        assert((a + b).drop_last() =~= a + b.drop_last());
        lemma_claims_join(a, b.drop_last(), id);
    }
}

/// In which order the lease files are read does not matter.
pub proof fn law_the_order_of_files_does_not_matter(a: Seq<Lease>, b: Seq<Lease>)
    ensures
        vouched(a + b) == vouched(b + a),
{
    assert forall|id: Seq<char>| claims(a + b, id) == claims(b + a, id) && (claims(a + b, id) == 1
        ==> claimed(a + b, id) == claimed(b + a, id)) by {
        lemma_claims_join(a, b, id);
        lemma_claims_join(b, a, id);
    }
    assert(vouched(a + b) =~= vouched(b + a));
}

/// Is this character the hexadecimal digit for `n`, in either case?
pub open spec fn is_digit_for(c: char, n: int) -> bool {
    c == "0123456789abcdef"@[n] || c == "0123456789ABCDEF"@[n]
}

/// Are these the two digits that write a byte, in either case?
pub open spec fn writes_byte(t: Seq<char>, b: u8) -> bool {
    &&& t.len() == 2
    &&& is_digit_for(t[0], (b / 16) as int)
    &&& is_digit_for(t[1], (b % 16) as int)
}

/// A hardware address, as it is written of its octets.
pub open spec fn written_mac(o: Seq<Seq<char>>) -> Seq<char> {
    o[0] + ":"@ + (o[1] + ":"@ + (o[2] + ":"@ + (o[3] + ":"@ + (o[4] + ":"@ + o[5]))))
}

/// No white space in it.
pub open spec fn unspaced(w: Seq<char>) -> bool {
    forall|i: int| 0 <= i < w.len() ==> !is_space(#[trigger] w[i])
}

/// No white space in it, and something.
pub open spec fn is_word(w: Seq<char>) -> bool {
    w.len() > 0 && unspaced(w)
}

proof fn lemma_byte_is_read(t: Seq<char>, b: u8)
    requires
        writes_byte(t, b),
    ensures
        unsigned_number(t, 16) == Some(b as int),
        !t.contains(':'),
        is_word(t),
{
    let hi = (b / 16) as int;
    let lo = (b % 16) as int;
    reveal_strlit("0123456789abcdef");
    reveal_strlit("0123456789ABCDEF");
    law_digits_are_worth_their_place(hi, t[0]);
    law_digits_are_worth_their_place(lo, t[1]);
    let first = seq![t[0]];
    assert(t =~= first.push(t[1]));
    law_numerals_are_read(first, t[1], 16, 0);
}

proof fn lemma_small_byte(t: Seq<char>, b: u8)
    requires
        writes_byte(t, b),
    ensures
        small(t) == seq![
            "0123456789abcdef"@[(b / 16) as int],
            "0123456789abcdef"@[(b % 16) as int],
        ],
{
    reveal_strlit("0123456789abcdef");
    reveal_strlit("0123456789ABCDEF");
    assert(is_ascii_chars(t));
    assert(small(t) =~= seq![
        "0123456789abcdef"@[(b / 16) as int],
        "0123456789abcdef"@[(b % 16) as int],
    ]);
}

/// One octet before a text that begins with others.
proof fn lemma_octet_leads(o: Seq<char>, rest: Seq<char>)
    requires
        !o.contains(':'),
        unspaced(o),
        unspaced(rest),
    ensures
        fields(o + ":"@ + rest, ':') == seq![o] + fields(rest, ':'),
        is_word(o + ":"@ + rest),
{
    reveal_strlit(":");
    assert(":"@ =~= seq![':']);
    law_separators_cut(o, ':', rest);
    lemma_word_joins(o, rest);
}

proof fn lemma_six_octets(o: Seq<Seq<char>>)
    requires
        o.len() == 6,
        forall|i: int| 0 <= i < 6 ==> !(#[trigger] o[i]).contains(':') && unspaced(o[i]),
    ensures
        fields(written_mac(o), ':') == o,
        is_word(written_mac(o)),
{
    let m5 = o[5];
    let m4 = o[4] + ":"@ + m5;
    let m3 = o[3] + ":"@ + m4;
    let m2 = o[2] + ":"@ + m3;
    let m1 = o[1] + ":"@ + m2;
    law_separators_cut(m5, ':', m5);
    lemma_octet_leads(o[4], m5);
    lemma_octet_leads(o[3], m4);
    lemma_octet_leads(o[2], m3);
    lemma_octet_leads(o[1], m2);
    lemma_octet_leads(o[0], m1);
    let f4 = seq![o[4]] + seq![o[5]];
    let f3 = seq![o[3]] + f4;
    let f2 = seq![o[2]] + f3;
    let f1 = seq![o[1]] + f2;
    assert(seq![o[0]] + f1 =~= o);
}

proof fn lemma_word_joins(a: Seq<char>, b: Seq<char>)
    requires
        unspaced(a),
        unspaced(b),
    ensures
        is_word(a + ":"@ + b),
{
    reveal_strlit(":");
    let s = a + ":"@ + b;
    assert forall|i: int| 0 <= i < s.len() implies !is_space(#[trigger] s[i]) by {
        if i < a.len() {
            assert(s[i] == a[i]);
        } else if i > a.len() {
            assert(s[i] == b[i - a.len() - 1]);
        }
    }
}

/// A lease of a hardware address is a board's exactly if a maker assigned the address: if the bit
/// that marks an address as made up, the second lowest of its first byte, is not set, whatever its
/// other bits are. The board is named by its last two bytes in small digits, and is at the address
/// that was leased.
pub proof fn law_assigned_addresses_are_boards(
    expiry: Seq<char>,
    gap: Seq<char>,
    mac: Seq<u8>,
    octets: Seq<Seq<char>>,
    space: Seq<char>,
    ip: Seq<char>,
    rest: Seq<char>,
)
    requires
        is_word(expiry),
        gap.len() > 0 && blank(gap),
        mac.len() == 6 && octets.len() == 6,
        forall|i: int| 0 <= i < 6 ==> writes_byte(#[trigger] octets[i], mac[i]),
        space.len() > 0 && blank(space),
        is_word(ip),
        rest.len() > 0 ==> is_space(rest[0]),
    ensures
        lease_of(expiry + (gap + written_mac(octets) + (space + ip + rest))) == if mac[0] & 2 == 0 {
            Some(
                Lease {
                    id: "rover-"@ + seq![
                        "0123456789abcdef"@[(mac[4] / 16) as int],
                        "0123456789abcdef"@[(mac[4] % 16) as int],
                        "0123456789abcdef"@[(mac[5] / 16) as int],
                        "0123456789abcdef"@[(mac[5] % 16) as int],
                    ],
                    ip,
                },
            )
        } else {
            None
        },
{
    assert forall|i: int| 0 <= i < 6 implies !(#[trigger] octets[i]).contains(':') && unspaced(
        octets[i],
    ) by {
        lemma_byte_is_read(octets[i], mac[i]);
    }
    lemma_byte_is_read(octets[0], mac[0]);
    law_only_the_first_octet_is_read(expiry, gap, octets, mac[0], space, ip, rest);
    lemma_small_byte(octets[4], mac[4]);
    lemma_small_byte(octets[5], mac[5]);
    assert("rover-"@ + small(octets[4]) + small(octets[5]) =~= "rover-"@ + seq![
        "0123456789abcdef"@[(mac[4] / 16) as int],
        "0123456789abcdef"@[(mac[4] % 16) as int],
        "0123456789abcdef"@[(mac[5] / 16) as int],
        "0123456789abcdef"@[(mac[5] % 16) as int],
    ]);
}

/// Of the six octets only the first is read as a number, and only the last two make the name, as
/// they are written but for their case.
pub proof fn law_only_the_first_octet_is_read(
    expiry: Seq<char>,
    gap: Seq<char>,
    octets: Seq<Seq<char>>,
    first: u8,
    space: Seq<char>,
    ip: Seq<char>,
    rest: Seq<char>,
)
    requires
        is_word(expiry),
        gap.len() > 0 && blank(gap),
        octets.len() == 6,
        forall|i: int| 0 <= i < 6 ==> !(#[trigger] octets[i]).contains(':') && unspaced(octets[i]),
        unsigned_number(octets[0], 16) == Some(first as int),
        space.len() > 0 && blank(space),
        is_word(ip),
        rest.len() > 0 ==> is_space(rest[0]),
    ensures
        lease_of(expiry + (gap + written_mac(octets) + (space + ip + rest))) == if first & 2 == 0 {
            Some(Lease { id: "rover-"@ + small(octets[4]) + small(octets[5]), ip })
        } else {
            None
        },
{
    let m = written_mac(octets);
    let third = space + ip + rest;
    let second = gap + m + third;
    let line = expiry + second;
    lemma_six_octets(octets);
    assert(is_space(gap[0]) && is_space(space[0]));
    assert(second[0] == gap[0] && third[0] == space[0]);
    let none = Seq::<char>::empty();
    assert(none + expiry + second =~= line);
    law_white_space_parts_words(none, expiry, second);
    law_white_space_parts_words(gap, m, third);
    law_white_space_parts_words(space, ip, rest);
    let ws = word_seq(line);
    assert(ws[1] == m && ws[2] == ip);
    assert((first & 2 == 0) <==> (first / 2) % 2 == 0) by (bit_vector);
}

/// Nothing else is a lease: a line with fewer than three words is none, nor is one whose second
/// word has not five colons, or begins with what is no hexadecimal byte.
pub proof fn law_other_lines_are_no_leases(line: Seq<char>)
    ensures
        word_seq(line).len() < 3 ==> lease_of(line) is None,
        word_seq(line).len() >= 3 && fields(word_seq(line)[1], ':').len() != 6 ==> lease_of(
            line,
        ) is None,
        word_seq(line).len() >= 3 && (unsigned_number(
            head_field(word_seq(line)[1], ':'),
            16,
        ) is None || unsigned_number(head_field(word_seq(line)[1], ':'), 16)->0 > 255) ==> lease_of(
            line,
        ) is None,
{
    if word_seq(line).len() >= 3 {
        lemma_fields_first(word_seq(line)[1], ':');
    }
}

/// Every line of every file counts, each for itself.
pub proof fn law_every_line_counts(
    a: Seq<Seq<char>>,
    b: Seq<Seq<char>>,
    line: Seq<char>,
    file: Seq<char>,
)
    ensures
        leases_in(a + b) == leases_in(a) + leases_in(b),
        leases_in(seq![line]) == match lease_of(line) {
            Some(l) => seq![l],
            None => Seq::empty(),
        },
        all_leases(a + b) == all_leases(a) + all_leases(b),
        all_leases(seq![file]) == leases_in(line_seq(file)),
{
    lemma_lines_add_up(a, b);
    lemma_files_add_up(a, b);
    assert(seq![line].drop_last() =~= Seq::<Seq<char>>::empty());
    assert(leases_in(seq![line].drop_last()) =~= Seq::<Lease>::empty());
    assert(leases_in(seq![line]) =~= match lease_of(line) {
        Some(l) => seq![l],
        None => Seq::empty(),
    });
    assert(seq![file].drop_last() =~= Seq::<Seq<char>>::empty());
    assert(all_leases(seq![file].drop_last()) =~= Seq::<Lease>::empty());
    assert(all_leases(seq![file]) =~= leases_in(line_seq(file)));
}

proof fn lemma_lines_add_up(a: Seq<Seq<char>>, b: Seq<Seq<char>>)
    ensures
        leases_in(a + b) == leases_in(a) + leases_in(b),
    decreases b.len(),
{
    if b.len() == 0 {
        assert(a + b =~= a);
        assert(leases_in(a) + leases_in(b) =~= leases_in(a));
    } else {
        assert((a + b).drop_last() =~= a + b.drop_last());
        lemma_lines_add_up(a, b.drop_last());
        assert(leases_in(a + b) =~= leases_in(a) + leases_in(b));
    }
}

proof fn lemma_files_add_up(a: Seq<Seq<char>>, b: Seq<Seq<char>>)
    ensures
        all_leases(a + b) == all_leases(a) + all_leases(b),
    decreases b.len(),
{
    if b.len() == 0 {
        assert(a + b =~= a);
        assert(all_leases(a) + all_leases(b) =~= all_leases(a));
    } else {
        assert((a + b).drop_last() =~= a + b.drop_last());
        lemma_files_add_up(a, b.drop_last());
        assert(all_leases(a + b) =~= all_leases(a) + all_leases(b));
    }
}

/// Lease files are those whose name is made of the one prefix, anything, and the one ending.
pub proof fn law_lease_files_are_told_by_name(name: Seq<char>, middle: Seq<char>)
    ensures
        names_leases("dnsmasq-"@ + middle + ".leases"@),
        names_leases(name) ==> exists|x: Seq<char>| name == #[trigger] ("dnsmasq-"@ + x + ".leases"@),
{
    reveal_strlit("dnsmasq-");
    reveal_strlit(".leases");
    let p = "dnsmasq-"@;
    let e = ".leases"@;
    let s = p + middle + e;
    let n = s.len() as int;
    assert(s.subrange(0, 8) =~= p);
    assert(s.subrange(n - 7, n) =~= e);
    if names_leases(name) {
        let m = name.len() as int;
        assert(name.subrange(0, 8) == p);
        assert(name.subrange(m - 7, m) == e);
        assert(name[7] == name.subrange(0, 8)[7]);
        if m < 15 {
            assert(name[7] == name.subrange(m - 7, m)[14 - m]);
        }
        assert(name =~= p + name.subrange(8, m - 7) + e);
    }
}

/// The hub's name is what the system says, without the white space around it.
pub proof fn law_the_host_goes_by_its_name(pad: Seq<char>, name: Seq<char>, end: Seq<char>)
    requires
        blank(pad),
        snug(name),
        blank(end),
    ensures
        host_name(Some(pad + name + end)) == name,
        host_name(None) == "hub"@,
{
    law_trimming_leaves_the_middle(pad, name, end);
}

/// What the dashboard asks for has each fact under its own name, and nothing else.
pub proof fn law_the_fleet_says_what_is_known(
    uplink: Seq<char>,
    locator: Seq<char>,
    ssid: Seq<char>,
    host: Seq<char>,
    boards: Map<Seq<char>, Doc>,
    key: Seq<char>,
)
    ensures
        ({
            let d = fleet_doc(uplink, locator, ssid, host, boards);
            &&& member(d, "uplink"@) == Some(Doc::Text(uplink))
            &&& member(d, "locator"@) == Some(Doc::Text(locator))
            &&& member(d, "ssid"@) == Some(Doc::Text(ssid))
            &&& member(d, "host"@) == Some(Doc::Text(host))
            &&& member(d, "boards"@) == Some(Doc::Object(boards))
            &&& member(d, key) is Some ==> key == "uplink"@ || key == "locator"@ || key == "ssid"@
                || key == "host"@ || key == "boards"@
        }),
{
    reveal_strlit("uplink");
    reveal_strlit("locator");
    reveal_strlit("ssid");
    reveal_strlit("host");
    reveal_strlit("boards");
    assert("ssid"@[0] == 's' && "host"@[0] == 'h' && "uplink"@[0] == 'u' && "boards"@[0] == 'b'
        && "locator"@[0] == 'l');
}

/// The status of the Wi-Fi has each fact under its own name: no network is told as null.
pub proof fn law_the_wifi_status_says_what_is_known(
    ssid: Seq<char>,
    uplink: Seq<char>,
    ifaces: Doc,
)
    ensures
        ({
            let d = wifi_status_doc(Some(ssid), uplink, ifaces);
            &&& member(d, "ssid"@) == Some(Doc::Text(ssid))
            &&& member(d, "uplink"@) == Some(Doc::Text(uplink))
            &&& member(d, "ifaces"@) == Some(ifaces)
        }),
        member(wifi_status_doc(None, uplink, ifaces), "ssid"@) == Some(Doc::Null),
{
    reveal_strlit("uplink");
    reveal_strlit("ssid");
    reveal_strlit("ifaces");
    assert("ssid"@[0] == 's' && "ifaces"@[0] == 'i' && "uplink"@[0] == 'u');
}

/// Network cards are told by how their names begin.
pub proof fn law_cards_are_told_by_name(name: Seq<char>, rest: Seq<char>)
    ensures
        is_card("en"@ + rest),
        is_card("eth"@ + rest),
        is_card("wl"@ + rest),
        is_card(name) ==> name.len() >= 2 && (name[0] == 'e' && name[1] == 'n' || name[0] == 'w'
            && name[1] == 'l' || name.len() >= 3 && name[0] == 'e' && name[1] == 't' && name[2]
            == 'h'),
{
    reveal_strlit("en");
    reveal_strlit("eth");
    reveal_strlit("wl");
    assert(("en"@ + rest).subrange(0, 2) =~= "en"@);
    assert(("eth"@ + rest).subrange(0, 3) =~= "eth"@);
    assert(("wl"@ + rest).subrange(0, 2) =~= "wl"@);
    if is_card(name) {
        if "en"@.is_prefix_of(name) || "wl"@.is_prefix_of(name) {
            assert(name.subrange(0, 2)[0] == name[0] && name.subrange(0, 2)[1] == name[1]);
        } else {
            assert(name.subrange(0, 3)[0] == name[0] && name.subrange(0, 3)[1] == name[1]
                && name.subrange(0, 3)[2] == name[2]);
        }
    }
}

/// Tunnels and bridges are told by how their names begin; nothing else is one.
pub proof fn law_tunnels_are_told_by_name(name: Seq<char>, rest: Seq<char>)
    ensures
        is_tunnel("utun"@ + rest),
        is_tunnel("tun"@ + rest),
        is_tunnel("tailscale"@ + rest),
        is_tunnel("docker"@ + rest),
        is_tunnel("veth"@ + rest),
        is_tunnel("br-"@ + rest),
        is_tunnel(name) ==> exists|tail: Seq<char>|
            {
                ||| name == "utun"@ + tail
                ||| name == "tun"@ + tail
                ||| name == "tailscale"@ + tail
                ||| name == "docker"@ + tail
                ||| name == "veth"@ + tail
                ||| name == #[trigger] ("br-"@ + tail)
            },
{
    assert(("utun"@ + rest).subrange(0, "utun"@.len() as int) =~= "utun"@);
    assert(("tun"@ + rest).subrange(0, "tun"@.len() as int) =~= "tun"@);
    assert(("tailscale"@ + rest).subrange(0, "tailscale"@.len() as int) =~= "tailscale"@);
    assert(("docker"@ + rest).subrange(0, "docker"@.len() as int) =~= "docker"@);
    assert(("veth"@ + rest).subrange(0, "veth"@.len() as int) =~= "veth"@);
    assert(("br-"@ + rest).subrange(0, "br-"@.len() as int) =~= "br-"@);
    if is_tunnel(name) {
        let p = if "utun"@.is_prefix_of(name) {
            "utun"@
        } else if "tun"@.is_prefix_of(name) {
            "tun"@
        } else if "tailscale"@.is_prefix_of(name) {
            "tailscale"@
        } else if "docker"@.is_prefix_of(name) {
            "docker"@
        } else if "veth"@.is_prefix_of(name) {
            "veth"@
        } else {
            "br-"@
        };
        let tail = name.skip(p.len() as int);
        assert(name =~= p + tail);
        let w = "br-"@ + tail;
    }
}

/// The hub is announced at its first card with an address that others can reach; where no card has
/// one, at the first other interface that is no tunnel; and where that is missing too, nowhere.
pub proof fn law_the_hub_is_found_at_a_card(ifs: Seq<(Seq<char>, Addr)>, i: int)
    requires
        0 <= i <= ifs.len(),
    ensures
        i < ifs.len() && is_usable(ifs[i].1) && is_card(ifs[i].0) && (forall|j: int|
            0 <= j < i ==> !(is_usable((#[trigger] ifs[j]).1) && is_card(ifs[j].0)))
            ==> reachable_at(ifs) == addr_text(ifs[i].1),
        i < ifs.len() && is_usable(ifs[i].1) && !is_tunnel(ifs[i].0) && (forall|j: int|
            0 <= j < i ==> !(is_usable((#[trigger] ifs[j]).1) && !is_tunnel(ifs[j].0))) && (forall|
            j: int,
        |
            0 <= j < ifs.len() ==> !(is_usable((#[trigger] ifs[j]).1) && is_card(ifs[j].0)))
            ==> reachable_at(ifs) == addr_text(ifs[i].1),
        (forall|j: int|
            0 <= j < ifs.len() ==> !is_usable((#[trigger] ifs[j]).1) || (is_tunnel(ifs[j].0)
                && !is_card(ifs[j].0))) ==> reachable_at(ifs) == "<this-machine>"@,
{
    lemma_first_address(ifs, true, i);
    lemma_first_address(ifs, false, i);
    lemma_first_address(ifs, true, ifs.len() as int);
    lemma_first_address(ifs, false, ifs.len() as int);
}

spec fn is_right(f: (Seq<char>, Addr), card: bool) -> bool {
    is_usable(f.1) && (if card {
        is_card(f.0)
    } else {
        !is_tunnel(f.0)
    })
}

proof fn lemma_first_address(ifs: Seq<(Seq<char>, Addr)>, card: bool, i: int)
    requires
        0 <= i <= ifs.len(),
    ensures
        (forall|j: int| 0 <= j < i ==> !is_right(#[trigger] ifs[j], card)) ==> (if i < ifs.len() {
            is_right(ifs[i], card) ==> first_address(ifs, card) == Some(ifs[i].1)
        } else {
            first_address(ifs, card) is None
        }),
    decreases i,
{
    if i > 0 && forall|j: int| 0 <= j < i ==> !is_right(#[trigger] ifs[j], card) {
        let rest = ifs.skip(1);
        assert(!is_right(ifs[0], card));
        assert forall|j: int| 0 <= j < i - 1 implies !is_right(#[trigger] rest[j], card) by {
            assert(rest[j] == ifs[j + 1]);
        }
        lemma_first_address(rest, card, i - 1);
        assert(i < ifs.len() ==> rest[i - 1] == ifs[i]);
    }
}

/// The port is what follows the last colon, whatever stands before it.
pub proof fn law_ports_follow_the_last_colon(host: Seq<char>, port: Seq<char>)
    requires
        !port.contains(':'),
    ensures
        port_in(host + seq![':'] + port) == port,
        port_in(port) == port,
{
    law_separators_cut(port, ':', port);
    lemma_fields_join(host + seq![':'], port, ':');
}

/// Rovers are told to find the broker at the host, on the port that the broker listens on.
pub proof fn law_locators_name_host_and_port(
    host: &str,
    addr: &str,
    before: Seq<char>,
    port: Seq<char>,
    r: String,
)
    requires
        call_ensures(locator, (host, addr), r),
        addr@ == before + seq![':'] + port,
        !port.contains(':'),
    ensures
        r@ == "mqtt://"@ + host@ + ":"@ + port,
{
    law_ports_follow_the_last_colon(before, port);
}

/// Whom the hub vouches for is told from the lease files alone, as the laws on them say.
pub proof fn law_boards_are_vouched_for(
    files: Vec<String>,
    out: serde_json::Map<String, serde_json::Value>,
)
    requires
        call_ensures(vouched_boards, (&files,), out),
    ensures
        members(out) == vouched(all_leases(files.deep_view())),
{
}

} // verus!
