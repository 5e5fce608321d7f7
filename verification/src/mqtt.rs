//! The broker as a verifier of codes: one MQTT 3.1.1 CONNECT, and the CONNACK that answers it.
//!
//! No session, no subscription: the two packets ask the broker whether it would let a user in,
//! which can never disagree with the password file that the broker has loaded.
use vstd::prelude::*;
use vstd::utf8::encode_utf8;

use crate::bytes::{extend, utf8_bytes};

verus! {

/// The client id of the probe.
pub const CLIENT_ID: &'static str = "hubd-auth-probe";

/// A field of a packet: its length in two bytes, high byte first (the low 16 bits of it), then
/// its bytes.
pub open spec fn field(bytes: Seq<u8>) -> Seq<u8> {
    seq![((bytes.len() / 256) % 256) as u8, (bytes.len() % 256) as u8] + bytes
}

/// A length in groups of seven bits, the lowest first; all bytes but the last have the top bit set.
pub open spec fn varint(n: nat) -> Seq<u8>
    decreases n,
{
    if n < 128 {
        seq![n as u8]
    } else {
        seq![(n % 128 + 128) as u8] + varint(n / 128)
    }
}

/// Protocol name `MQTT`, level 4, flags for user name, password and clean session, keep-alive 30.
pub open spec fn connect_header() -> Seq<u8> {
    seq![0u8, 4u8, 77u8, 81u8, 84u8, 84u8, 4u8, 0xC2u8, 0u8, 30u8]
}

/// All of a CONNECT packet that its remaining length counts.
pub open spec fn connect_rest(user: Seq<char>, pass: Seq<char>) -> Seq<u8> {
    connect_header() + field(encode_utf8("hubd-auth-probe"@)) + field(encode_utf8(user)) + field(
        encode_utf8(pass),
    )
}

/// A CONNECT packet.
pub open spec fn connect_bytes(user: Seq<char>, pass: Seq<char>) -> Seq<u8> {
    let rest = connect_rest(user, pass);
    seq![0x10u8] + varint(rest.len()) + rest
}

fn push_field(v: &mut Vec<u8>, s: &str)
    ensures
        final(v)@ == old(v)@ + field(encode_utf8(s@)),
{
    let bytes = utf8_bytes(s);
    let len: usize = bytes.len();
    v.push(((len / 256) % 256) as u8);
    v.push((len % 256) as u8);
    extend(v, bytes.as_slice());
    assert(v@ =~= old(v)@ + field(encode_utf8(s@)));
}

/// The packet that asks the broker to let `user` in with `pass`.
pub fn connect_packet(user: &str, pass: &str) -> (r: Vec<u8>)
    ensures
        r@ == connect_bytes(user@, pass@),
{
    let mut vh: Vec<u8> = vec![0, 4, 77, 81, 84, 84, 4, 0xC2, 0, 30];
    assert(vh@ =~= connect_header());
    push_field(&mut vh, CLIENT_ID);
    push_field(&mut vh, user);
    push_field(&mut vh, pass);
    assert(vh@ =~= connect_rest(user@, pass@));
    let mut pkt: Vec<u8> = vec![0x10];
    let mut len: usize = vh.len();
    while len >= 128
        invariant
            seq![0x10u8] + varint(vh@.len()) =~= pkt@ + varint(len as nat),
        decreases len,
    {
        let ghost before = pkt@;
        pkt.push((len % 128 + 128) as u8);
        assert(before + varint(len as nat) =~= pkt@ + varint((len / 128) as nat));
        len = len / 128;
    }
    pkt.push(len as u8);
    assert(pkt@ =~= seq![0x10u8] + varint(vh@.len()));
    extend(&mut pkt, vh.as_slice());
    pkt
}

/// Does the answer let the user in? It must be a CONNACK with return code 0; no answer in time
/// does not.
pub fn connack_accepts(answer: Option<[u8; 4]>) -> (r: bool)
    ensures
        r == (answer matches Some(a) && a@[0] == 0x20 && a@[3] == 0),
{
    match answer {
        Some(a) => a[0] == 0x20 && a[3] == 0,
        None => false,
    }
}

// ---- Laws ----

/// The length that stands at the start of bytes, and how many bytes it takes.
pub open spec fn read_varint(b: Seq<u8>) -> Option<(nat, nat)>
    decreases b.len(),
{
    if b.len() == 0 {
        None
    } else if b[0] < 128 {
        Some((b[0] as nat, 1))
    } else {
        match read_varint(b.skip(1)) {
            Some(p) => Some(((b[0] - 128) as nat + 128 * p.0, p.1 + 1)),
            None => None,
        }
    }
}

/// The broker reads the length that was written, whatever follows it.
pub proof fn law_lengths_read_back(n: nat, rest: Seq<u8>)
    ensures
        read_varint(varint(n) + rest) == Some((n, varint(n).len())),
    decreases n,
{
    let b = varint(n) + rest;
    if n >= 128 {
        law_lengths_read_back(n / 128, rest);
        assert(b.skip(1) =~= varint(n / 128) + rest);
    }
}

/// The bytes of the field that stands at the start of bytes.
pub open spec fn read_field(b: Seq<u8>) -> Option<Seq<u8>> {
    let n = b[0] as int * 256 + b[1];
    if b.len() >= 2 && b.len() >= n + 2 {
        Some(b.subrange(2, n + 2))
    } else {
        None
    }
}

/// The broker reads from the packet the user and the code that were asked about, as long as each
/// takes less than 65536 bytes.
pub proof fn law_the_broker_reads_user_and_code(user: Seq<char>, pass: Seq<char>)
    requires
        encode_utf8(user).len() < 65536,
        encode_utf8(pass).len() < 65536,
    ensures
        ({
            let id = field(encode_utf8("hubd-auth-probe"@)).len() as int;
            let after_id = connect_rest(user, pass).skip(10 + id);
            let after_user = after_id.skip(encode_utf8(user).len() as int + 2);
            &&& read_field(after_id) == Some(encode_utf8(user))
            &&& read_field(after_user) == Some(encode_utf8(pass))
            &&& after_user.len() == encode_utf8(pass).len() + 2
        }),
{
    let rest = connect_rest(user, pass);
    let id = field(encode_utf8("hubd-auth-probe"@)).len() as int;
    let u = encode_utf8(user);
    let p = encode_utf8(pass);
    let after_id = rest.skip(10 + id);
    let after_user = after_id.skip(u.len() as int + 2);
    lemma_after_id(user, pass);
    assert(after_user =~= field(p));
    assert(after_user =~= field(p) + Seq::<u8>::empty());
    lemma_field_reads_back(u, field(p));
    lemma_field_reads_back(p, Seq::empty());
}

proof fn lemma_field_reads_back(bytes: Seq<u8>, rest: Seq<u8>)
    requires
        bytes.len() < 65536,
    ensures
        read_field(field(bytes) + rest) == Some(bytes),
{
    let b = field(bytes) + rest;
    let n = bytes.len() as int;
    assert(b[0] as int * 256 + b[1] == n);
    assert(b.subrange(2, n + 2) =~= bytes);
}

proof fn lemma_after_id(user: Seq<char>, pass: Seq<char>)
    ensures
        ({
            let id = field(encode_utf8("hubd-auth-probe"@));
            connect_rest(user, pass).skip(10 + id.len() as int) == field(encode_utf8(user)) + field(
                encode_utf8(pass),
            )
        }),
{
    let id = field(encode_utf8("hubd-auth-probe"@));
    assert(connect_rest(user, pass).skip(10 + id.len() as int) =~= field(encode_utf8(user)) + field(
        encode_utf8(pass),
    ));
}

/// The broker lets a user in exactly if it answers with a CONNACK whose return code is 0.
pub proof fn law_only_a_clean_connack_accepts(answer: Option<[u8; 4]>, r: bool)
    requires
        call_ensures(connack_accepts, (answer,), r),
    ensures
        answer is None ==> !r,
        answer is Some ==> (r <==> answer->0@[0] == 32 && answer->0@[3] == 0),
{
}

/// The packet is one CONNECT of the protocol's version 3.1.1, from start to end: its first byte, the
/// length of all that follows, the protocol with the flags for user, password and a clean session,
/// the client's name, the user and the code, each behind its length, and nothing more.
pub proof fn law_the_packet_is_one_connect(user: Seq<char>, pass: Seq<char>)
    ensures
        ({
            let p = connect_bytes(user, pass);
            let rest = connect_rest(user, pass);
            let id = encode_utf8("hubd-auth-probe"@);
            &&& p[0] == 16
            &&& read_varint(p.skip(1)) == Some((rest.len(), varint(rest.len()).len()))
            &&& p.skip(1 + varint(rest.len()).len() as int) == rest
            &&& rest.take(10) == seq![0u8, 4, 77, 81, 84, 84, 4, 194, 0, 30]
            &&& rest.len() == 31 + encode_utf8(user).len() + encode_utf8(pass).len()
            &&& read_field(rest.skip(10)) == Some(id)
        }),
{
    let p = connect_bytes(user, pass);
    let rest = connect_rest(user, pass);
    let id = encode_utf8("hubd-auth-probe"@);
    law_lengths_read_back(rest.len(), rest);
    assert(p.skip(1) =~= varint(rest.len()) + rest);
    assert(p.skip(1 + varint(rest.len()).len() as int) =~= rest);
    assert(rest.take(10) =~= connect_header());
    let after = rest.skip(10);
    assert(after =~= field(id) + (field(encode_utf8(user)) + field(encode_utf8(pass))));
    reveal_strlit("hubd-auth-probe");
    vstd::utf8::is_ascii_chars_encode_utf8("hubd-auth-probe"@);
    assert(id.len() == 15);
    lemma_field_reads_back(id, field(encode_utf8(user)) + field(encode_utf8(pass)));
}

} // verus!
