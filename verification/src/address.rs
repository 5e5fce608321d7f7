//! Network addresses.
use vstd::prelude::*;
use vstd::string::*;

use crate::number::{decimal, decimal_text, law_decimal_reads_back, lemma_decimal_plain};
use crate::text::{fields, law_separators_cut, lemma_append, same};

verus! {

/// An address: the four numbers of IPv4, or the canonical text of IPv6.
pub enum Ip {
    V4(u8, u8, u8, u8),
    V6(String),
}

/// An address, in contracts.
pub enum Addr {
    V4(u8, u8, u8, u8),
    V6(Seq<char>),
}

impl View for Ip {
    type V = Addr;

    open spec fn view(&self) -> Addr {
        match self {
            Ip::V4(a, b, c, d) => Addr::V4(*a, *b, *c, *d),
            Ip::V6(s) => Addr::V6(s@),
        }
    }
}

/// The text of an address: dotted for IPv4.
pub open spec fn addr_text(a: Addr) -> Seq<char> {
    match a {
        Addr::V4(a, b, c, d) => decimal(a as nat) + "."@ + decimal(b as nat) + "."@ + decimal(
            c as nat,
        ) + "."@ + decimal(d as nat),
        Addr::V6(s) => s,
    }
}

/// Can a device on a LAN reach it? Not loopback, not link-local, and IPv4.
pub open spec fn is_usable(a: Addr) -> bool {
    a matches Addr::V4(a, b, _, _) && a != 127 && !(a == 169 && b == 254)
}

impl Ip {
    pub fn text(&self) -> (r: String)
        ensures
            r@ == addr_text(self@),
    {
        match self {
            Ip::V4(a, b, c, d) => {
                let mut s = decimal_text(*a as u64);
                s.append(".");
                s.append(decimal_text(*b as u64).as_str());
                s.append(".");
                s.append(decimal_text(*c as u64).as_str());
                s.append(".");
                s.append(decimal_text(*d as u64).as_str());
                s
            },
            Ip::V6(s) => s.clone(),
        }
    }

    pub fn equals(&self, other: &Ip) -> (r: bool)
        ensures
            r == (self@ == other@),
    {
        match (self, other) {
            (Ip::V4(a, b, c, d), Ip::V4(e, f, g, h)) => *a == *e && *b == *f && *c == *g && *d == *h,
            (Ip::V6(s), Ip::V6(t)) => same(s.as_str(), t.as_str()),
            _ => false,
        }
    }

    pub fn copy(&self) -> (r: Ip)
        ensures
            r@ == self@,
    {
        match self {
            Ip::V4(a, b, c, d) => Ip::V4(*a, *b, *c, *d),
            Ip::V6(s) => Ip::V6(s.clone()),
        }
    }

    pub fn usable(&self) -> (r: bool)
        ensures
            r == is_usable(self@),
    {
        match self {
            Ip::V4(a, b, _, _) => *a != 127 && !(*a == 169 && *b == 254),
            Ip::V6(_) => false,
        }
    }
}

// ---- Laws ----

/// A numeral, then a dot, is read off the front of a text in only one way.
proof fn lemma_dotted_part(m: nat, n: nat, x: Seq<char>, y: Seq<char>)
    requires
        decimal(m) + "."@ + x == decimal(n) + "."@ + y,
    ensures
        m == n,
        x == y,
{
    reveal_strlit(".");
    lemma_decimal_plain(m);
    lemma_decimal_plain(n);
    let p = decimal(m);
    let q = decimal(n);
    let i = p.len() as int;
    let j = q.len() as int;
    let s = p + "."@ + x;
    let t = q + "."@ + y;
    assert(s[i] == '.');
    assert(t[j] == '.');
    if i < j {
        assert(t[i] == q[i]);
    }
    if j < i {
        assert(s[j] == p[j]);
    }
    assert(p =~= s.take(i));
    assert(q =~= t.take(j));
    assert(x =~= s.skip(i + 1));
    assert(y =~= t.skip(j + 1));
    lemma_decimal_injective(m, n);
}

/// Dotted parts, grouped from the right.
proof fn lemma_dotted_groups(a: Seq<char>, b: Seq<char>, c: Seq<char>, d: Seq<char>)
    ensures
        a + "."@ + b + "."@ + c + "."@ + d == a + "."@ + (b + "."@ + (c + "."@ + d)),
{
    let dot = "."@;
    let p = a + dot;
    lemma_append(p + b + dot, c, dot);
    lemma_append(p + b + dot, c + dot, d);
    lemma_append(p, b, dot);
    lemma_append(p, b + dot, c + dot + d);
}

proof fn lemma_decimal_injective(m: nat, n: nat)
    requires
        decimal(m) == decimal(n),
    ensures
        m == n,
{
    law_decimal_reads_back(m);
    law_decimal_reads_back(n);
}

/// Different IPv4 addresses have different texts.
pub proof fn law_addresses_are_told_apart(a: Addr, b: Addr)
    requires
        a is V4,
        b is V4,
        addr_text(a) == addr_text(b),
    ensures
        a == b,
{
    match (a, b) {
        (Addr::V4(a1, a2, a3, a4), Addr::V4(b1, b2, b3, b4)) => {
            let (p1, p2, p3, p4) = (
                decimal(a1 as nat),
                decimal(a2 as nat),
                decimal(a3 as nat),
                decimal(a4 as nat),
            );
            let (q1, q2, q3, q4) = (
                decimal(b1 as nat),
                decimal(b2 as nat),
                decimal(b3 as nat),
                decimal(b4 as nat),
            );
            lemma_dotted_groups(p1, p2, p3, p4);
            lemma_dotted_groups(q1, q2, q3, q4);
            let (x3, y3) = (p4, q4);
            let (x2, y2) = (p3 + "."@ + x3, q3 + "."@ + y3);
            let (x1, y1) = (p2 + "."@ + x2, q2 + "."@ + y2);
            lemma_dotted_part(a1 as nat, b1 as nat, x1, y1);
            lemma_dotted_part(a2 as nat, b2 as nat, x2, y2);
            lemma_dotted_part(a3 as nat, b3 as nat, x3, y3);
            lemma_decimal_injective(a4 as nat, b4 as nat);
        },
        _ => {},
    }
}

/// Devices on a LAN reach every IPv4 address but the loopback ones and the link-local ones, and
/// none of IPv6, whose text is kept as it is.
pub proof fn law_which_addresses_are_usable(a: u8, b: u8, c: u8, d: u8, six: Seq<char>)
    ensures
        !is_usable(Addr::V4(127, b, c, d)),
        !is_usable(Addr::V4(169, 254, c, d)),
        !is_usable(Addr::V6(six)),
        addr_text(Addr::V6(six)) == six,
        a != 127 && (a != 169 || b != 254) ==> is_usable(Addr::V4(a, b, c, d)),
{
}

/// The text of an IPv4 address is its four numbers, between dots.
pub proof fn law_addresses_are_dotted(a: u8, b: u8, c: u8, d: u8)
    ensures
        fields(addr_text(Addr::V4(a, b, c, d)), '.') == seq![
            decimal(a as nat),
            decimal(b as nat),
            decimal(c as nat),
            decimal(d as nat),
        ],
{
    reveal_strlit(".");
    assert("."@ =~= seq!['.']);
    let (p, q, r, s) = (decimal(a as nat), decimal(b as nat), decimal(c as nat), decimal(d as nat));
    lemma_decimal_plain(a as nat);
    lemma_decimal_plain(b as nat);
    lemma_decimal_plain(c as nat);
    lemma_decimal_plain(d as nat);
    lemma_dotted_groups(p, q, r, s);
    law_separators_cut(s, '.', s);
    law_separators_cut(r, '.', s);
    law_separators_cut(q, '.', r + "."@ + s);
    law_separators_cut(p, '.', q + "."@ + (r + "."@ + s));
    assert(fields(addr_text(Addr::V4(a, b, c, d)), '.') =~= seq![p, q, r, s]);
}

} // verus!
