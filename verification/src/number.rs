//! Numerals: writing numbers as decimal and hexadecimal text, and reading them back.
use vstd::prelude::*;

use crate::text::chars;

verus! {

// ---- Writing ----

/// The digit for `d`: `0`-`9`, then `a`-`f`.
pub open spec fn digit_char(d: int) -> char {
    if d < 10 {
        (48 + d) as char
    } else {
        (87 + d) as char
    }
}

/// The decimal numeral of `n`, without leading zeros.
pub open spec fn decimal(n: nat) -> Seq<char>
    decreases n,
{
    if n < 10 {
        seq![digit_char(n as int)]
    } else {
        decimal(n / 10).push(digit_char((n % 10) as int))
    }
}

/// The decimal numeral of an integer, with a minus sign where it is negative.
pub open spec fn signed_decimal(i: int) -> Seq<char> {
    if i < 0 {
        seq!['-'] + decimal((-i) as nat)
    } else {
        decimal(i as nat)
    }
}

/// The lower-case hexadecimal numeral of `n`, without leading zeros.
pub open spec fn hex(n: nat) -> Seq<char>
    decreases n,
{
    if n < 16 {
        seq![digit_char(n as int)]
    } else {
        hex(n / 16).push(digit_char((n % 16) as int))
    }
}

/// A byte as two hexadecimal digits.
pub open spec fn hex_pair(b: u8) -> Seq<char> {
    seq![digit_char((b / 16) as int), digit_char((b % 16) as int)]
}

/// Bytes as hexadecimal text, two digits for each.
pub open spec fn hex_bytes(bytes: Seq<u8>) -> Seq<char>
    decreases bytes.len(),
{
    if bytes.len() == 0 {
        Seq::empty()
    } else {
        hex_bytes(bytes.drop_last()) + hex_pair(bytes.last())
    }
}

fn digit(d: u8) -> (c: char)
    requires
        d < 16,
    ensures
        c == digit_char(d as int),
{
    if d < 10 {
        (48 + d) as char
    } else {
        (87 + d) as char
    }
}

pub fn decimal_text(n: u64) -> (r: String)
    ensures
        r@ == decimal(n as nat),
    decreases n,
{
    if n < 10 {
        let mut s = String::new();
        s.push(digit(n as u8));
        assert(s@ =~= decimal(n as nat));
        s
    } else {
        let mut s = decimal_text(n / 10);
        s.push(digit((n % 10) as u8));
        s
    }
}

pub fn signed_text(i: i32) -> (r: String)
    ensures
        r@ == signed_decimal(i as int),
{
    if i < 0 {
        let mut s = String::new();
        s.push('-');
        let d = decimal_text((-(i as i64)) as u64);
        vstd::string::StringExecFns::append(&mut s, d.as_str());
        assert(s@ =~= signed_decimal(i as int));
        s
    } else {
        decimal_text(i as u64)
    }
}

pub fn hex_text(n: u64) -> (r: String)
    ensures
        r@ == hex(n as nat),
    decreases n,
{
    if n < 16 {
        let mut s = String::new();
        s.push(digit(n as u8));
        assert(s@ =~= hex(n as nat));
        s
    } else {
        let mut s = hex_text(n / 16);
        s.push(digit((n % 16) as u8));
        s
    }
}

pub fn hex_of_bytes(bytes: &[u8]) -> (r: String)
    ensures
        r@ == hex_bytes(bytes@),
{
    let mut s = String::new();
    let mut i: usize = 0;
    assert(bytes@.take(0) =~= Seq::<u8>::empty());
    while i < bytes.len()
        invariant
            i <= bytes@.len(),
            s@ == hex_bytes(bytes@.take(i as int)),
        decreases bytes@.len() - i,
    {
        let b = bytes[i];
        let ghost old_s = s@;
        s.push(digit(b / 16));
        s.push(digit(b % 16));
        let ghost t = bytes@.take(i + 1);
        assert(t.drop_last() =~= bytes@.take(i as int));
        assert(s@ =~= old_s + hex_pair(b));
        i += 1;
    }
    assert(bytes@.take(bytes@.len() as int) =~= bytes@);
    s
}

// ---- Reading ----

/// The value of a digit, in either case.
pub open spec fn digit_value(c: char) -> int {
    if '0' <= c <= '9' {
        c as int - 48
    } else if 'a' <= c <= 'f' {
        c as int - 87
    } else if 'A' <= c <= 'F' {
        c as int - 55
    } else {
        16
    }
}

/// Are all characters digits of the radix?
pub open spec fn all_digits(s: Seq<char>, radix: int) -> bool {
    forall|i: int| 0 <= i < s.len() ==> #[trigger] digit_value(s[i]) < radix
}

/// The value that the digits denote in the radix.
pub open spec fn digits_value(s: Seq<char>, radix: int) -> int
    decreases s.len(),
{
    if s.len() == 0 {
        0
    } else {
        digits_value(s.drop_last(), radix) * radix + digit_value(s.last())
    }
}

/// The number that a numeral without a sign denotes: one digit or more.
pub open spec fn plain_number(s: Seq<char>, radix: int) -> Option<int> {
    if s.len() > 0 && all_digits(s, radix) {
        Some(digits_value(s, radix))
    } else {
        None
    }
}

/// The number that a numeral denotes; one `+` may stand before the digits.
pub open spec fn unsigned_number(s: Seq<char>, radix: int) -> Option<int> {
    if s.len() > 0 && s[0] == '+' {
        plain_number(s.skip(1), radix)
    } else {
        plain_number(s, radix)
    }
}

/// The number that a numeral denotes; one `+` or `-` may stand before the digits.
pub open spec fn signed_number(s: Seq<char>) -> Option<int> {
    if s.len() > 0 && s[0] == '-' {
        match plain_number(s.skip(1), 10) {
            Some(n) => Some(-n),
            None => None,
        }
    } else {
        unsigned_number(s, 10)
    }
}

/// The number, if it is at most `max`.
pub open spec fn at_most(n: Option<int>, max: int) -> Option<int> {
    match n {
        Some(v) => if v <= max {
            Some(v)
        } else {
            None
        },
        None => None,
    }
}

/// The number that the text denotes if it fits 32 signed bits, else 0.
pub open spec fn i32_or_zero(s: Seq<char>) -> int {
    match signed_number(s) {
        Some(v) => if i32::MIN <= v <= i32::MAX {
            v
        } else {
            0
        },
        None => 0,
    }
}

fn value_of_digit(c: char) -> (r: u8)
    ensures
        r == digit_value(c),
        r <= 16,
{
    if '0' <= c && c <= '9' {
        (c as u8) - 48
    } else if 'a' <= c && c <= 'f' {
        (c as u8) - 87
    } else if 'A' <= c && c <= 'F' {
        (c as u8) - 55
    } else {
        16
    }
}

proof fn lemma_digits_value_grows(s: Seq<char>, i: int, radix: int)
    requires
        0 <= i <= s.len(),
        all_digits(s, radix),
        1 <= radix,
    ensures
        0 <= digits_value(s.take(i), radix) <= digits_value(s, radix),
    decreases s.len(),
{
    if i == s.len() {
        assert(s.take(i) =~= s);
        if s.len() > 0 {
            let t = s.drop_last();
            assert forall|j: int| 0 <= j < t.len() implies #[trigger] digit_value(t[j]) < radix by {
                assert(t[j] == s[j]);
            }
            lemma_digits_value_grows(t, t.len() as int, radix);
            assert(t.take(t.len() as int) =~= t);
            let v = digits_value(t, radix);
            assert(0 <= v * radix) by (nonlinear_arith)
                requires
                    0 <= v,
                    1 <= radix,
            ;
        }
    } else {
        let t = s.drop_last();
        assert forall|j: int| 0 <= j < t.len() implies #[trigger] digit_value(t[j]) < radix by {
            assert(t[j] == s[j]);
        }
        lemma_digits_value_grows(t, i, radix);
        assert(t.take(i) =~= s.take(i));
        let v = digits_value(t, radix);
        assert(v <= v * radix) by (nonlinear_arith)
            requires
                0 <= v,
                1 <= radix,
        ;
    }
}

/// Reads the digits from `start` on.
fn parse_digits(v: &Vec<char>, start: usize, radix: u64, max: u64) -> (r: Option<u64>)
    requires
        start <= v@.len(),
        2 <= radix <= 16,
    ensures
        match r {
            Some(n) => at_most(plain_number(v@.skip(start as int), radix as int), max as int) == Some(
                n as int,
            ),
            None => at_most(plain_number(v@.skip(start as int), radix as int), max as int) is None,
        },
{
    let ghost s = v@.skip(start as int);
    if start == v.len() {
        return None;
    }
    let mut n: u64 = 0;
    let mut i: usize = start;
    assert(s.take(0) =~= Seq::<char>::empty());
    while i < v.len()
        invariant
            s == v@.skip(start as int),
            start <= i <= v@.len(),
            start < v@.len(),
            2 <= radix <= 16,
            n <= max,
            n == digits_value(s.take(i - start), radix as int),
            forall|j: int| 0 <= j < i - start ==> #[trigger] digit_value(s[j]) < radix,
        decreases v@.len() - i,
    {
        let d = value_of_digit(v[i]);
        assert(s[i - start] == v@[i as int]);
        if d as u64 >= radix {
            assert(!(digit_value(s[i - start]) < radix));
            return None;
        }
        assert(n * radix <= u64::MAX * 16) by (nonlinear_arith)
            requires
                n <= u64::MAX,
                2 <= radix <= 16,
        ;
        assert(0 <= n * radix) by (nonlinear_arith)
            requires
                0 <= n,
                2 <= radix <= 16,
        ;
        let wide: u128 = (n as u128) * (radix as u128) + (d as u128);
        let ghost t = s.take(i - start + 1);
        assert(t.drop_last() =~= s.take(i - start));
        assert(wide == digits_value(t, radix as int));
        if wide > max as u128 {
            proof {
                if all_digits(s, radix as int) {
                    lemma_digits_value_grows(s, i - start + 1, radix as int);
                }
            }
            return None;
        }
        n = wide as u64;
        i += 1;
    }
    assert(s.take(v@.len() - start) =~= s);
    Some(n)
}

fn parse_unsigned(s: &str, radix: u64, max: u64) -> (r: Option<u64>)
    requires
        2 <= radix <= 16,
    ensures
        match r {
            Some(n) => at_most(unsigned_number(s@, radix as int), max as int) == Some(n as int),
            None => at_most(unsigned_number(s@, radix as int), max as int) is None,
        },
{
    let v = chars(s);
    assert(v@.skip(0) =~= v@);
    if v.len() > 0 && v[0] == '+' {
        parse_digits(&v, 1, radix, max)
    } else {
        parse_digits(&v, 0, radix, max)
    }
}

/// Reads a decimal number that fits `usize`.
pub fn parse_usize(s: &str) -> (r: Option<usize>)
    ensures
        match r {
            Some(n) => at_most(unsigned_number(s@, 10), usize::MAX as int) == Some(n as int),
            None => at_most(unsigned_number(s@, 10), usize::MAX as int) is None,
        },
{
    match parse_unsigned(s, 10, usize::MAX as u64) {
        Some(n) => Some(n as usize),
        None => None,
    }
}

/// Reads a hexadecimal number that fits a byte.
pub fn parse_hex_byte(s: &str) -> (r: Option<u8>)
    ensures
        match r {
            Some(n) => at_most(unsigned_number(s@, 16), 255) == Some(n as int),
            None => at_most(unsigned_number(s@, 16), 255) is None,
        },
{
    match parse_unsigned(s, 16, 255) {
        Some(n) => Some(n as u8),
        None => None,
    }
}

/// Reads a decimal number that fits 32 signed bits; anything else counts as 0.
pub fn parse_i32_or_zero(s: &str) -> (r: i32)
    ensures
        r == i32_or_zero(s@),
{
    let v = chars(s);
    assert(v@.skip(0) =~= v@);
    if v.len() > 0 && v[0] == '-' {
        match parse_digits(&v, 1, 10, 0x8000_0000) {
            Some(n) => (-(n as i64)) as i32,
            None => {
                proof {
                    lemma_plain_nonnegative(v@.skip(1), 10);
                }
                0
            },
        }
    } else {
        match parse_unsigned(s, 10, 0x7fff_ffff) {
            Some(n) => n as i32,
            None => 0,
        }
    }
}

proof fn lemma_plain_nonnegative(s: Seq<char>, radix: int)
    requires
        1 <= radix,
    ensures
        plain_number(s, radix) matches Some(n) ==> 0 <= n,
{
    if all_digits(s, radix) {
        lemma_digits_value_grows(s, 0, radix);
        assert(s.take(0) =~= Seq::<char>::empty());
    }
}

// ---- Laws ----

proof fn lemma_decimal_digits(n: nat)
    ensures
        decimal(n).len() > 0,
        all_digits(decimal(n), 10),
        digits_value(decimal(n), 10) == n,
        decimal(n)[0] != '+',
        decimal(n)[0] != '-',
    decreases n,
{
    let s = decimal(n);
    if n < 10 {
        assert(s.drop_last() =~= Seq::<char>::empty());
        assert(digits_value(s.drop_last(), 10) == 0);
    } else {
        lemma_decimal_digits(n / 10);
        let t = decimal(n / 10);
        assert(s.drop_last() =~= t);
        assert forall|i: int| 0 <= i < s.len() implies #[trigger] digit_value(s[i]) < 10 by {
            if i < t.len() {
                assert(s[i] == t[i]);
                assert(digit_value(t[i]) < 10);
            }
        }
        assert(s[0] == t[0]);
    }
}

/// Reading a decimal numeral gives the number that was written.
pub proof fn law_decimal_reads_back(n: nat)
    ensures
        unsigned_number(decimal(n), 10) == Some(n as int),
{
    lemma_decimal_digits(n);
}

/// Reading a signed decimal numeral gives the number that was written.
pub proof fn law_signed_reads_back(i: i32)
    ensures
        i32_or_zero(signed_decimal(i as int)) == i,
{
    let s = signed_decimal(i as int);
    if i < 0 {
        lemma_decimal_digits((-i) as nat);
        assert(s.skip(1) =~= decimal((-i) as nat));
    } else {
        lemma_decimal_digits(i as nat);
    }
}

/// A decimal numeral is made of digits.
pub proof fn lemma_decimal_plain(n: nat)
    ensures
        decimal(n).len() > 0,
        forall|i: int| 0 <= i < decimal(n).len() ==> '0' <= #[trigger] decimal(n)[i] <= '9',
    decreases n,
{
    if n >= 10 {
        lemma_decimal_plain(n / 10);
        let t = decimal(n / 10);
        assert forall|i: int| 0 <= i < decimal(n).len() implies '0' <= #[trigger] decimal(n)[i]
            <= '9' by {
            if i < t.len() {
                assert(decimal(n)[i] == t[i]);
            }
        }
    }
}

/// A digit is worth its place in the row of digits, in either case; what stands in neither row is
/// no digit. Numbers are written with the small ones.
pub proof fn law_digits_are_worth_their_place(n: int, c: char)
    requires
        0 <= n < 16,
    ensures
        digit_value("0123456789abcdef"@[n]) == n,
        digit_value("0123456789ABCDEF"@[n]) == n,
        digit_char(n) == "0123456789abcdef"@[n],
        !"0123456789abcdef"@.contains(c) && !"0123456789ABCDEF"@.contains(c) ==> digit_value(c)
            >= 16,
{
    reveal_strlit("0123456789abcdef");
    reveal_strlit("0123456789ABCDEF");
    if digit_value(c) < 16 {
        let k = digit_value(c);
        if '0' <= c <= '9' || 'a' <= c <= 'f' {
            assert("0123456789abcdef"@[k] == c);
        } else {
            assert("0123456789ABCDEF"@[k] == c);
        }
    }
}

/// A text is worth what its digits say, each place the radix times the next one; it is a number of
/// the radix only if all its characters are digits of it, behind at most one plus sign.
pub proof fn law_numerals_are_read(s: Seq<char>, c: char, radix: int, i: int)
    requires
        2 <= radix <= 16,
        s.len() > 0,
        s[0] != '+',
    ensures
        unsigned_number(s, radix) is Some && digit_value(c) < radix ==> unsigned_number(
            s.push(c),
            radix,
        ) == Some(unsigned_number(s, radix)->0 * radix + digit_value(c)),
        s.len() == 1 && digit_value(s[0]) < radix ==> unsigned_number(s, radix) == Some(
            digit_value(s[0]),
        ),
        0 <= i < s.len() && digit_value(s[i]) >= radix ==> unsigned_number(s, radix) is None,
        unsigned_number(seq!['+'] + s, radix) == unsigned_number(s, radix),
        unsigned_number(seq!['-'] + s, radix) is None,
        unsigned_number(Seq::<char>::empty(), radix) is None,
        unsigned_number(seq!['+'], radix) is None,
{
    let t = s.push(c);
    assert(t.drop_last() =~= s);
    assert(t[0] == s[0]);
    if all_digits(s, radix) && digit_value(c) < radix {
        assert forall|j: int| 0 <= j < t.len() implies #[trigger] digit_value(t[j]) < radix by {
            if j < s.len() {
                assert(digit_value(s[j]) < radix);
            }
        }
    }
    if s.len() == 1 {
        assert(s.drop_last() =~= Seq::<char>::empty());
        assert(digits_value(s.drop_last(), radix) == 0);
    }
    assert((seq!['+'] + s).skip(1) =~= s);
    let minus = seq!['-'] + s;
    assert(!(digit_value(minus[0]) < radix));
    assert(seq!['+'].skip(1) =~= Seq::<char>::empty());
}

/// Reading a hexadecimal numeral gives the number that was written.
pub proof fn law_hex_reads_back(n: nat)
    ensures
        unsigned_number(hex(n), 16) == Some(n as int),
        hex(n).len() > 0,
        hex(n)[0] != '+',
    decreases n,
{
    law_digits_are_worth_their_place((n % 16) as int, '0');
    reveal_strlit("0123456789abcdef");
    let c = digit_char((n % 16) as int);
    if n < 16 {
        law_numerals_are_read(hex(n), c, 16, 0);
    } else {
        law_hex_reads_back(n / 16);
        law_numerals_are_read(hex(n / 16), c, 16, 0);
        assert(hex(n)[0] == hex(n / 16)[0]);
    }
}

/// Bytes are written one behind the other, each with its two digits.
pub proof fn law_bytes_are_written_in_pairs(bytes: Seq<u8>, i: int)
    requires
        0 <= i < bytes.len(),
    ensures
        hex_bytes(bytes).len() == 2 * bytes.len(),
        hex_bytes(bytes)[2 * i] == "0123456789abcdef"@[(bytes[i] / 16) as int],
        hex_bytes(bytes)[2 * i + 1] == "0123456789abcdef"@[(bytes[i] % 16) as int],
    decreases bytes.len(),
{
    law_digits_are_worth_their_place((bytes[i] / 16) as int, '0');
    law_digits_are_worth_their_place((bytes[i] % 16) as int, '0');
    let init = bytes.drop_last();
    if bytes.len() > 1 {
        law_bytes_are_written_in_pairs(
            init,
            if i < init.len() {
                i
            } else {
                0
            },
        );
    } else {
        assert(hex_bytes(init) =~= Seq::<char>::empty());
    }
}

/// What is no number, or a number that does not fit, counts as 0.
pub proof fn law_other_numbers_count_as_zero(s: Seq<char>, i: int, n: nat)
    requires
        n > i32::MAX,
    ensures
        1 <= i < s.len() && !('0' <= s[i] <= '9') ==> i32_or_zero(s) == 0,
        s.len() > 0 && !('0' <= s[0] <= '9') && s[0] != '-' && s[0] != '+' ==> i32_or_zero(s) == 0,
        s.len() == 0 ==> i32_or_zero(s) == 0,
        i32_or_zero(decimal(n)) == 0,
        i32_or_zero(seq!['+'] + decimal(n)) == 0,
        n > i32::MAX + 1 ==> i32_or_zero(seq!['-'] + decimal(n)) == 0,
{
    if 1 <= i < s.len() && !('0' <= s[i] <= '9') {
        assert(!(digit_value(s[i]) < 10));
        assert(s.skip(1)[i - 1] == s[i]);
        assert(!all_digits(s, 10));
        assert(!all_digits(s.skip(1), 10));
    }
    if s.len() > 0 && !('0' <= s[0] <= '9') && s[0] != '-' && s[0] != '+' {
        assert(!(digit_value(s[0]) < 10));
    }
    lemma_decimal_digits(n);
    assert((seq!['+'] + decimal(n)).skip(1) =~= decimal(n));
    assert((seq!['-'] + decimal(n)).skip(1) =~= decimal(n));
}

/// Numerals are as short as they can be: nothing stands before a digit that counts, but the minus
/// sign of what is below zero.
pub proof fn law_numerals_are_short(n: nat, i: int)
    requires
        i > 0,
    ensures
        n > 0 ==> decimal(n)[0] != '0' && hex(n)[0] != '0',
        decimal(0) == seq!['0'] && hex(0) == seq!['0'],
        signed_decimal(i) == decimal(i as nat),
        signed_decimal(0) == decimal(0),
        signed_decimal(-i) == seq!['-'] + signed_decimal(i),
    decreases n,
{
    if n >= 10 {
        law_numerals_are_short(n / 10, i);
        lemma_decimal_digits(n / 10);
        assert(decimal(n)[0] == decimal(n / 10)[0]);
    }
    if n >= 16 {
        law_numerals_are_short(n / 16, i);
        law_hex_reads_back(n / 16);
        assert(hex(n)[0] == hex(n / 16)[0]);
    }
}

} // verus!
