//! Small text helpers: sizes for humans, URL percent-encoding and SHA-1.
use vstd::prelude::*;

use crate::strings::{nat_text, push_char, push_str, push_u64};
use crate::text::{ascii_chars, nat_decimal};

verus! {

/// `x / unit` rounded to tenths, half to even: the number of tenths.
pub open spec fn tenths(x: nat, unit: nat) -> nat
    recommends
        unit > 0,
{
    let q = (x * 10) / unit;
    let r = (x * 10) % unit;
    if 2 * r > unit || (2 * r == unit && q % 2 == 1) {
        q + 1
    } else {
        q
    }
}

/// A number of tenths written with one decimal, such as `4.7`.
pub open spec fn one_decimal(t: nat) -> Seq<char> {
    nat_text(t / 10) + seq!['.'] + nat_text(t % 10)
}

/// How [`format_bytes`] writes a size.
pub open spec fn bytes_text(bytes: nat) -> Seq<char> {
    if bytes < 1024 {
        nat_text(bytes) + " B"@
    } else if bytes < 1024 * 1024 {
        one_decimal(tenths(bytes, 1024)) + " KB"@
    } else if bytes < 1024 * 1024 * 1024 {
        one_decimal(tenths(bytes, 1024 * 1024)) + " MB"@
    } else {
        one_decimal(tenths(bytes, 1024 * 1024 * 1024)) + " GB"@
    }
}

fn push_one_decimal(s: &mut String, x: u64, unit: u64)
    requires
        0 < unit <= 0x4000_0000,
        x <= 0xffff_ffff,
    ensures
        final(s)@ == old(s)@ + one_decimal(tenths(x as nat, unit as nat)),
{
    let scaled = x * 10;
    let q = scaled / unit;
    let r = scaled % unit;
    let t = if 2 * r > unit || (2 * r == unit && q % 2 == 1) { q + 1 } else { q };
    assert(t == tenths(x as nat, unit as nat));
    push_u64(s, t / 10);
    push_char(s, '.');
    push_u64(s, t % 10);
}

/// Writes a number of bytes for humans: below 1 KB in bytes, otherwise in KB,
/// MB or GB (powers of 1024) with one decimal, rounded half to even.
pub fn format_bytes(bytes: u32) -> (r: String)
    ensures
        r@ == bytes_text(bytes as nat),
{
    let mut s = String::new();
    if bytes < 1024 {
        push_u64(&mut s, bytes as u64);
        push_str(&mut s, " B");
    } else if bytes < 1024 * 1024 {
        push_one_decimal(&mut s, bytes as u64, 1024);
        push_str(&mut s, " KB");
    } else if bytes < 1024 * 1024 * 1024 {
        push_one_decimal(&mut s, bytes as u64, 1024 * 1024);
        push_str(&mut s, " MB");
    } else {
        push_one_decimal(&mut s, bytes as u64, 1024 * 1024 * 1024);
        push_str(&mut s, " GB");
    }
    s
}

/// The bytes that percent-encoding leaves as they are: the "unreserved"
/// characters of RFC 3986.
pub open spec fn unreserved(b: u8) -> bool {
    (48 <= b <= 57) || (97 <= b <= 122) || (65 <= b <= 90) || b == 46 || b == 45 || b == 95 || b == 126
}

/// The upper-case hexadecimal digit of `n` (below 16).
pub open spec fn hex_digit(n: int) -> char {
    if n < 10 {
        (48 + n) as char
    } else {
        (55 + n) as char
    }
}

/// How one byte is percent-encoded.
pub open spec fn percent_encode_byte(b: u8) -> Seq<char> {
    if unreserved(b) {
        seq![b as char]
    } else {
        seq!['%', hex_digit((b / 16) as int), hex_digit((b % 16) as int)]
    }
}

/// The percent-encoding of `s`, byte by byte.
pub open spec fn percent_encoded(s: Seq<u8>) -> Seq<char>
    decreases s.len(),
{
    if s.len() == 0 {
        Seq::empty()
    } else {
        percent_encoded(s.drop_last()) + percent_encode_byte(s.last())
    }
}

/// The value of a hexadecimal digit, in either case.
pub open spec fn hex_value(c: char) -> Option<int> {
    if '0' <= c && c <= '9' {
        Some(c as int - 48)
    } else if 'A' <= c && c <= 'F' {
        Some(c as int - 55)
    } else if 'a' <= c && c <= 'f' {
        Some(c as int - 87)
    } else {
        None
    }
}

/// Percent-decoding, read from the left: `%` and two hexadecimal digits
/// stand for the byte they write; any other character for its code.
pub open spec fn percent_decoded(s: Seq<char>) -> Seq<u8>
    decreases s.len(),
{
    if s.len() == 0 {
        Seq::empty()
    } else if s.len() >= 3 && s[0] == '%' && hex_value(s[1]) is Some && hex_value(s[2]) is Some {
        seq![(hex_value(s[1])->0 * 16 + hex_value(s[2])->0) as u8] + percent_decoded(s.subrange(3, s.len() as int))
    } else {
        seq![s[0] as u8] + percent_decoded(s.subrange(1, s.len() as int))
    }
}

/// Encoding two byte strings one after the other encodes their concatenation.
pub proof fn lemma_percent_encoded_concat(a: Seq<u8>, b: Seq<u8>)
    ensures
        percent_encoded(a + b) == percent_encoded(a) + percent_encoded(b),
    decreases b.len(),
{
    if b.len() == 0 {
        assert(a + b =~= a);
        assert(percent_encoded(a) + percent_encoded(b) =~= percent_encoded(a));
    } else {
        lemma_percent_encoded_concat(a, b.drop_last());
        assert((a + b).drop_last() =~= a + b.drop_last());
        assert((a + b).last() == b.last());
        assert(percent_encoded(a + b) =~= percent_encoded(a) + percent_encoded(b.drop_last()) + percent_encode_byte(b.last()));
    }
}

/// Decoding the encoding of one byte followed by any text gives the byte,
/// then the decoding of the text.
proof fn lemma_decode_byte(b: u8, rest: Seq<char>)
    ensures
        percent_decoded(percent_encode_byte(b) + rest) == seq![b] + percent_decoded(rest),
{
    let x = percent_encode_byte(b) + rest;
    if unreserved(b) {
        assert(x[0] == b as char);
        assert(x.subrange(1, x.len() as int) =~= rest);
        assert((b as char) as u8 == b);
    } else {
        let hi = (b / 16) as int;
        let lo = (b % 16) as int;
        assert(x[0] == '%');
        assert(x[1] == hex_digit(hi));
        assert(x[2] == hex_digit(lo));
        assert(hex_value(hex_digit(hi)) == Some(hi));
        assert(hex_value(hex_digit(lo)) == Some(lo));
        assert(hi * 16 + lo == b as int);
        assert(x.subrange(3, x.len() as int) =~= rest);
    }
}

/// Percent-decoding gives back every byte string that was percent-encoded:
/// no two byte strings have the same encoding.
pub proof fn lemma_percent_round_trip(s: Seq<u8>)
    ensures
        percent_decoded(percent_encoded(s)) == s,
    decreases s.len(),
{
    if s.len() > 0 {
        let rest = s.subrange(1, s.len() as int);
        assert(s =~= seq![s[0]] + rest);
        lemma_percent_encoded_concat(seq![s[0]], rest);
        let one = seq![s[0]];
        assert(one.drop_last() =~= Seq::<u8>::empty());
        assert(one.last() == s[0]);
        assert(percent_encoded(one.drop_last()) =~= Seq::<char>::empty());
        assert(percent_encoded(one) =~= percent_encode_byte(s[0]));
        lemma_decode_byte(s[0], percent_encoded(rest));
        lemma_percent_round_trip(rest);
    }
}

fn hex_char(n: u8) -> (c: char)
    requires
        n < 16,
    ensures
        c == hex_digit(n as int),
{
    let hex_chars: [char; 16] = ['0', '1', '2', '3', '4', '5', '6', '7', '8', '9', 'A', 'B', 'C', 'D', 'E', 'F'];
    let c = hex_chars[n as usize];
    assert(c == hex_digit(n as int)) by {
        assert(hex_chars@[n as int] == c);
    }
    c
}

/// Percent-encodes `input`: the unreserved bytes stand for themselves, every
/// other byte is written `%XX` in upper-case hexadecimal.
pub fn percent_encoding(input: &[u8]) -> (r: String)
    ensures
        r@ == percent_encoded(input@),
{
    let mut encoded_string = String::new();
    let mut i: usize = 0;
    while i < input.len()
        invariant
            i <= input@.len(),
            encoded_string@ == percent_encoded(input@.subrange(0, i as int)),
        decreases input@.len() - i,
    {
        let byte = input[i];
        let ghost before = encoded_string@;
        if (48u8 <= byte && byte <= 57u8) || (97u8 <= byte && byte <= 122u8) || (65u8 <= byte && byte <= 90u8)
            || byte == 46u8 || byte == 45u8 || byte == 95u8 || byte == 126u8 {
            push_char(&mut encoded_string, byte as char);
        } else {
            push_char(&mut encoded_string, '%');
            assert((byte >> 4u8) & 0xfu8 == byte / 16) by (bit_vector);
            assert(byte & 0xfu8 == byte % 16) by (bit_vector);
            push_char(&mut encoded_string, hex_char((byte >> 4u8) & 0xfu8));
            push_char(&mut encoded_string, hex_char(byte & 0xfu8));
        }
        proof {
            let next = input@.subrange(0, i as int + 1);
            assert(next.drop_last() =~= input@.subrange(0, i as int));
            assert(encoded_string@ =~= before + percent_encode_byte(byte));
        }
        i = i + 1;
    }
    assert(input@.subrange(0, input@.len() as int) =~= input@);
    encoded_string
}

/// The SHA-1 digest of `bytes`.
pub uninterp spec fn sha1_digest(bytes: Seq<u8>) -> Seq<u8>;

/// Calls `sha1_smol::Sha1` on `input`: the contract names the digest, a
/// function of the input alone, and says nothing else of it.
#[verifier::external_body]
pub fn get_sha1(input: &[u8]) -> (r: [u8; 20])
    ensures
        r@ == sha1_digest(input@),
{
    let mut m = sha1_smol::Sha1::new();
    m.update(input);
    m.digest().bytes()
}

} // verus!
