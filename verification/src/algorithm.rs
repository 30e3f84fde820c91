//! Random keys and peer ids of the imitated clients: hexadecimal hashes and
//! strings drawn from a regular expression.
use vstd::prelude::*;

use crate::random::{rand_u32_in, rand_usize_in};
use crate::strings::{push_char, str_chars};

verus! {

/// The symbol drawn as `i` (in `0..15`) from `abcdef0123456789ABCDEF`: among the 15 from the digits on in
/// uppercase (the default), among the first 15 otherwise.
pub open spec fn hash_symbol(i: int, uppercase: Option<bool>) -> char {
    let offset = if uppercase is None || uppercase == Some(true) { 6int } else { 0int };
    "abcdef0123456789ABCDEF"@[i + offset]
}

/// `c` can be drawn: it is the symbol of a draw in `0..15`, not of 0 when
/// `no_leading_zero` is set.
pub open spec fn hash_char(c: char, no_leading_zero: bool, uppercase: Option<bool>) -> bool {
    exists|i: int| 0 <= i < 15 && !(i == 0 && no_leading_zero) && c == #[trigger] hash_symbol(i, uppercase)
}

/// A random hash of `length` symbols (see [`hash_char`]).
pub fn hash(length: usize, no_leading_zero: bool, uppercase: Option<bool>) -> (h: String)
    ensures
        h@.len() == length,
        forall|j: int| 0 <= j < length ==> hash_char(#[trigger] h@[j], no_leading_zero, uppercase),
{
    proof {
        reveal_strlit("abcdef0123456789ABCDEF");
    }
    let symbols = str_chars("abcdef0123456789ABCDEF");
    let offset: usize = if uppercase.is_none() || uppercase == Some(true) { 6 } else { 0 };
    let low: usize = if no_leading_zero { 1 } else { 0 };
    let mut h = String::new();
    let mut k: usize = 0;
    while k < length
        invariant
            k <= length,
            symbols@ == "abcdef0123456789ABCDEF"@,
            symbols@.len() == 22,
            offset == (if uppercase is None || uppercase == Some(true) { 6int } else { 0int }),
            low == (if no_leading_zero { 1int } else { 0int }),
            h@.len() == k,
            forall|j: int| 0 <= j < k ==> hash_char(#[trigger] h@[j], no_leading_zero, uppercase),
        decreases length - k,
    {
        let i = rand_usize_in(low, 15);
        let c = symbols[i + offset];
        assert(c == hash_symbol(i as int, uppercase));
        let ghost before = h@;
        push_char(&mut h, c);
        assert forall|j: int| 0 <= j < k + 1 implies hash_char(#[trigger] h@[j], no_leading_zero, uppercase) by {
            if j < k {
                assert(h@[j] == before[j]);
            } else {
                assert(h@[j] == hash_symbol(i as int, uppercase));
            }
        }
        k = k + 1;
    }
    h
}

/// An uppercase hexadecimal digit.
pub open spec fn hex_upper(d: nat) -> char {
    if d < 10 {
        (d + 48) as char
    } else {
        (d + 55) as char
    }
}

/// `n` in uppercase hexadecimal, without leading zeros (`0` for zero).
pub open spec fn upper_hex_text(n: nat) -> Seq<char>
    decreases n,
{
    if n < 16 {
        seq![hex_upper(n)]
    } else {
        upper_hex_text(n / 16).push(hex_upper(n % 16))
    }
}

/// Writes `n` in uppercase hexadecimal, as `format!("{:x}", n).to_uppercase()`.
pub fn upper_hex(n: u32) -> (r: String)
    ensures
        r@ == upper_hex_text(n as nat),
    decreases n,
{
    let d = n % 16;
    let c: char = if d < 10 { ((d as u8) + 48) as char } else { ((d as u8) + 55) as char };
    if n < 16 {
        let mut r = String::new();
        push_char(&mut r, c);
        assert(r@ =~= seq![hex_upper(n as nat)]);
        r
    } else {
        let mut r = upper_hex(n / 16);
        push_char(&mut r, c);
        r
    }
}

/// Return a hex string from a random integer between 1 and 2147483647
pub fn digit_range_transformed_to_hex_without_leading_zero() -> (r: String)
    ensures
        exists|n: u32| 1 <= n < 2147483647 && r@ == upper_hex_text(n as nat),
{
    let n = rand_u32_in(1, 2147483647);
    upper_hex(n)
}

/// Whether `rand_regex::Regex::compile` accepts a pattern (with at most 100
/// repetitions).
pub uninterp spec fn regex_compiles(pattern: Seq<char>) -> bool;

/// Whether `text` is one of the strings that the pattern describes, as
/// `rand_regex::Regex::compile(pattern, 100)` reads it: what its samples
/// satisfy.
pub uninterp spec fn regex_matches(pattern: Seq<char>, text: Seq<char>) -> bool;

/// Calls `rand_regex::Regex::compile(pattern, 100)` and, when it accepts the
/// pattern, draws strings from it with `rand::thread_rng()` and keeps the
/// 65th. The contract names whether the pattern compiles, a function of the
/// pattern alone, and states that the string drawn matches the pattern, as
/// `rand_regex` documents of every sample; which string is drawn is random
/// and nothing more is claimed of it.
#[verifier::external_body]
fn sample_regex(pattern: &str) -> (r: Option<String>)
    ensures
        r is Some <==> regex_compiles(pattern@),
        r matches Some(s) ==> regex_matches(pattern@, s@),
{
    let generator = rand_regex::Regex::compile(pattern, 100).ok()?;
    rand::Rng::sample_iter(&mut rand::thread_rng(), &generator).nth(64)
}

/// Generate a string that matches a regex pattern; `None` when the pattern
/// does not compile.
pub fn regex(pattern: &str) -> (r: Option<String>)
    ensures
        r is Some <==> regex_compiles(pattern@),
        r matches Some(s) ==> regex_matches(pattern@, s@),
{
    sample_regex(pattern)
}

} // verus!
