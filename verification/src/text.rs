//! Decimal text: writing unsigned and signed numbers in base ten, and reading
//! them back with the same rules as the integer parsers of the standard library.
use vstd::prelude::*;

verus! {

/// The ASCII digits of `n` in base ten, most significant first, without leading zeros.
pub open spec fn nat_decimal(n: nat) -> Seq<u8>
    decreases n,
{
    if n < 10 {
        seq![(48 + n) as u8]
    } else {
        nat_decimal(n / 10).push((48 + n % 10) as u8)
    }
}

/// The ASCII text of `n` in base ten, with a leading `-` when it is negative.
pub open spec fn int_decimal(n: int) -> Seq<u8> {
    if n < 0 {
        seq![45u8] + nat_decimal((-n) as nat)
    } else {
        nat_decimal(n as nat)
    }
}

pub open spec fn is_digit(b: u8) -> bool {
    48 <= b <= 57
}

pub open spec fn all_digits(s: Seq<u8>) -> bool {
    forall|i: int| 0 <= i < s.len() ==> is_digit(#[trigger] s[i])
}

pub proof fn lemma_nat_decimal_digits(n: nat)
    ensures
        nat_decimal(n).len() >= 1,
        all_digits(nat_decimal(n)),
    decreases n,
{
    if n >= 10 {
        lemma_nat_decimal_digits(n / 10);
    }
}

pub proof fn lemma_int_decimal_ascii(n: int)
    ensures
        int_decimal(n).len() >= 1,
        forall|i: int| 0 <= i < int_decimal(n).len() ==> (is_digit(#[trigger] int_decimal(n)[i]) || int_decimal(n)[i] == 45u8),
        n >= 0 ==> is_digit(int_decimal(n)[0]),
        n < 0 ==> int_decimal(n)[0] == 45u8,
{
    if n < 0 {
        lemma_nat_decimal_digits((-n) as nat);
        let s = int_decimal(n);
        assert forall|i: int| 0 <= i < s.len() implies (is_digit(#[trigger] s[i]) || s[i] == 45u8) by {
            if i > 0 {
                assert(s[i] == nat_decimal((-n) as nat)[i - 1]);
            }
        }
    } else {
        lemma_nat_decimal_digits(n as nat);
    }
}

/// The digits of `n`, written in base ten.
pub fn u64_decimal(n: u64) -> (r: Vec<u8>)
    ensures
        r@ == nat_decimal(n as nat),
    decreases n,
{
    if n < 10 {
        let mut v: Vec<u8> = Vec::new();
        v.push((48 + n) as u8);
        assert(v@ =~= nat_decimal(n as nat));
        v
    } else {
        let mut v = u64_decimal(n / 10);
        v.push((48 + n % 10) as u8);
        v
    }
}

/// The text of `n`, written in base ten with a leading `-` when it is negative.
pub fn i64_decimal(n: i64) -> (r: Vec<u8>)
    ensures
        r@ == int_decimal(n as int),
{
    if n < 0 {
        let wide: i128 = n as i128;
        let magnitude: u64 = (0i128 - wide) as u64;
        let digits = u64_decimal(magnitude);
        let mut v: Vec<u8> = Vec::new();
        v.push(45u8);
        let mut i: usize = 0;
        while i < digits.len()
            invariant
                i <= digits@.len(),
                v@ =~= seq![45u8] + digits@.subrange(0, i as int),
            decreases digits@.len() - i,
        {
            v.push(digits[i]);
            i = i + 1;
        }
        assert(digits@.subrange(0, digits@.len() as int) =~= digits@);
        v
    } else {
        u64_decimal(n as u64)
    }
}

/// The ways in which reading an integer from text can fail.
#[derive(Debug, Clone, Copy, PartialEq, Eq)]
pub enum IntErrorKind {
    /// The text is empty.
    Empty,
    /// The text holds something other than an optional sign followed by digits.
    InvalidDigit,
    /// The value is above the largest value of the target type.
    PosOverflow,
    /// The value is below the smallest value of the target type.
    NegOverflow,
}

/// Reads the digits of `s` from left to right, accumulating away from zero
/// (downwards when `negative`), and fails at the first byte that is not a
/// digit or at the first digit that takes the value out of `[lo, hi]`.
pub open spec fn read_magnitude(s: Seq<u8>, negative: bool, lo: int, hi: int) -> Result<int, IntErrorKind>
    decreases s.len(),
{
    if s.len() == 0 {
        Ok(0)
    } else {
        match read_magnitude(s.drop_last(), negative, lo, hi) {
            Err(e) => Err(e),
            Ok(acc) => {
                let b = s.last();
                if !is_digit(b) {
                    Err(IntErrorKind::InvalidDigit)
                } else if negative {
                    if acc * 10 - (b - 48) < lo {
                        Err(IntErrorKind::NegOverflow)
                    } else {
                        Ok(acc * 10 - (b - 48))
                    }
                } else {
                    if acc * 10 + (b - 48) > hi {
                        Err(IntErrorKind::PosOverflow)
                    } else {
                        Ok(acc * 10 + (b - 48))
                    }
                }
            },
        }
    }
}

/// Reads an integer of range `[lo, hi]` from `s`: an optional `+` (or, when
/// `signed`, `-`) followed by decimal digits.
pub open spec fn read_integer(s: Seq<u8>, signed: bool, lo: int, hi: int) -> Result<int, IntErrorKind> {
    if s.len() == 0 {
        Err(IntErrorKind::Empty)
    } else if s.len() == 1 && (s[0] == 43u8 || s[0] == 45u8) {
        Err(IntErrorKind::InvalidDigit)
    } else if s[0] == 43u8 {
        read_magnitude(s.drop_first(), false, lo, hi)
    } else if s[0] == 45u8 && signed {
        read_magnitude(s.drop_first(), true, lo, hi)
    } else {
        read_magnitude(s, false, lo, hi)
    }
}

/// How `i64` reads its decimal text.
pub open spec fn read_i64(s: Seq<u8>) -> Result<int, IntErrorKind> {
    read_integer(s, true, i64::MIN as int, i64::MAX as int)
}

/// How `usize` reads its decimal text.
pub open spec fn read_usize(s: Seq<u8>) -> Result<int, IntErrorKind> {
    read_integer(s, false, 0, usize::MAX as int)
}

/// The message that the standard library gives each integer reading error.
pub open spec fn int_error_message(k: IntErrorKind) -> Seq<char> {
    match k {
        IntErrorKind::Empty => "cannot parse integer from empty string"@,
        IntErrorKind::InvalidDigit => "invalid digit found in string"@,
        IntErrorKind::PosOverflow => "number too large to fit in target type"@,
        IntErrorKind::NegOverflow => "number too small to fit in target type"@,
    }
}

/// The message of `k`, as the standard library writes it.
pub fn int_error_text(k: IntErrorKind) -> (r: String)
    ensures
        r@ == int_error_message(k),
{
    match k {
        IntErrorKind::Empty => String::from_str("cannot parse integer from empty string"),
        IntErrorKind::InvalidDigit => String::from_str("invalid digit found in string"),
        IntErrorKind::PosOverflow => String::from_str("number too large to fit in target type"),
        IntErrorKind::NegOverflow => String::from_str("number too small to fit in target type"),
    }
}

fn read_magnitude_exec(s: &[u8], start: usize, negative: bool, lo: i128, hi: i128) -> (r: Result<i128, IntErrorKind>)
    requires
        start <= s@.len(),
        -0x1_0000_0000_0000_0000 <= lo <= 0 <= hi <= 0x1_0000_0000_0000_0000,
    ensures
        r matches Ok(v) ==> lo <= v <= hi,
        r matches Ok(v) ==> read_magnitude(s@.subrange(start as int, s@.len() as int), negative, lo as int, hi as int) == Ok::<int, IntErrorKind>(v as int),
        r matches Err(e) ==> read_magnitude(s@.subrange(start as int, s@.len() as int), negative, lo as int, hi as int) == Err::<int, IntErrorKind>(e),
{
    let mut acc: i128 = 0;
    let mut i: usize = start;
    assert(s@.subrange(start as int, start as int) =~= Seq::<u8>::empty());
    while i < s.len()
        invariant
            start <= i <= s@.len(),
            -0x1_0000_0000_0000_0000 <= lo <= 0 <= hi <= 0x1_0000_0000_0000_0000,
            lo <= acc <= hi,
            negative ==> acc <= 0,
            !negative ==> acc >= 0,
            read_magnitude(s@.subrange(start as int, i as int), negative, lo as int, hi as int) == Ok::<int, IntErrorKind>(acc as int),
        decreases s@.len() - i,
    {
        let b = s[i];
        let ghost prefix = s@.subrange(start as int, i as int + 1);
        assert(prefix.drop_last() =~= s@.subrange(start as int, i as int));
        assert(prefix.last() == b);
        if b < 48 || b > 57 {
            proof { lemma_read_magnitude_error_persists(s@, start as int, i as int + 1, negative, lo as int, hi as int); }
            return Err(IntErrorKind::InvalidDigit);
        }
        let d: i128 = (b - 48) as i128;
        if negative {
            if acc * 10 - d < lo {
                proof { lemma_read_magnitude_error_persists(s@, start as int, i as int + 1, negative, lo as int, hi as int); }
                return Err(IntErrorKind::NegOverflow);
            }
            acc = acc * 10 - d;
        } else {
            if acc * 10 + d > hi {
                proof { lemma_read_magnitude_error_persists(s@, start as int, i as int + 1, negative, lo as int, hi as int); }
                return Err(IntErrorKind::PosOverflow);
            }
            acc = acc * 10 + d;
        }
        i = i + 1;
    }
    assert(s@.subrange(start as int, s@.len() as int) =~= s@.subrange(start as int, i as int));
    Ok(acc)
}

/// Once a prefix fails to read, every longer text fails the same way.
proof fn lemma_read_magnitude_error_persists(s: Seq<u8>, start: int, k: int, negative: bool, lo: int, hi: int)
    requires
        0 <= start <= k <= s.len(),
        read_magnitude(s.subrange(start, k), negative, lo, hi) is Err,
    ensures
        read_magnitude(s.subrange(start, s.len() as int), negative, lo, hi) == read_magnitude(s.subrange(start, k), negative, lo, hi),
    decreases s.len() - k,
{
    if k < s.len() {
        let longer = s.subrange(start, k + 1);
        assert(longer.drop_last() =~= s.subrange(start, k));
        lemma_read_magnitude_error_persists(s, start, k + 1, negative, lo, hi);
    }
}

/// Reads an integer of range `[lo, hi]` from `s` (see [`read_integer`]).
pub fn read_integer_exec(s: &[u8], signed: bool, lo: i128, hi: i128) -> (r: Result<i128, IntErrorKind>)
    requires
        -0x1_0000_0000_0000_0000 <= lo <= 0 <= hi <= 0x1_0000_0000_0000_0000,
    ensures
        r matches Ok(v) ==> lo <= v <= hi,
        r matches Ok(v) ==> read_integer(s@, signed, lo as int, hi as int) == Ok::<int, IntErrorKind>(v as int),
        r matches Err(e) ==> read_integer(s@, signed, lo as int, hi as int) == Err::<int, IntErrorKind>(e),
{
    if s.len() == 0 {
        return Err(IntErrorKind::Empty);
    }
    if s.len() == 1 && (s[0] == 43u8 || s[0] == 45u8) {
        return Err(IntErrorKind::InvalidDigit);
    }
    if s[0] == 43u8 {
        assert(s@.subrange(1, s@.len() as int) =~= s@.drop_first());
        read_magnitude_exec(s, 1, false, lo, hi)
    } else if s[0] == 45u8 && signed {
        assert(s@.subrange(1, s@.len() as int) =~= s@.drop_first());
        read_magnitude_exec(s, 1, true, lo, hi)
    } else {
        assert(s@.subrange(0, s@.len() as int) =~= s@);
        read_magnitude_exec(s, 0, false, lo, hi)
    }
}

/// Reading the digits of a number gives the number back.
pub proof fn lemma_read_nat_decimal(n: nat, lo: int, hi: int)
    requires
        lo <= 0,
        n <= hi,
    ensures
        read_magnitude(nat_decimal(n), false, lo, hi) == Ok::<int, IntErrorKind>(n as int),
    decreases n,
{
    let s = nat_decimal(n);
    let b = s.last();
    assert(n == (n / 10) * 10 + n % 10);
    if n >= 10 {
        lemma_read_nat_decimal(n / 10, lo, hi);
        assert(s.drop_last() =~= nat_decimal(n / 10));
        assert(b as int == 48 + n % 10);
        assert(read_magnitude(s.drop_last(), false, lo, hi) == Ok::<int, IntErrorKind>((n / 10) as int));
    } else {
        assert(s.drop_last() =~= Seq::<u8>::empty());
        assert(b as int == 48 + n);
        assert(read_magnitude(s.drop_last(), false, lo, hi) == Ok::<int, IntErrorKind>(0));
    }
    assert(is_digit(b));
    assert(read_magnitude(s, false, lo, hi) == Ok::<int, IntErrorKind>(n as int));
}

/// Reading the digits of a number, downwards, gives its negation.
pub proof fn lemma_read_nat_decimal_negative(n: nat, lo: int, hi: int)
    requires
        lo <= -n,
        0 <= hi,
    ensures
        read_magnitude(nat_decimal(n), true, lo, hi) == Ok::<int, IntErrorKind>(-n),
    decreases n,
{
    let s = nat_decimal(n);
    let b = s.last();
    assert(n == (n / 10) * 10 + n % 10);
    if n >= 10 {
        lemma_read_nat_decimal_negative(n / 10, lo, hi);
        assert(s.drop_last() =~= nat_decimal(n / 10));
        assert(b as int == 48 + n % 10);
        assert(read_magnitude(s.drop_last(), true, lo, hi) == Ok::<int, IntErrorKind>(-((n / 10) as int)));
    } else {
        assert(s.drop_last() =~= Seq::<u8>::empty());
        assert(b as int == 48 + n);
        assert(read_magnitude(s.drop_last(), true, lo, hi) == Ok::<int, IntErrorKind>(0));
    }
    assert(is_digit(b));
    assert(read_magnitude(s, true, lo, hi) == Ok::<int, IntErrorKind>(-n));
}

/// Reading the decimal text of an `i64` gives it back.
pub proof fn lemma_read_i64_decimal(n: int)
    requires
        i64::MIN <= n <= i64::MAX,
    ensures
        read_i64(int_decimal(n)) == Ok::<int, IntErrorKind>(n),
{
    if n < 0 {
        lemma_nat_decimal_digits((-n) as nat);
        lemma_read_nat_decimal_negative((-n) as nat, i64::MIN as int, i64::MAX as int);
        assert((seq![45u8] + nat_decimal((-n) as nat)).drop_first() =~= nat_decimal((-n) as nat));
    } else {
        lemma_nat_decimal_digits(n as nat);
        lemma_read_nat_decimal(n as nat, i64::MIN as int, i64::MAX as int);
    }
}

/// Reading the decimal text of a `usize` gives it back.
pub proof fn lemma_read_usize_decimal(n: nat)
    requires
        n <= usize::MAX,
    ensures
        read_usize(nat_decimal(n)) == Ok::<int, IntErrorKind>(n as int),
{
    lemma_nat_decimal_digits(n);
    lemma_read_nat_decimal(n, 0, usize::MAX as int);
}

} // verus!

verus! {

/// The text of the error that `std::str::from_utf8` reports for `bytes`, as that error's `Display` writes it.
pub uninterp spec fn utf8_error_text(bytes: Seq<u8>) -> Seq<char>;

/// Calls `std::str::from_utf8`. The contract claims what its documentation
/// says: it succeeds exactly on valid UTF-8 and then gives the decoded
/// characters; otherwise the result is the text of the error it reports.
#[verifier::external_body]
pub(crate) fn utf8_text(bytes: &[u8]) -> (r: Result<String, String>)
    ensures
        r is Ok <==> vstd::utf8::valid_utf8(bytes@),
        r matches Ok(s) ==> s@ == vstd::utf8::decode_utf8(bytes@),
        r matches Err(m) ==> m@ == utf8_error_text(bytes@),
{
    match std::str::from_utf8(bytes) {
        Ok(s) => Ok(s.to_string()),
        Err(e) => Err(e.to_string()),
    }
}

pub open spec fn all_ascii(s: Seq<u8>) -> bool {
    forall|i: int| 0 <= i < s.len() ==> #[trigger] s[i] < 128
}

/// The characters of ASCII bytes.
pub open spec fn ascii_chars(s: Seq<u8>) -> Seq<char> {
    s.map_values(|b: u8| b as char)
}

/// ASCII bytes are valid UTF-8 and decode to the characters of the same codes.
pub proof fn lemma_ascii_valid_utf8(s: Seq<u8>)
    requires
        all_ascii(s),
    ensures
        vstd::utf8::valid_utf8(s),
        vstd::utf8::decode_utf8(s) == ascii_chars(s),
    decreases s.len(),
{
    if s.len() > 0 {
        let rest = s.subrange(1, s.len() as int);
        assert forall|i: int| 0 <= i < rest.len() implies #[trigger] rest[i] < 128 by {
            assert(rest[i] == s[i + 1]);
        }
        lemma_ascii_valid_utf8(rest);
        assert(vstd::utf8::pop_first_scalar(s) =~= rest);
        let b0 = s[0];
        assert(b0 < 128);
        assert(b0 < 128 ==> (b0 & 0x7F) == b0) by (bit_vector);
        assert(vstd::utf8::decode_first_scalar(s) == s[0] as u32);
        assert((s[0] as u32) as char == s[0] as char) by {
            vstd::utf8::char_u32_cast(s[0] as char, s[0] as u32);
        }
        assert(vstd::utf8::decode_utf8(s) =~= ascii_chars(s));
    } else {
        assert(vstd::utf8::decode_utf8(s) =~= ascii_chars(s));
    }
}

} // verus!
