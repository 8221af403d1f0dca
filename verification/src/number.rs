//! Integers in text: decimal and hexadecimal, written and read.

use vstd::prelude::*;

verus! {

/// Why a text is not an integer of the wanted range.
#[derive(Clone, Copy, Debug, PartialEq, Eq, Structural)]
pub enum IntError {
    /// The text is empty.
    Empty,
    /// A character is not a digit of the radix, or a sign stands alone.
    InvalidDigit,
    /// The number is above the range.
    PosOverflow,
    /// The number is below the range.
    NegOverflow,
}

/// The decimal digit for `d`.
pub open spec fn dec_digit(d: int) -> char {
    if d == 0 {
        '0'
    } else if d == 1 {
        '1'
    } else if d == 2 {
        '2'
    } else if d == 3 {
        '3'
    } else if d == 4 {
        '4'
    } else if d == 5 {
        '5'
    } else if d == 6 {
        '6'
    } else if d == 7 {
        '7'
    } else if d == 8 {
        '8'
    } else {
        '9'
    }
}

/// The upper-case hexadecimal digit for `d`.
pub open spec fn hex_digit(d: int) -> char {
    if d < 10 {
        dec_digit(d)
    } else if d == 10 {
        'A'
    } else if d == 11 {
        'B'
    } else if d == 12 {
        'C'
    } else if d == 13 {
        'D'
    } else if d == 14 {
        'E'
    } else {
        'F'
    }
}

/// `n` in decimal, without leading zeros.
pub open spec fn dec(n: nat) -> Seq<char>
    decreases n,
{
    if n < 10 {
        seq![dec_digit(n as int)]
    } else {
        dec(n / 10).push(dec_digit((n % 10) as int))
    }
}

/// `i` in decimal, with a minus sign when negative.
pub open spec fn dec_int(i: int) -> Seq<char> {
    if i < 0 {
        seq!['-'] + dec((-i) as nat)
    } else {
        dec(i as nat)
    }
}

/// The sixteen bits of `d` as four upper-case hexadecimal digits.
pub open spec fn hex4(d: int) -> Seq<char> {
    let n = if d < 0 {
        d + 65536
    } else {
        d
    };
    seq![hex_digit(n / 4096), hex_digit(n / 256 % 16), hex_digit(n / 16 % 16), hex_digit(n % 16)]
}

/// The value of `c` as a digit: decimal, or hexadecimal in either case.
pub open spec fn digit_of(c: char, hex: bool) -> Option<int> {
    if '0' <= c <= '9' {
        Some((c as u32 - '0' as u32) as int)
    } else if hex && 'a' <= c <= 'f' {
        Some((c as u32 - 'a' as u32) as int + 10)
    } else if hex && 'A' <= c <= 'F' {
        Some((c as u32 - 'A' as u32) as int + 10)
    } else {
        None
    }
}

/// The radix that `hex` selects.
pub open spec fn radix(hex: bool) -> int {
    if hex {
        16
    } else {
        10
    }
}

/// One more digit `c` after the digits that gave `acc`.
pub open spec fn scan_step(acc: int, c: char, hex: bool, neg: bool, lo: int, hi: int) -> Result<
    int,
    IntError,
> {
    match digit_of(c, hex) {
        None => Err(IntError::InvalidDigit),
        Some(d) => {
            let next = if neg {
                acc * radix(hex) - d
            } else {
                acc * radix(hex) + d
            };
            if next > hi {
                Err(IntError::PosOverflow)
            } else if next < lo {
                Err(IntError::NegOverflow)
            } else {
                Ok(next)
            }
        },
    }
}

/// The digits of `s` read from the left, starting from `acc`. The first
/// character that is no digit, or that takes the number out of `lo..=hi`,
/// decides the error.
pub open spec fn scan(s: Seq<char>, hex: bool, neg: bool, lo: int, hi: int, acc: int) -> Result<
    int,
    IntError,
>
    decreases s.len(),
{
    if s.len() == 0 {
        Ok(acc)
    } else {
        match scan_step(acc, s[0], hex, neg, lo, hi) {
            Err(e) => Err(e),
            Ok(next) => scan(s.drop_first(), hex, neg, lo, hi, next),
        }
    }
}

/// The integer that `s` denotes: an optional sign (`-` only where `signed`),
/// then digits. The value must lie in `lo..=hi`.
pub open spec fn parse_int(s: Seq<char>, hex: bool, signed: bool, lo: int, hi: int) -> Result<
    int,
    IntError,
> {
    if s.len() == 0 {
        Err(IntError::Empty)
    } else if (s[0] == '+' || s[0] == '-') && s.len() == 1 {
        Err(IntError::InvalidDigit)
    } else if s[0] == '+' {
        scan(s.drop_first(), hex, false, lo, hi, 0)
    } else if s[0] == '-' && signed {
        scan(s.drop_first(), hex, true, lo, hi, 0)
    } else {
        scan(s, hex, false, lo, hi, 0)
    }
}

/// A sixteen-bit datum read from hexadecimal digits. Besides the signed
/// values it takes the forms `8000` to `FFFF`, which stand for the negative
/// values with those bits.
pub open spec fn parse_data(s: Seq<char>) -> Result<int, IntError> {
    match parse_int(s, true, true, -32768, 65535) {
        Err(e) => Err(e),
        Ok(v) => Ok(
            if v > 32767 {
                v - 65536
            } else {
                v
            },
        ),
    }
}

/// What is said of each kind of failure.
pub open spec fn int_error_text(e: IntError) -> Seq<char> {
    match e {
        IntError::Empty => "cannot parse integer from empty string"@,
        IntError::InvalidDigit => "invalid digit found in string"@,
        IntError::PosOverflow => "number too large to fit in target type"@,
        IntError::NegOverflow => "number too small to fit in target type"@,
    }
}

/// Every character is a decimal digit, and there is at least one.
pub open spec fn is_number(s: Seq<char>) -> bool {
    s.len() > 0 && forall|i: int| 0 <= i < s.len() ==> '0' <= #[trigger] s[i] <= '9'
}

pub proof fn lemma_scan_push(s: Seq<char>, c: char, hex: bool, neg: bool, lo: int, hi: int, acc: int)
    ensures
        scan(s.push(c), hex, neg, lo, hi, acc) == match scan(s, hex, neg, lo, hi, acc) {
            Err(e) => Err(e),
            Ok(v) => scan_step(v, c, hex, neg, lo, hi),
        },
    decreases s.len(),
{
    let t = s.push(c);
    assert(t.len() > 0);
    if s.len() == 0 {
        assert(t.drop_first() =~= Seq::<char>::empty());
        assert(t[0] == c);
        match scan_step(acc, c, hex, neg, lo, hi) {
            Err(e) => {},
            Ok(next) => {
                assert(scan(t.drop_first(), hex, neg, lo, hi, next) == Ok::<int, IntError>(next));
            },
        }
    } else {
        assert(t.drop_first() =~= s.drop_first().push(c));
        assert(t[0] == s[0]);
        match scan_step(acc, s[0], hex, neg, lo, hi) {
            Err(e) => {},
            Ok(next) => {
                lemma_scan_push(s.drop_first(), c, hex, neg, lo, hi, next);
            },
        }
    }
}

/// Each digit reads back as its value.
pub proof fn lemma_digit_values(d: int)
    requires
        0 <= d < 16,
    ensures
        digit_of(hex_digit(d), true) == Some(d),
        d < 10 ==> digit_of(dec_digit(d), false) == Some(d),
        d < 10 ==> '0' <= dec_digit(d) <= '9',
        '0' <= hex_digit(d) <= '9' || 'A' <= hex_digit(d) <= 'F',
{
}

/// What is read lies in the range, and is not negative unless a minus sign
/// was read.
pub proof fn lemma_scan_range(s: Seq<char>, hex: bool, neg: bool, lo: int, hi: int, acc: int)
    requires
        lo <= acc <= hi,
    ensures
        scan(s, hex, neg, lo, hi, acc) is Ok ==> {
            let v = scan(s, hex, neg, lo, hi, acc)->Ok_0;
            lo <= v <= hi && (!neg && acc >= 0 ==> v >= 0)
        },
    decreases s.len(),
{
    if s.len() > 0 {
        match scan_step(acc, s[0], hex, neg, lo, hi) {
            Err(e) => {},
            Ok(next) => {
                lemma_scan_range(s.drop_first(), hex, neg, lo, hi, next);
            },
        }
    }
}

/// What `dec` writes is a number in the sense of `is_number`.
pub proof fn lemma_dec_is_number(n: nat)
    ensures
        is_number(dec(n)),
    decreases n,
{
    if n >= 10 {
        lemma_dec_is_number(n / 10);
    }
}

/// What `dec_int` writes is digits, behind a minus sign where there is one.
pub proof fn lemma_dec_int_chars(i: int)
    ensures
        dec_int(i).len() >= 1,
        forall|k: int|
            0 <= k < dec_int(i).len() ==> '0' <= #[trigger] dec_int(i)[k] <= '9' || dec_int(i)[k]
                == '-',
        '0' <= dec_int(i).last() <= '9',
{
    if i < 0 {
        lemma_dec_is_number((-i) as nat);
        let d = dec((-i) as nat);
        assert(dec_int(i).last() == d.last());
    } else {
        lemma_dec_is_number(i as nat);
    }
}

/// What `hex4` writes is four digits or upper-case letters.
pub proof fn lemma_hex4_chars(d: int)
    requires
        -32768 <= d <= 32767,
    ensures
        hex4(d).len() == 4,
        forall|k: int|
            0 <= k < 4 ==> '0' <= #[trigger] hex4(d)[k] <= '9' || 'A' <= hex4(d)[k] <= 'F',
{
    let n = if d < 0 {
        d + 65536
    } else {
        d
    };
    lemma_digit_values(n / 4096);
    lemma_digit_values(n / 256 % 16);
    lemma_digit_values(n / 16 % 16);
    lemma_digit_values(n % 16);
}

/// Reading what `dec` wrote gives the number back, negated where `neg`.
pub proof fn lemma_scan_dec(n: nat, neg: bool, lo: int, hi: int)
    requires
        lo <= 0 <= hi,
        neg ==> lo <= -n,
        !neg ==> n <= hi,
    ensures
        scan(dec(n), false, neg, lo, hi, 0) == Ok::<int, IntError>(
            if neg {
                -(n as int)
            } else {
                n as int
            },
        ),
    decreases n,
{
    let c = dec_digit((n % 10) as int);
    lemma_digit_values((n % 10) as int);
    if n < 10 {
        let e = Seq::<char>::empty();
        assert(dec(n) =~= e.push(c));
        assert(scan(e, false, neg, lo, hi, 0) == Ok::<int, IntError>(0));
        lemma_scan_push(e, c, false, neg, lo, hi, 0);
    } else {
        lemma_scan_dec(n / 10, neg, lo, hi);
        lemma_scan_push(dec(n / 10), c, false, neg, lo, hi, 0);
    }
}

/// Reading a written integer gives it back.
pub proof fn lemma_parse_dec_int(i: int, lo: int, hi: int)
    requires
        lo <= 0 <= hi,
        lo <= i <= hi,
    ensures
        parse_int(dec_int(i), false, true, lo, hi) == Ok::<int, IntError>(i),
{
    if i < 0 {
        let m = (-i) as nat;
        lemma_scan_dec(m, true, lo, hi);
        lemma_dec_is_number(m);
        assert(dec_int(i).drop_first() =~= dec(m));
    } else {
        lemma_scan_dec(i as nat, false, lo, hi);
        lemma_dec_is_number(i as nat);
        assert('0' <= dec(i as nat)[0] <= '9');
    }
}

/// Reading a written natural number gives it back, signs allowed or not.
pub proof fn lemma_parse_dec(n: nat, signed: bool, lo: int, hi: int)
    requires
        lo <= 0 <= hi,
        n <= hi,
    ensures
        parse_int(dec(n), false, signed, lo, hi) == Ok::<int, IntError>(n as int),
{
    lemma_scan_dec(n, false, lo, hi);
    lemma_dec_is_number(n);
    assert('0' <= dec(n)[0] <= '9');
}

/// Reading the four digits of a datum gives the datum back.
#[verifier::rlimit(40)]
pub proof fn lemma_parse_hex4(d: int)
    requires
        -32768 <= d <= 32767,
    ensures
        parse_data(hex4(d)) == Ok::<int, IntError>(d),
{
    let n = if d < 0 {
        d + 65536
    } else {
        d
    };
    let lo = -32768;
    let hi = 65535;
    let s = hex4(d);
    let a = n / 4096;
    let b = n / 256 % 16;
    let c = n / 16 % 16;
    let e = n % 16;
    assert(n == ((a * 16 + b) * 16 + c) * 16 + e);
    lemma_digit_values(a);
    lemma_digit_values(b);
    lemma_digit_values(c);
    lemma_digit_values(e);
    let s0 = Seq::<char>::empty();
    assert(scan(s0, true, false, lo, hi, 0) == Ok::<int, IntError>(0));
    lemma_scan_push(s0, hex_digit(a), true, false, lo, hi, 0);
    let s1 = s0.push(hex_digit(a));
    assert(scan(s1, true, false, lo, hi, 0) == Ok::<int, IntError>(a));
    lemma_scan_push(s1, hex_digit(b), true, false, lo, hi, 0);
    let s2 = s1.push(hex_digit(b));
    assert(scan(s2, true, false, lo, hi, 0) == Ok::<int, IntError>(a * 16 + b));
    lemma_scan_push(s2, hex_digit(c), true, false, lo, hi, 0);
    let s3 = s2.push(hex_digit(c));
    assert(scan(s3, true, false, lo, hi, 0) == Ok::<int, IntError>((a * 16 + b) * 16 + c));
    lemma_scan_push(s3, hex_digit(e), true, false, lo, hi, 0);
    let s4 = s3.push(hex_digit(e));
    assert(s4 =~= s);
    assert(scan(s, true, false, lo, hi, 0) == Ok::<int, IntError>(n));
    assert(s[0] != '+' && s[0] != '-');
}

/// The decimal digit for `d`.
fn dec_digit_char(d: u8) -> (c: char)
    requires
        d < 10,
    ensures
        c == dec_digit(d as int),
{
    if d == 0 {
        '0'
    } else if d == 1 {
        '1'
    } else if d == 2 {
        '2'
    } else if d == 3 {
        '3'
    } else if d == 4 {
        '4'
    } else if d == 5 {
        '5'
    } else if d == 6 {
        '6'
    } else if d == 7 {
        '7'
    } else if d == 8 {
        '8'
    } else {
        '9'
    }
}

/// The upper-case hexadecimal digit for `d`.
fn hex_digit_char(d: u8) -> (c: char)
    requires
        d < 16,
    ensures
        c == hex_digit(d as int),
{
    if d < 10 {
        dec_digit_char(d)
    } else if d == 10 {
        'A'
    } else if d == 11 {
        'B'
    } else if d == 12 {
        'C'
    } else if d == 13 {
        'D'
    } else if d == 14 {
        'E'
    } else {
        'F'
    }
}

/// Appends `n` in decimal.
pub fn push_dec(out: &mut Vec<char>, n: u64)
    ensures
        final(out)@ == old(out)@ + dec(n as nat),
    decreases n,
{
    if n >= 10 {
        push_dec(out, n / 10);
    }
    out.push(dec_digit_char((n % 10) as u8));
}

/// Appends `i` in decimal, with its sign when negative.
pub fn push_int(out: &mut Vec<char>, i: i64)
    ensures
        final(out)@ == old(out)@ + dec_int(i as int),
{
    if i < 0 {
        out.push('-');
        let m: u64 = (-(i as i128)) as u64;
        push_dec(out, m);
    } else {
        push_dec(out, i as u64);
    }
}

/// Appends the four hexadecimal digits of `d`.
pub fn push_hex4(out: &mut Vec<char>, d: i16)
    ensures
        final(out)@ == old(out)@ + hex4(d as int),
{
    let n: u32 = if d < 0 {
        (d as i32 + 65536) as u32
    } else {
        d as u32
    };
    out.push(hex_digit_char((n / 4096) as u8));
    out.push(hex_digit_char((n / 256 % 16) as u8));
    out.push(hex_digit_char((n / 16 % 16) as u8));
    out.push(hex_digit_char((n % 16) as u8));
}

/// The value of `c` as a digit.
pub fn digit_value(c: char, hex: bool) -> (r: Option<u8>)
    ensures
        match r {
            Some(d) => digit_of(c, hex) == Some(d as int) && d < radix(hex),
            None => digit_of(c, hex) is None,
        },
{
    if '0' <= c && c <= '9' {
        Some((c as u32 - '0' as u32) as u8)
    } else if hex && 'a' <= c && c <= 'f' {
        Some((c as u32 - 'a' as u32 + 10) as u8)
    } else if hex && 'A' <= c && c <= 'F' {
        Some((c as u32 - 'A' as u32 + 10) as u8)
    } else {
        None
    }
}

/// Reads the integer that `s` denotes.
pub fn read_int(s: &Vec<char>, hex: bool, signed: bool, lo: i128, hi: i128) -> (r: Result<
    i128,
    IntError,
>)
    requires
        -0x1_0000_0000_0000_0000 <= lo <= 0 <= hi <= 0x1_0000_0000_0000_0000,
    ensures
        match r {
            Ok(v) => parse_int(s@, hex, signed, lo as int, hi as int) == Ok::<int, IntError>(
                v as int,
            ) && lo <= v <= hi,
            Err(e) => parse_int(s@, hex, signed, lo as int, hi as int) == Err::<int, IntError>(e),
        },
{
    if s.len() == 0 {
        return Err(IntError::Empty);
    }
    let first = s[0];
    if (first == '+' || first == '-') && s.len() == 1 {
        return Err(IntError::InvalidDigit);
    }
    let neg = first == '-' && signed;
    let start: usize = if first == '+' || neg {
        1
    } else {
        0
    };
    let ghost digits = s@.subrange(start as int, s.len() as int);
    assert(start == 1 ==> digits == s@.drop_first());
    assert(start == 0 ==> digits == s@);
    assert(parse_int(s@, hex, signed, lo as int, hi as int) == scan(
        digits,
        hex,
        neg,
        lo as int,
        hi as int,
        0,
    ));
    let mut acc: i128 = 0;
    let mut i: usize = start;
    while i < s.len()
        invariant
            start <= i <= s.len(),
            lo <= acc <= hi,
            -0x1_0000_0000_0000_0000 <= lo <= 0 <= hi <= 0x1_0000_0000_0000_0000,
            parse_int(s@, hex, signed, lo as int, hi as int) == scan(
                s@.subrange(i as int, s.len() as int),
                hex,
                neg,
                lo as int,
                hi as int,
                acc as int,
            ),
            scan(digits, hex, neg, lo as int, hi as int, 0) == scan(
                s@.subrange(i as int, s.len() as int),
                hex,
                neg,
                lo as int,
                hi as int,
                acc as int,
            ),
        decreases s.len() - i,
    {
        let ghost rest = s@.subrange(i as int, s.len() as int);
        assert(rest.drop_first() == s@.subrange(i + 1, s.len() as int));
        assert(rest[0] == s@[i as int]);
        let ghost step = scan_step(acc as int, rest[0], hex, neg, lo as int, hi as int);
        assert(scan(rest, hex, neg, lo as int, hi as int, acc as int) == match step {
            Err(e) => Err(e),
            Ok(next) => scan(rest.drop_first(), hex, neg, lo as int, hi as int, next),
        });
        match digit_value(s[i], hex) {
            None => {
                return Err(IntError::InvalidDigit);
            },
            Some(d) => {
                let next: i128 = if hex {
                    if neg {
                        acc * 16 - d as i128
                    } else {
                        acc * 16 + d as i128
                    }
                } else {
                    if neg {
                        acc * 10 - d as i128
                    } else {
                        acc * 10 + d as i128
                    }
                };
                if next > hi {
                    return Err(IntError::PosOverflow);
                }
                if next < lo {
                    return Err(IntError::NegOverflow);
                }
                acc = next;
            },
        }
        i += 1;
    }
    assert(s@.subrange(s.len() as int, s.len() as int) =~= Seq::<char>::empty());
    assert(scan(Seq::<char>::empty(), hex, neg, lo as int, hi as int, acc as int) == Ok::<
        int,
        IntError,
    >(acc as int));
    Ok(acc)
}

/// Reads a sixteen-bit datum from hexadecimal digits.
pub fn read_data(s: &Vec<char>) -> (r: Result<i16, IntError>)
    ensures
        match r {
            Ok(v) => parse_data(s@) == Ok::<int, IntError>(v as int),
            Err(e) => parse_data(s@) == Err::<int, IntError>(e),
        },
{
    match read_int(s, true, true, -32768, 65535) {
        Err(e) => Err(e),
        Ok(v) => {
            if v > 32767 {
                Ok((v - 65536) as i16)
            } else {
                Ok(v as i16)
            }
        },
    }
}

/// What is said of each kind of failure.
pub fn int_error_message(e: IntError) -> (r: &'static str)
    ensures
        r@ == int_error_text(e),
{
    match e {
        IntError::Empty => "cannot parse integer from empty string",
        IntError::InvalidDigit => "invalid digit found in string",
        IntError::PosOverflow => "number too large to fit in target type",
        IntError::NegOverflow => "number too small to fit in target type",
    }
}

/// Whether every character is a decimal digit, with at least one.
pub fn number(s: &Vec<char>) -> (r: bool)
    ensures
        r == is_number(s@),
{
    if s.len() == 0 {
        return false;
    }
    let mut i: usize = 0;
    while i < s.len()
        invariant
            i <= s.len(),
            forall|j: int| 0 <= j < i ==> '0' <= #[trigger] s@[j] <= '9',
        decreases s.len() - i,
    {
        if !('0' <= s[i] && s[i] <= '9') {
            return false;
        }
        i += 1;
    }
    true
}

} // verus!
