//! Canonical byte encodings and text renderings used by identifiers and
//! configuration values: big-endian integer bytes, decimal and hexadecimal
//! text, and decimal parsing.

use vstd::prelude::*;

verus! {

use vstd::string::StringSliceAdditionalSpecFns;

/// The canonical big-endian byte encoding of an unsigned integer, most
/// significant byte first.
pub open spec fn u64_be_bytes(x: u64) -> Seq<u8> {
    seq![
        (x >> 56) as u8,
        (x >> 48) as u8,
        (x >> 40) as u8,
        (x >> 32) as u8,
        (x >> 24) as u8,
        (x >> 16) as u8,
        (x >> 8) as u8,
        x as u8,
    ]
}

/// Two distinct integers have distinct big-endian encodings.
pub proof fn lemma_u64_be_bytes_injective(x: u64, y: u64)
    requires
        u64_be_bytes(x) == u64_be_bytes(y),
    ensures
        x == y,
{
    assert((x >> 56) as u8 == (y >> 56) as u8 && (x >> 48) as u8 == (y >> 48) as u8 && (x >> 40)
        as u8 == (y >> 40) as u8 && (x >> 32) as u8 == (y >> 32) as u8 && (x >> 24) as u8 == (y
        >> 24) as u8 && (x >> 16) as u8 == (y >> 16) as u8 && (x >> 8) as u8 == (y >> 8) as u8 && x
        as u8 == y as u8 ==> x == y) by (bit_vector);
    assert(u64_be_bytes(x)[0] == u64_be_bytes(y)[0]);
    assert(u64_be_bytes(x)[1] == u64_be_bytes(y)[1]);
    assert(u64_be_bytes(x)[2] == u64_be_bytes(y)[2]);
    assert(u64_be_bytes(x)[3] == u64_be_bytes(y)[3]);
    assert(u64_be_bytes(x)[4] == u64_be_bytes(y)[4]);
    assert(u64_be_bytes(x)[5] == u64_be_bytes(y)[5]);
    assert(u64_be_bytes(x)[6] == u64_be_bytes(y)[6]);
    assert(u64_be_bytes(x)[7] == u64_be_bytes(y)[7]);
}

/// The eight big-endian bytes of `x`.
pub fn u64_to_be_vec(x: u64) -> (r: Vec<u8>)
    ensures
        r@ == u64_be_bytes(x),
{
    let mut r: Vec<u8> = Vec::new();
    r.push((x >> 56) as u8);
    r.push((x >> 48) as u8);
    r.push((x >> 40) as u8);
    r.push((x >> 32) as u8);
    r.push((x >> 24) as u8);
    r.push((x >> 16) as u8);
    r.push((x >> 8) as u8);
    r.push(x as u8);
    assert(r@ =~= u64_be_bytes(x));
    r
}

/// Whether two byte slices hold the same bytes.
pub fn bytes_eq(a: &[u8], b: &[u8]) -> (r: bool)
    ensures
        r == (a@ == b@),
{
    if a.len() != b.len() {
        assert(a@ != b@) by {
            assert(a@.len() != b@.len());
        }
        return false;
    }
    let mut i: usize = 0;
    while i < a.len()
        invariant
            0 <= i <= a@.len(),
            a@.len() == b@.len(),
            forall|j: int| 0 <= j < i ==> a@[j] == b@[j],
        decreases a@.len() - i,
    {
        if a[i] != b[i] {
            return false;
        }
        i += 1;
    }
    assert(a@ =~= b@);
    true
}

/// Whether two strings hold the same text.
pub fn str_eq(a: &str, b: &str) -> (r: bool)
    ensures
        r == (a@ == b@),
{
    let r = bytes_eq(a.as_bytes(), b.as_bytes());
    proof {
        if a.spec_bytes() == b.spec_bytes() {
            vstd::utf8::encode_utf8_decode_utf8(a@);
            vstd::utf8::encode_utf8_decode_utf8(b@);
        }
    }
    r
}

/// The character for the decimal or hexadecimal digit value `d`.
pub open spec fn digit_char(d: int) -> char {
    if d < 10 {
        (('0' as u8) + d) as char
    } else {
        (('a' as u8) + (d - 10)) as char
    }
}

/// The decimal rendering of `n`, most significant digit first, without
/// leading zeros (a single `'0'` for zero).
pub open spec fn dec_chars(n: int) -> Seq<char>
    decreases n,
{
    if n < 10 {
        seq![digit_char(n)]
    } else {
        dec_chars(n / 10).push(digit_char(n % 10))
    }
}

/// The decimal rendering of a signed integer: a leading `'-'` for negative
/// values.
pub open spec fn dec_chars_signed(n: int) -> Seq<char> {
    if n >= 0 {
        dec_chars(n)
    } else {
        seq!['-'] + dec_chars(-n)
    }
}

/// The lowercase hexadecimal rendering of `bytes`, two digits per byte.
pub open spec fn hex_chars(bytes: Seq<u8>) -> Seq<char> {
    Seq::new(
        2 * bytes.len(),
        |i: int|
            if i % 2 == 0 {
                digit_char(bytes[i / 2] as int / 16)
            } else {
                digit_char(bytes[i / 2] as int % 16)
            },
    )
}

/// A one-character string for the digit value `d`.
fn digit_str(d: u8) -> (r: &'static str)
    requires
        d < 16,
    ensures
        r@ == seq![digit_char(d as int)],
{
    proof {
        reveal_strlit("0");
        reveal_strlit("1");
        reveal_strlit("2");
        reveal_strlit("3");
        reveal_strlit("4");
        reveal_strlit("5");
        reveal_strlit("6");
        reveal_strlit("7");
        reveal_strlit("8");
        reveal_strlit("9");
        reveal_strlit("a");
        reveal_strlit("b");
        reveal_strlit("c");
        reveal_strlit("d");
        reveal_strlit("e");
        reveal_strlit("f");
    }
    match d {
        0 => "0",
        1 => "1",
        2 => "2",
        3 => "3",
        4 => "4",
        5 => "5",
        6 => "6",
        7 => "7",
        8 => "8",
        9 => "9",
        10 => "a",
        11 => "b",
        12 => "c",
        13 => "d",
        14 => "e",
        _ => "f",
    }
}

/// Appends the decimal rendering of `n` to `out`.
pub fn push_dec_u64(out: &mut String, n: u64)
    ensures
        final(out)@ == old(out)@ + dec_chars(n as int),
    decreases n,
{
    if n < 10 {
        out.append(digit_str(n as u8));
    } else {
        push_dec_u64(out, n / 10);
        out.append(digit_str((n % 10) as u8));
    }
}

/// The decimal rendering of `n` as a string.
pub fn u64_to_dec_string(n: u64) -> (r: String)
    ensures
        r@ == dec_chars(n as int),
{
    let mut out = String::new();
    push_dec_u64(&mut out, n);
    assert(out@ =~= dec_chars(n as int));
    out
}

/// The decimal rendering of the signed integer `n` as a string.
pub fn i64_to_dec_string(n: i64) -> (r: String)
    ensures
        r@ == dec_chars_signed(n as int),
{
    proof {
        reveal_strlit("-");
    }
    if n >= 0 {
        u64_to_dec_string(n as u64)
    } else {
        let mut out = String::new();
        out.append("-");
        let magnitude: u64 = if n == i64::MIN {
            9223372036854775808u64
        } else {
            (-n) as u64
        };
        push_dec_u64(&mut out, magnitude);
        assert(out@ =~= dec_chars_signed(n as int));
        out
    }
}

/// Appends the lowercase hexadecimal rendering of `bytes` to `out`.
pub fn push_hex(out: &mut String, bytes: &[u8])
    ensures
        final(out)@ == old(out)@ + hex_chars(bytes@),
{
    let mut i: usize = 0;
    while i < bytes.len()
        invariant
            0 <= i <= bytes@.len(),
            out@ == old(out)@ + hex_chars(bytes@.take(i as int)),
        decreases bytes@.len() - i,
    {
        let b = bytes[i];
        out.append(digit_str(b / 16));
        out.append(digit_str(b % 16));
        assert(out@ =~= old(out)@ + hex_chars(bytes@.take(i as int + 1))) by {
            assert(hex_chars(bytes@.take(i as int + 1)) =~= hex_chars(bytes@.take(i as int))
                + seq![digit_char(b as int / 16), digit_char(b as int % 16)]);
        }
        i += 1;
    }
    assert(bytes@.take(bytes@.len() as int) =~= bytes@);
}

/// The value of the decimal digit byte `b`, or none when `b` is not a digit.
pub open spec fn digit_value(b: u8) -> Option<int> {
    if 48 <= b <= 57 {
        Some(b as int - 48)
    } else {
        None
    }
}

/// The unsigned value of a run of decimal digit bytes: none when the run is
/// empty, holds a non-digit, or exceeds `u64::MAX`.
pub open spec fn digits_value(s: Seq<u8>) -> Option<u64>
    decreases s.len(),
{
    if s.len() == 0 {
        None
    } else {
        let high: Option<u64> = if s.len() == 1 {
            Some(0u64)
        } else {
            digits_value(s.drop_last())
        };
        match (high, digit_value(s.last())) {
            (Some(h), Some(d)) => if h * 10 + d <= u64::MAX {
                Some((h * 10 + d) as u64)
            } else {
                None
            },
            _ => None,
        }
    }
}

/// The unsigned value of a decimal string given as bytes: an optional leading
/// `'+'`, then at least one digit; none on any other form or on overflow.
pub open spec fn parse_u64_bytes(s: Seq<u8>) -> Option<u64> {
    if s.len() > 0 && s[0] == 43 {
        digits_value(s.skip(1))
    } else {
        digits_value(s)
    }
}

/// The signed value of a decimal string given as bytes: an optional leading
/// `'+'` or `'-'`, then at least one digit; none on any other form or when
/// the value is out of the signed range.
pub open spec fn parse_i64_bytes(s: Seq<u8>) -> Option<i64> {
    if s.len() > 0 && s[0] == 45 {
        match digits_value(s.skip(1)) {
            Some(magnitude) => if magnitude <= 0x8000000000000000u64 {
                Some((-(magnitude as int)) as i64)
            } else {
                None
            },
            None => None,
        }
    } else {
        match parse_u64_bytes(s) {
            Some(magnitude) => if magnitude <= i64::MAX as u64 {
                Some(magnitude as i64)
            } else {
                None
            },
            None => None,
        }
    }
}

/// The unsigned value of the digit run `s[from..]`, by the rules of
/// [`digits_value`].
fn digits_to_u64(s: &[u8], from: usize) -> (r: Option<u64>)
    requires
        from <= s@.len(),
    ensures
        r == digits_value(s@.skip(from as int)),
{
    let ghost digits = s@.skip(from as int);
    if from == s.len() {
        assert(digits.len() == 0);
        return None;
    }
    let mut acc: u64 = 0;
    let mut i: usize = from;
    while i < s.len()
        invariant
            from <= i <= s@.len(),
            from < s@.len(),
            digits == s@.skip(from as int),
            i > from ==> digits_value(digits.take(i - from as int)) == Some(acc),
            i == from ==> acc == 0,
        decreases s@.len() - i,
    {
        let b = s[i];
        if b < 48 || b > 57 {
            assert(digits_value(digits) is None) by {
                lemma_digits_value_bad_digit(digits, i - from as int);
            }
            return None;
        }
        let d = b - 48;
        if acc > (u64::MAX - (d as u64)) / 10 {
            assert(acc * 10 + d > u64::MAX) by (nonlinear_arith)
                requires
                    acc > (u64::MAX - (d as u64)) / 10,
                    d <= 9,
            ;
            assert(digits_value(digits) is None) by {
                let upto = digits.take(i - from as int + 1);
                assert(upto.drop_last() =~= digits.take(i - from as int));
                assert(upto.last() == b);
                assert(digits_value(upto) is None);
                lemma_digits_value_overflow(digits, i - from as int + 1);
            }
            return None;
        }
        assert(acc * 10 + d <= u64::MAX) by (nonlinear_arith)
            requires
                acc <= (u64::MAX - (d as u64)) / 10,
                d <= 9,
        ;
        acc = acc * 10 + (d as u64);
        i += 1;
        proof {
            let upto = digits.take(i - from as int);
            assert(upto.drop_last() =~= digits.take(i - 1 - from as int));
            assert(digits_value(upto) == Some(acc));
        }
    }
    assert(digits.take(i - from as int) =~= digits);
    Some(acc)
}

/// A run containing a non-digit has no value.
proof fn lemma_digits_value_bad_digit(s: Seq<u8>, at: int)
    requires
        0 <= at < s.len(),
        digit_value(s[at]) is None,
    ensures
        digits_value(s) is None,
    decreases s.len(),
{
    if s.len() > 0 && at < s.len() - 1 {
        assert(s.drop_last()[at] == s[at]);
        lemma_digits_value_bad_digit(s.drop_last(), at);
    }
}

/// A run whose prefix already has no value has no value.
proof fn lemma_digits_value_overflow(s: Seq<u8>, upto: int)
    requires
        0 < upto <= s.len(),
        digits_value(s.take(upto)) is None,
    ensures
        digits_value(s) is None,
    decreases s.len(),
{
    if upto < s.len() {
        assert(s.drop_last().take(upto) =~= s.take(upto));
        lemma_digits_value_overflow(s.drop_last(), upto);
    } else {
        assert(s.take(upto) =~= s);
    }
}

/// Parses an unsigned decimal value from the bytes of a string, by the rules
/// of [`parse_u64_bytes`].
pub fn parse_u64(s: &str) -> (r: Option<u64>)
    ensures
        r == parse_u64_bytes(s.spec_bytes()),
{
    let bytes = s.as_bytes();
    if bytes.len() > 0 && bytes[0] == 43 {
        digits_to_u64(bytes, 1)
    } else {
        assert(bytes@.skip(0) =~= bytes@);
        digits_to_u64(bytes, 0)
    }
}

/// Parses a signed decimal value from the bytes of a string, by the rules of
/// [`parse_i64_bytes`].
pub fn parse_i64(s: &str) -> (r: Option<i64>)
    ensures
        r == parse_i64_bytes(s.spec_bytes()),
{
    let bytes = s.as_bytes();
    if bytes.len() > 0 && bytes[0] == 45 {
        match digits_to_u64(bytes, 1) {
            Some(magnitude) => if magnitude <= 0x8000000000000000u64 {
                if magnitude == 0x8000000000000000u64 {
                    Some(i64::MIN)
                } else {
                    Some(-(magnitude as i64))
                }
            } else {
                None
            },
            None => None,
        }
    } else {
        let magnitude = if bytes.len() > 0 && bytes[0] == 43 {
            digits_to_u64(bytes, 1)
        } else {
            assert(bytes@.skip(0) =~= bytes@);
            digits_to_u64(bytes, 0)
        };
        match magnitude {
            Some(m) => if m <= i64::MAX as u64 {
                Some(m as i64)
            } else {
                None
            },
            None => None,
        }
    }
}

} // verus!
