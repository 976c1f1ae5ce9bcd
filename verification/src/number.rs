//! Integers in text: parsing decimal and hexadecimal strings, and writing
//! integers in decimal and hexadecimal.
use vstd::prelude::*;
use vstd::utf8::*;
use crate::cstr::{c_text, c_text_bytes, decoded, lemma_until_nul_no_nul, read_str, text_of};
use crate::text::{is_white_space, strips, trim_both, trim_chars, trim_end, trim_start};

verus! {

broadcast use vstd::seq::group_seq_axioms;

/// The value of `c` as a digit in the given radix (0-9, then a-z or A-Z
/// for 10 upwards), or -1 when it is not one.
pub open spec fn digit_value(c: char, radix: u32) -> int {
    let u = c as u32;
    let d: int = if 48 <= u <= 57 {
        u - 48
    } else if 97 <= u <= 122 {
        u - 97 + 10
    } else if 65 <= u <= 90 {
        u - 65 + 10
    } else {
        99
    };
    if d < radix {
        d
    } else {
        -1
    }
}

/// Every character of `ds` is a digit in the radix.
pub open spec fn all_digits(ds: Seq<char>, radix: u32) -> bool {
    forall|i: int| 0 <= i < ds.len() ==> digit_value(#[trigger] ds[i], radix) >= 0
}

/// The number the digits `ds` write in the radix.
pub open spec fn digits_value(ds: Seq<char>, radix: u32) -> int
    decreases ds.len(),
{
    if ds.len() == 0 {
        0
    } else {
        digits_value(ds.drop_last(), radix) * radix + digit_value(ds.last(), radix)
    }
}

/// The sign of a numeral and its digits: an optional leading `+` or `-`.
pub open spec fn sign_and_digits(cs: Seq<char>) -> (bool, Seq<char>) {
    if cs.len() > 0 && cs[0] == '+' {
        (false, cs.drop_first())
    } else if cs.len() > 0 && cs[0] == '-' {
        (true, cs.drop_first())
    } else {
        (false, cs)
    }
}

/// The `i64` that `cs` writes in the radix, as `i64::from_str_radix` reads
/// it: an optional sign and at least one digit, nothing else, and a value
/// that fits.
pub open spec fn parse_i64(cs: Seq<char>, radix: u32) -> Option<i64> {
    let (neg, ds) = sign_and_digits(cs);
    if ds.len() == 0 || !all_digits(ds, radix) {
        None
    } else {
        let v = if neg {
            -digits_value(ds, radix)
        } else {
            digits_value(ds, radix)
        };
        if i64::MIN <= v <= i64::MAX {
            Some(v as i64)
        } else {
            None
        }
    }
}

proof fn lemma_digits_value_nonneg(ds: Seq<char>, radix: u32)
    requires
        all_digits(ds, radix),
        radix >= 1,
    ensures
        digits_value(ds, radix) >= 0,
    decreases ds.len(),
{
    if ds.len() > 0 {
        let p = ds.drop_last();
        assert(all_digits(p, radix)) by {
            assert forall|i: int| 0 <= i < p.len() implies digit_value(#[trigger] p[i], radix)
                >= 0 by {
                assert(p[i] == ds[i]);
            }
        }
        lemma_digits_value_nonneg(p, radix);
        assert(digit_value(ds.last(), radix) >= 0);
        let v = digits_value(p, radix);
        assert(v * radix >= 0) by (nonlinear_arith)
            requires
                v >= 0,
                radix >= 1,
        ;
    }
}

/// More digits never write a smaller number.
proof fn lemma_digits_value_grows(ds: Seq<char>, k: int, radix: u32)
    requires
        all_digits(ds, radix),
        0 <= k <= ds.len(),
        radix >= 1,
    ensures
        digits_value(ds.take(k), radix) <= digits_value(ds, radix),
    decreases ds.len(),
{
    if k < ds.len() {
        let p = ds.drop_last();
        assert(all_digits(p, radix)) by {
            assert forall|i: int| 0 <= i < p.len() implies digit_value(#[trigger] p[i], radix)
                >= 0 by {
                assert(p[i] == ds[i]);
            }
        }
        lemma_digits_value_grows(p, k, radix);
        assert(p.take(k) =~= ds.take(k));
        lemma_digits_value_nonneg(p, radix);
        let v = digits_value(p, radix);
        assert(digit_value(ds.last(), radix) >= 0);
        assert(v * radix >= v) by (nonlinear_arith)
            requires
                v >= 0,
                radix >= 1,
        ;
    } else {
        assert(ds.take(k) =~= ds);
    }
}

/// The digit value of `c` in a radix of at most 36.
fn digit_of(c: char, radix: u32) -> (r: i64)
    requires
        2 <= radix <= 36,
    ensures
        r == digit_value(c, radix),
{
    let u = c as u32;
    let d: u32 = if 48 <= u && u <= 57 {
        u - 48
    } else if 97 <= u && u <= 122 {
        u - 97 + 10
    } else if 65 <= u && u <= 90 {
        u - 65 + 10
    } else {
        99
    };
    if d < radix {
        d as i64
    } else {
        -1
    }
}

/// 2^63, the largest magnitude an `i64` can have (as a negative number).
const MAGNITUDE_LIMIT: u64 = 0x8000_0000_0000_0000;

/// Reads an `i64` written in the radix, as `i64::from_str_radix` does.
pub fn parse_int(cs: &[char], radix: u32) -> (r: Option<i64>)
    requires
        2 <= radix <= 36,
    ensures
        r == parse_i64(cs@, radix),
{
    let n = cs.len();
    if n == 0 {
        return None;
    }
    let mut start: usize = 0;
    let mut neg = false;
    if cs[0] == '+' {
        start = 1;
    } else if cs[0] == '-' {
        start = 1;
        neg = true;
    }
    let ghost ds = sign_and_digits(cs@).1;
    assert(ds =~= cs@.skip(start as int));
    assert(neg == sign_and_digits(cs@).0);
    if start == n {
        return None;
    }
    let mut acc: u64 = 0;
    let mut i: usize = start;
    assert(ds.take(0) =~= Seq::<char>::empty());
    while i < n
        invariant
            n == cs@.len(),
            start <= i <= n,
            2 <= radix <= 36,
            ds == cs@.skip(start as int),
            ds == sign_and_digits(cs@).1,
            neg == sign_and_digits(cs@).0,
            ds.len() > 0,
            all_digits(ds.take(i - start), radix),
            acc == digits_value(ds.take(i - start), radix),
            acc <= MAGNITUDE_LIMIT,
        decreases n - i,
    {
        let d = digit_of(cs[i], radix);
        let ghost k: int = i - start;
        assert(ds[k] == cs@[i as int]);
        if d < 0 {
            assert(!all_digits(ds, radix)) by {
                assert(digit_value(ds[k], radix) < 0);
            }
            return None;
        }
        assert(ds.take(k + 1).drop_last() =~= ds.take(k));
        assert(ds.take(k + 1).last() == ds[k]);
        assert(all_digits(ds.take(k + 1), radix)) by {
            assert forall|j: int| 0 <= j < k + 1 implies digit_value(
                #[trigger] ds.take(k + 1)[j],
                radix,
            ) >= 0 by {
                if j < k {
                    assert(ds.take(k + 1)[j] == ds.take(k)[j]);
                }
            }
        }
        let du = d as u64;
        let rad = radix as u64;
        if acc > (MAGNITUDE_LIMIT - du) / rad {
            assert(acc * rad + du > MAGNITUDE_LIMIT) by (nonlinear_arith)
                requires
                    acc > ((MAGNITUDE_LIMIT - du) as u64) / rad,
                    rad >= 2,
                    du <= MAGNITUDE_LIMIT,
            ;
            proof {
                if all_digits(ds, radix) {
                    lemma_digits_value_grows(ds, k + 1, radix);
                }
            }
            return None;
        }
        assert(acc * rad + du <= MAGNITUDE_LIMIT) by (nonlinear_arith)
            requires
                acc <= ((MAGNITUDE_LIMIT - du) as u64) / rad,
                rad >= 2,
                du <= MAGNITUDE_LIMIT,
        ;
        acc = acc * rad + du;
        i = i + 1;
    }
    assert(ds.take(n - start) =~= ds);
    if neg {
        if acc == MAGNITUDE_LIMIT {
            Some(i64::MIN)
        } else {
            Some(-(acc as i64))
        }
    } else {
        if acc > i64::MAX as u64 {
            None
        } else {
            Some(acc as i64)
        }
    }
}

/// What `hsh_atoll` makes of a text: the decimal `i64` it holds once white
/// space is trimmed from both ends, or 0 when it holds none.
pub open spec fn decimal_value(cs: Seq<char>) -> i64 {
    match parse_i64(trim_both(cs, true), 10) {
        Some(v) => v,
        None => 0,
    }
}

/// The decimal integer in the text of `s`, trimmed of white space at both
/// ends; 0 when there is none or it does not fit in an `i64`.
pub fn hsh_atoll(s: Option<&[u8]>) -> (r: i64)
    ensures
        r == decimal_value(text_of(s)),
{
    let t = read_str(s);
    let k = trim_chars(t.as_slice(), true, true, true);
    match parse_int(k.as_slice(), 10) {
        Some(v) => v,
        None => 0,
    }
}

/// The same as `hsh_atoll`.
pub fn hsh_str_to_int(s: Option<&[u8]>) -> (r: i64)
    ensures
        r == decimal_value(text_of(s)),
{
    hsh_atoll(s)
}

/// The same as `hsh_atoll`.
pub fn hsh_to_int(s: Option<&[u8]>) -> (r: i64)
    ensures
        r == decimal_value(text_of(s)),
{
    hsh_atoll(s)
}

/// `cs` without all leading copies of a non-empty `prefix`.
pub open spec fn strip_prefixes(cs: Seq<char>, prefix: Seq<char>) -> Seq<char>
    decreases cs.len(),
{
    if prefix.len() > 0 && cs.len() >= prefix.len() && cs.take(prefix.len() as int) == prefix {
        strip_prefixes(cs.skip(prefix.len() as int), prefix)
    } else {
        cs
    }
}

/// What `hsh_to_int_from_hex` makes of a text: trimmed of white space, then
/// stripped of all leading `0x`, then of all leading `0X`, then read as a
/// hexadecimal `i64`, or 0 when that fails.
pub open spec fn hex_value(cs: Seq<char>) -> i64 {
    let t = strip_prefixes(strip_prefixes(trim_both(cs, true), seq!['0', 'x']), seq!['0', 'X']);
    match parse_i64(t, 16) {
        Some(v) => v,
        None => 0,
    }
}

/// Removes every leading copy of the two-character prefix `p0 p1`.
fn strip_two_char_prefixes(cs: Vec<char>, p0: char, p1: char) -> (r: Vec<char>)
    ensures
        r@ == strip_prefixes(cs@, seq![p0, p1]),
{
    let ghost p = seq![p0, p1];
    let n = cs.len();
    let mut i: usize = 0;
    assert(cs@.skip(0) =~= cs@);
    while n - i >= 2 && cs[i] == p0 && cs[i + 1] == p1
        invariant
            n == cs@.len(),
            i <= n,
            p == seq![p0, p1],
            strip_prefixes(cs@, p) == strip_prefixes(cs@.skip(i as int), p),
        decreases n - i,
    {
        let ghost rest = cs@.skip(i as int);
        assert(rest.take(2) =~= seq![cs@[i as int], cs@[i + 1]]);
        assert(rest.take(2) =~= p);
        assert(rest.skip(2) =~= cs@.skip(i + 2));
        i = i + 2;
    }
    let ghost rest = cs@.skip(i as int);
    assert(strip_prefixes(rest, p) == rest) by {
        if rest.len() >= 2 && rest.take(2) == p {
            assert(rest.take(2)[0] == cs@[i as int]);
            assert(rest.take(2)[1] == cs@[i + 1]);
        }
    }
    let mut out: Vec<char> = Vec::new();
    let mut k: usize = i;
    while k < n
        invariant
            n == cs@.len(),
            i <= k <= n,
            out@ == cs@.subrange(i as int, k as int),
        decreases n - k,
    {
        out.push(cs[k]);
        k = k + 1;
        assert(out@ =~= cs@.subrange(i as int, k as int));
    }
    assert(out@ =~= rest);
    out
}

/// The hexadecimal integer in the text of `s`, after trimming white space
/// and any leading `0x` or `0X`; 0 when there is none or it does not fit.
pub fn hsh_to_int_from_hex(s: Option<&[u8]>) -> (r: i64)
    ensures
        r == hex_value(text_of(s)),
{
    let t = read_str(s);
    let k = trim_chars(t.as_slice(), true, true, true);
    let a = strip_two_char_prefixes(k, '0', 'x');
    let b = strip_two_char_prefixes(a, '0', 'X');
    match parse_int(b.as_slice(), 16) {
        Some(v) => v,
        None => 0,
    }
}

/// The character of a digit below 16: `0`-`9`, then `a`-`f`.
pub open spec fn digit_char(d: u64) -> char {
    if d < 10 {
        ((48 + d) as u8) as char
    } else {
        ((87 + d) as u8) as char
    }
}

/// The digits of `m` in the radix, most significant first, without
/// leading zeros (`0` itself is one digit).
pub open spec fn digits_of(m: u64, radix: u64) -> Seq<char>
    decreases m,
{
    if radix < 2 || m < radix {
        seq![digit_char(m)]
    } else {
        proof {
            assert(m / radix < m) by (nonlinear_arith)
                requires
                    radix >= 2,
                    m >= radix,
            ;
        }
        digits_of(m / radix, radix).push(digit_char(m % radix))
    }
}

/// The magnitude of an `i64` as a `u64`.
pub open spec fn magnitude(n: i64) -> u64 {
    if n < 0 {
        (-(n as int)) as u64
    } else {
        n as u64
    }
}

/// `n` in decimal, with a `-` in front when it is negative.
pub open spec fn decimal_text(n: i64) -> Seq<char> {
    if n < 0 {
        seq!['-'] + digits_of(magnitude(n), 10)
    } else {
        digits_of(magnitude(n), 10)
    }
}

/// `n` in lower-case hexadecimal, negative numbers by their two's
/// complement bits (as the `{:x}` format writes an `i64`).
pub open spec fn hex_text(n: i64) -> Seq<char> {
    digits_of(n as u64, 16)
}

/// The character of a digit below 16.
pub fn digit_to_char(d: u64) -> (r: char)
    requires
        d < 16,
    ensures
        r == digit_char(d),
{
    if d < 10 {
        ((48 + d) as u8) as char
    } else {
        ((87 + d) as u8) as char
    }
}

/// The digits of `m` in a radix from 2 to 16.
fn digits_u64(m: u64, radix: u64) -> (r: Vec<char>)
    requires
        2 <= radix <= 16,
    ensures
        r@ == digits_of(m, radix),
    decreases m,
{
    if m < radix {
        let v: Vec<char> = vec![digit_to_char(m)];
        assert(v@ =~= seq![digit_char(m)]);
        v
    } else {
        assert(m / radix < m) by (nonlinear_arith)
            requires
                radix >= 2,
                m >= radix,
        ;
        let mut v = digits_u64(m / radix, radix);
        v.push(digit_to_char(m % radix));
        v
    }
}

/// The magnitude of `n`.
fn magnitude_of(n: i64) -> (r: u64)
    ensures
        r == magnitude(n),
{
    if n == i64::MIN {
        0x8000_0000_0000_0000u64
    } else if n < 0 {
        (-n) as u64
    } else {
        n as u64
    }
}

/// `n` written in decimal.
pub fn hsh_int_to_string(n: i64) -> (r: Vec<u8>)
    ensures
        r@ == c_text(decimal_text(n)),
{
    let ds = digits_u64(magnitude_of(n), 10);
    if n < 0 {
        let mut t: Vec<char> = vec!['-'];
        let ghost ds0 = ds@;
        let mut ds = ds;
        t.append(&mut ds);
        assert(t@ =~= seq!['-'] + ds0);
        c_text_bytes(t.as_slice())
    } else {
        c_text_bytes(ds.as_slice())
    }
}

/// The same as `hsh_int_to_string`.
pub fn hsh_int_to_str(n: i64) -> (r: Vec<u8>)
    ensures
        r@ == c_text(decimal_text(n)),
{
    hsh_int_to_string(n)
}

/// The same as `hsh_int_to_string`.
pub fn hsh_val_to_str(v: i64) -> (r: Vec<u8>)
    ensures
        r@ == c_text(decimal_text(v)),
{
    hsh_int_to_string(v)
}

/// `n` written in lower-case hexadecimal, by its two's complement bits.
pub fn hsh_conv_int_to_hex(n: i64) -> (r: Vec<u8>)
    ensures
        r@ == c_text(hex_text(n)),
{
    let ds = digits_u64(n as u64, 16);
    c_text_bytes(ds.as_slice())
}

/// A character that `digits_of` writes: `0`-`9` or `a`-`f`.
pub open spec fn is_digit_char(c: char) -> bool {
    (48 <= c as u32 <= 57) || (97 <= c as u32 <= 102)
}

proof fn lemma_digit_char(d: u64, radix: u64)
    requires
        2 <= radix <= 16,
        d < radix,
    ensures
        digit_value(digit_char(d), radix as u32) == d,
        is_digit_char(digit_char(d)),
{
}

proof fn lemma_digits_of(m: u64, radix: u64)
    requires
        2 <= radix <= 16,
    ensures
        digits_of(m, radix).len() >= 1,
        all_digits(digits_of(m, radix), radix as u32),
        digits_value(digits_of(m, radix), radix as u32) == m,
        forall|i: int|
            0 <= i < digits_of(m, radix).len() ==> is_digit_char(#[trigger] digits_of(m, radix)[i]),
    decreases m,
{
    let ds = digits_of(m, radix);
    let r32 = radix as u32;
    if m < radix {
        lemma_digit_char(m, radix);
        assert(ds.drop_last() =~= Seq::<char>::empty());
        assert(digits_value(ds, r32) == digits_value(ds.drop_last(), r32) * r32 + digit_value(
            ds.last(),
            r32,
        ));
        assert(0 * r32 == 0) by (nonlinear_arith);
    } else {
        assert(m / radix < m) by (nonlinear_arith)
            requires
                radix >= 2,
                m >= radix,
        ;
        lemma_digits_of(m / radix, radix);
        lemma_digit_char(m % radix, radix);
        let p = digits_of(m / radix, radix);
        assert(ds.drop_last() =~= p);
        assert(m == (m / radix) * radix + m % radix) by (nonlinear_arith)
            requires
                radix >= 2,
        ;
        assert(ds.last() == digit_char(m % radix));
        assert(digits_value(ds, r32) == digits_value(p, r32) * r32 + digit_value(ds.last(), r32));
        assert(digits_value(p, r32) * r32 == (m / radix) * radix);
        assert forall|i: int| 0 <= i < ds.len() implies digit_value(#[trigger] ds[i], radix as u32)
            >= 0 && is_digit_char(ds[i]) by {
            if i < p.len() {
                assert(ds[i] == p[i]);
            }
        }
    }
}

/// Characters with codes from 1 to 127 encode to one non-zero byte each.
proof fn lemma_ascii_encode(cs: Seq<char>)
    requires
        forall|i: int| 0 <= i < cs.len() ==> 1 <= #[trigger] (cs[i] as u32) <= 127,
    ensures
        encode_utf8(cs).len() == cs.len(),
        forall|i: int| 0 <= i < encode_utf8(cs).len() ==> #[trigger] encode_utf8(cs)[i] != 0,
    decreases cs.len(),
{
    if cs.len() > 0 {
        let rest = cs.drop_first();
        assert forall|i: int| 0 <= i < rest.len() implies 1 <= #[trigger] (rest[i] as u32)
            <= 127 by {
            assert(rest[i] == cs[i + 1]);
        }
        lemma_ascii_encode(rest);
        let u = cs[0] as u32;
        assert(1 <= u <= 127);
        let b = (u & 0x7F) as u8;
        assert(b != 0) by (bit_vector)
            requires
                1 <= u <= 127,
                b == (u & 0x7F) as u8,
        ;
        let e = encode_utf8(cs);
        assert(e == seq![b] + encode_utf8(rest));
    }
}

/// Text of digit characters and signs encodes to non-zero ASCII bytes, so a
/// C string keeps it whole and reading it back gives the same characters.
proof fn lemma_plain_text(cs: Seq<char>)
    requires
        forall|i: int| 0 <= i < cs.len() ==> is_digit_char(#[trigger] cs[i]) || cs[i] == '-',
    ensures
        decoded(c_text(cs)) == cs,
{
    lemma_ascii_encode(cs);
    let e = encode_utf8(cs);
    lemma_until_nul_no_nul(e);
    encode_utf8_valid_utf8(cs);
    encode_utf8_decode_utf8(cs);
}

/// Text that begins and ends with a character outside white space is kept
/// whole by a trim.
proof fn lemma_trim_keeps(cs: Seq<char>)
    requires
        cs.len() >= 1,
        !is_white_space(cs[0]),
        !is_white_space(cs.last()),
    ensures
        trim_both(cs, true) == cs,
{
    assert(!strips(true, cs[0]));
    assert(trim_start(cs, true) == cs);
    assert(!strips(true, cs.last()));
}

/// Reading back what `hsh_int_to_string` writes gives the number again:
/// `hsh_atoll` of the decimal text of `n` is `n`.
pub proof fn law_decimal_round_trip(n: i64)
    ensures
        decimal_value(decoded(c_text(decimal_text(n)))) == n,
{
    let m = magnitude(n);
    let ds = digits_of(m, 10);
    lemma_digits_of(m, 10);
    let t = decimal_text(n);
    if n < 0 {
        assert(t.drop_first() =~= ds);
        assert(t.last() == ds.last());
        assert forall|i: int| 0 <= i < t.len() implies is_digit_char(#[trigger] t[i]) || t[i]
            == '-' by {
            if i > 0 {
                assert(t[i] == ds[i - 1]);
            }
        }
    } else {
        assert(is_digit_char(t[0]));
    }
    assert(is_digit_char(ds.last()));
    lemma_plain_text(t);
    lemma_trim_keeps(t);
    assert(is_digit_char(ds[0]));
}

/// Reading back what `hsh_conv_int_to_hex` writes gives the number again,
/// for numbers that are not negative (a negative number is written by its
/// two's complement bits, which read back as a number past `i64::MAX`).
pub proof fn law_hex_round_trip(n: i64)
    requires
        n >= 0,
    ensures
        hex_value(decoded(c_text(hex_text(n)))) == n,
{
    let t = hex_text(n);
    lemma_digits_of(n as u64, 16);
    assert forall|i: int| 0 <= i < t.len() implies is_digit_char(#[trigger] t[i]) || t[i]
        == '-' by {}
    lemma_plain_text(t);
    lemma_trim_keeps(t);
    assert(strip_prefixes(t, seq!['0', 'x']) == t) by {
        if t.len() >= 2 {
            assert(is_digit_char(t[1]));
            assert(t.take(2)[1] == t[1]);
        }
    }
    assert(strip_prefixes(t, seq!['0', 'X']) == t) by {
        if t.len() >= 2 {
            assert(is_digit_char(t[1]));
            assert(t.take(2)[1] == t[1]);
        }
    }
    assert(is_digit_char(t[0]));
}

/// A leading zero digit does not change the value of a numeral.
proof fn lemma_leading_zero(ds: Seq<char>, radix: u32)
    requires
        2 <= radix <= 36,
    ensures
        digits_value(seq!['0'] + ds, radix) == digits_value(ds, radix),
        digit_value('0', radix) == 0,
    decreases ds.len(),
{
    let z = seq!['0'] + ds;
    assert(('0' as u32) == 48);
    assert(digit_value('0', radix) == 0);
    if ds.len() == 0 {
        assert(z.drop_last() =~= Seq::<char>::empty());
        assert(z.last() == '0');
        assert(digits_value(Seq::<char>::empty(), radix) == 0);
        assert(0 * radix == 0) by (nonlinear_arith);
        assert(digits_value(z, radix) == digits_value(z.drop_last(), radix) * radix
            + digit_value(z.last(), radix));
    } else {
        assert(z.drop_last() =~= seq!['0'] + ds.drop_last());
        assert(z.last() == ds.last());
        lemma_leading_zero(ds.drop_last(), radix);
        assert(digits_value(z, radix) == digits_value(z.drop_last(), radix) * radix
            + digit_value(z.last(), radix));
    }
}

/// A numeral of digits only reads as the number its digits write, in any
/// radix, with or without leading zeros, and with a `-` in front as that
/// number's negation, whenever the number fits in an `i64`.
pub proof fn law_parse_reads_digits(ds: Seq<char>, radix: u32)
    requires
        2 <= radix <= 36,
        ds.len() > 0,
        all_digits(ds, radix),
        digits_value(ds, radix) <= i64::MAX,
    ensures
        parse_i64(ds, radix) == Some(digits_value(ds, radix) as i64),
        parse_i64(seq!['0'] + ds, radix) == parse_i64(ds, radix),
        parse_i64(seq!['-'] + ds, radix) == Some((-digits_value(ds, radix)) as i64),
{
    lemma_digits_value_nonneg(ds, radix);
    assert(digit_value(ds[0], radix) >= 0);
    assert(ds[0] != '+' && ds[0] != '-');
    let z = seq!['0'] + ds;
    lemma_leading_zero(ds, radix);
    assert(all_digits(z, radix)) by {
        assert forall|i: int| 0 <= i < z.len() implies digit_value(#[trigger] z[i], radix)
            >= 0 by {
            if i > 0 {
                assert(z[i] == ds[i - 1]);
            }
        }
    }
    assert(sign_and_digits(z).1 == z);
    let m = seq!['-'] + ds;
    assert(m.drop_first() =~= ds);
}

} // verus!
