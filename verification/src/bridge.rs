//! Helpers shared by the browser bridge.
use vstd::prelude::*;
use vstd::utf8::*;
use crate::cstr::encode_chars;
use crate::number::{digit_char, digit_to_char};

verus! {

/// The integer the bridge hands back for a JavaScript truth value:
/// `1` for any non-zero input and `0` for zero.
pub fn as_bool(v: i64) -> (r: i64)
    ensures
        r == (if v != 0 { 1i64 } else { 0i64 }),
{
    if v != 0 {
        1
    } else {
        0
    }
}

/// `s` with every NUL byte removed.
pub open spec fn drop_nuls(s: Seq<u8>) -> Seq<u8>
    decreases s.len(),
{
    if s.len() == 0 {
        s
    } else if s.last() == 0 {
        drop_nuls(s.drop_last())
    } else {
        drop_nuls(s.drop_last()).push(s.last())
    }
}

/// The bytes of the C string the bridge makes of a text: all of it but its
/// NUL bytes.
pub fn without_nuls(s: &[u8]) -> (r: Vec<u8>)
    ensures
        r@ == drop_nuls(s@),
{
    let mut out: Vec<u8> = Vec::new();
    let mut i: usize = 0;
    while i < s.len()
        invariant
            i <= s@.len(),
            out@ == drop_nuls(s@.take(i as int)),
        decreases s@.len() - i,
    {
        assert(s@.take(i + 1).drop_last() =~= s@.take(i as int));
        if s[i] != 0 {
            out.push(s[i]);
        }
        i = i + 1;
    }
    assert(s@.take(s@.len() as int) =~= s@);
    out
}

/// What the bridge hands out never holds a NUL byte, so it is a whole C
/// string.
pub proof fn law_without_nuls_has_none(s: Seq<u8>)
    ensures
        forall|i: int| 0 <= i < drop_nuls(s).len() ==> drop_nuls(s)[i] != 0,
    decreases s.len(),
{
    if s.len() > 0 {
        law_without_nuls_has_none(s.drop_last());
        let d = drop_nuls(s.drop_last());
        if s.last() != 0 {
            assert forall|i: int| 0 <= i < d.push(s.last()).len() implies d.push(s.last())[i]
                != 0 by {
                if i < d.len() {
                    assert(d.push(s.last())[i] == d[i]);
                }
            }
        }
    }
}

/// Each byte as two lower-case hexadecimal digits, high nibble first.
pub open spec fn hex_of_bytes(bs: Seq<u8>) -> Seq<char>
    decreases bs.len(),
{
    if bs.len() == 0 {
        Seq::empty()
    } else {
        hex_of_bytes(bs.drop_last()) + seq![
            digit_char((bs.last() / 16) as u64),
            digit_char((bs.last() % 16) as u64),
        ]
    }
}

proof fn lemma_hex_len(bs: Seq<u8>)
    ensures
        hex_of_bytes(bs).len() == 2 * bs.len(),
    decreases bs.len(),
{
    if bs.len() > 0 {
        lemma_hex_len(bs.drop_last());
    }
}

/// The two hexadecimal digits written for the byte at `k`.
proof fn lemma_hex_at(bs: Seq<u8>, k: int)
    requires
        0 <= k < bs.len(),
    ensures
        hex_of_bytes(bs).len() == 2 * bs.len(),
        hex_of_bytes(bs)[2 * k] == digit_char((bs[k] / 16) as u64),
        hex_of_bytes(bs)[2 * k + 1] == digit_char((bs[k] % 16) as u64),
    decreases bs.len(),
{
    lemma_hex_len(bs);
    lemma_hex_len(bs.drop_last());
    if k < bs.len() - 1 {
        lemma_hex_at(bs.drop_last(), k);
    }
}

/// Each byte as two lower-case hexadecimal digits.
fn hex_chars(bytes: &[u8]) -> (r: Vec<char>)
    ensures
        r@ == hex_of_bytes(bytes@),
{
    let mut out: Vec<char> = Vec::new();
    let mut i: usize = 0;
    while i < bytes.len()
        invariant
            i <= bytes@.len(),
            out@ == hex_of_bytes(bytes@.take(i as int)),
        decreases bytes@.len() - i,
    {
        let b = bytes[i];
        let ghost before = out@;
        out.push(digit_to_char((b / 16) as u64));
        out.push(digit_to_char((b % 16) as u64));
        assert(bytes@.take(i + 1).drop_last() =~= bytes@.take(i as int));
        assert(out@ =~= hex_of_bytes(bytes@.take(i + 1)));
        i = i + 1;
    }
    assert(bytes@.take(bytes@.len() as int) =~= bytes@);
    out
}

/// The text `hweb_random_hex` writes for the random bytes it drew: each as
/// two lower-case hexadecimal digits.
pub fn hweb_random_hex(bytes: &[u8]) -> (r: Vec<u8>)
    ensures
        r@ == drop_nuls(encode_utf8(hex_of_bytes(bytes@))),
{
    let h = hex_chars(bytes);
    let e = encode_chars(h.as_slice());
    without_nuls(e.as_slice())
}

/// The random bytes of a version-4 UUID: the high nibble of byte 6 set to
/// 4 and the two top bits of byte 8 to `10`.
pub open spec fn uuid_bytes(bs: Seq<u8>) -> Seq<u8> {
    bs.update(6, (bs[6] & 0x0f) | 0x40).update(8, (bs[8] & 0x3f) | 0x80)
}

/// The UUID text: 32 hexadecimal digits in groups of 8, 4, 4, 4 and 12,
/// joined by `-`.
pub open spec fn uuid_text(bs: Seq<u8>) -> Seq<char> {
    let h = hex_of_bytes(uuid_bytes(bs));
    h.subrange(0, 8) + seq!['-'] + h.subrange(8, 12) + seq!['-'] + h.subrange(12, 16) + seq![
        '-',
    ] + h.subrange(16, 20) + seq!['-'] + h.subrange(20, 32)
}

/// Appends `src[a..b]` to `out`.
fn push_range(out: &mut Vec<char>, src: &[char], a: usize, b: usize)
    requires
        a <= b <= src@.len(),
    ensures
        final(out)@ == old(out)@ + src@.subrange(a as int, b as int),
{
    let mut i = a;
    while i < b
        invariant
            a <= i <= b <= src@.len(),
            out@ == old(out)@ + src@.subrange(a as int, i as int),
        decreases b - i,
    {
        out.push(src[i]);
        i = i + 1;
        assert(out@ =~= old(out)@ + src@.subrange(a as int, i as int));
    }
}

/// The text `hweb_random_uuid_v4` writes for the sixteen random bytes it
/// drew.
pub fn hweb_random_uuid_v4(bytes: &[u8]) -> (r: Vec<u8>)
    requires
        bytes@.len() == 16,
    ensures
        r@ == drop_nuls(encode_utf8(uuid_text(bytes@))),
{
    let mut bs: Vec<u8> = Vec::new();
    let mut i: usize = 0;
    while i < 16
        invariant
            i <= 16,
            bytes@.len() == 16,
            bs@ == bytes@.take(i as int),
        decreases 16 - i,
    {
        bs.push(bytes[i]);
        i = i + 1;
        assert(bs@ =~= bytes@.take(i as int));
    }
    assert(bs@ =~= bytes@);
    let b6 = (bs[6] & 0x0f) | 0x40;
    bs.set(6, b6);
    let b8 = (bs[8] & 0x3f) | 0x80;
    bs.set(8, b8);
    assert(bs@ =~= uuid_bytes(bytes@));
    let h = hex_chars(bs.as_slice());
    proof {
        lemma_hex_len(bs@);
    }
    let mut t: Vec<char> = Vec::new();
    push_range(&mut t, h.as_slice(), 0, 8);
    t.push('-');
    push_range(&mut t, h.as_slice(), 8, 12);
    t.push('-');
    push_range(&mut t, h.as_slice(), 12, 16);
    t.push('-');
    push_range(&mut t, h.as_slice(), 16, 20);
    t.push('-');
    push_range(&mut t, h.as_slice(), 20, 32);
    assert(t@ =~= uuid_text(bytes@));
    let e = encode_chars(t.as_slice());
    without_nuls(e.as_slice())
}

/// Whatever bytes were drawn, the UUID text has 36 characters, `-` at
/// positions 8, 13, 18 and 23, the version digit `4` at position 14 and
/// one of `8`, `9`, `a`, `b` at position 19.
pub proof fn law_uuid_shape(bs: Seq<u8>)
    requires
        bs.len() == 16,
    ensures
        uuid_text(bs).len() == 36,
        uuid_text(bs)[8] == '-' && uuid_text(bs)[13] == '-' && uuid_text(bs)[18] == '-'
            && uuid_text(bs)[23] == '-',
        uuid_text(bs)[14] == '4',
        uuid_text(bs)[19] == '8' || uuid_text(bs)[19] == '9' || uuid_text(bs)[19] == 'a'
            || uuid_text(bs)[19] == 'b',
{
    let u = uuid_bytes(bs);
    let h = hex_of_bytes(u);
    lemma_hex_len(u);
    lemma_hex_at(u, 6);
    lemma_hex_at(u, 8);
    let b6 = bs[6];
    let b8 = bs[8];
    assert(((b6 & 0x0f) | 0x40) / 16 == 4) by (bit_vector);
    let v = ((b8 & 0x3f) | 0x80) / 16;
    assert(8 <= v <= 11) by (bit_vector)
        requires
            v == ((b8 & 0x3f) | 0x80) / 16,
    ;
    let t = uuid_text(bs);
    assert(t[14] == h[12]);
    assert(t[19] == h[16]);
}

} // verus!
