//! The boundary between C strings and text: reading the bytes behind a
//! `const char*` as characters, and turning characters back into the bytes
//! of a NUL-terminated string.
use vstd::prelude::*;
use vstd::utf8::*;

verus! {

broadcast use vstd::seq::group_seq_axioms;

/// What `String::from_utf8_lossy` makes of a byte sequence.
pub uninterp spec fn lossy_utf8(bytes: Seq<u8>) -> Seq<char>;

/// Decodes bytes as UTF-8, replacing each invalid sequence by U+FFFD.
/// Trusted: calls `String::from_utf8_lossy`. Its result is named by
/// `lossy_utf8`; the one further fact stated is the documented one, that a
/// valid UTF-8 sequence decodes to exactly the characters it encodes.
#[verifier::external_body]
pub(crate) fn decode_lossy(bytes: &[u8]) -> (r: Vec<char>)
    ensures
        r@ == lossy_utf8(bytes@),
        valid_utf8(bytes@) ==> r@ == decode_utf8(bytes@),
{
    String::from_utf8_lossy(bytes).chars().collect()
}

/// The characters that lenient decoding gives for `bytes`: the characters
/// they encode when they are valid UTF-8, else what `lossy_utf8` names.
pub open spec fn decoded(bytes: Seq<u8>) -> Seq<char> {
    if valid_utf8(bytes) {
        decode_utf8(bytes)
    } else {
        lossy_utf8(bytes)
    }
}

/// The characters a runtime function reads from a string argument: nothing
/// for a null pointer, otherwise the lenient UTF-8 decoding of its bytes.
pub open spec fn text_of(s: Option<&[u8]>) -> Seq<char> {
    match s {
        Some(b) => decoded(b@),
        None => Seq::empty(),
    }
}

/// The bytes a C string keeps of `s`: everything before the first NUL.
pub open spec fn until_nul(s: Seq<u8>) -> Seq<u8>
    decreases s.len(),
{
    if s.len() == 0 {
        s
    } else if s[0] == 0 {
        Seq::empty()
    } else {
        seq![s[0]] + until_nul(s.drop_first())
    }
}

/// The bytes of the C string that the runtime returns for the text `cs`:
/// its UTF-8 encoding, cut at the first NUL.
pub open spec fn c_text(cs: Seq<char>) -> Seq<u8> {
    until_nul(encode_utf8(cs))
}

/// Encoding distributes over concatenation.
pub proof fn lemma_encode_concat(a: Seq<char>, b: Seq<char>)
    ensures
        encode_utf8(a + b) == encode_utf8(a) + encode_utf8(b),
    decreases a.len(),
{
    if a.len() == 0 {
        assert(a + b =~= b);
    } else {
        assert((a + b).drop_first() =~= a.drop_first() + b);
        lemma_encode_concat(a.drop_first(), b);
    }
}

/// The encoding of a single character.
pub proof fn lemma_encode_single(c: char)
    ensures
        encode_utf8(seq![c]) == encode_scalar(c as u32),
{
    reveal_with_fuel(encode_utf8, 2);
    assert(seq![c].drop_first() =~= Seq::<char>::empty());
    assert(encode_scalar(c as u32) + Seq::<u8>::empty() =~= encode_scalar(c as u32));
}

/// Cutting at the first NUL distributes over a prefix free of NUL.
pub proof fn lemma_until_nul_concat(a: Seq<u8>, b: Seq<u8>)
    requires
        forall|i: int| 0 <= i < a.len() ==> a[i] != 0,
    ensures
        until_nul(a + b) == a + until_nul(b),
    decreases a.len(),
{
    if a.len() == 0 {
        assert(a + b =~= b);
        assert(a + until_nul(b) =~= until_nul(b));
    } else {
        assert((a + b).drop_first() =~= a.drop_first() + b);
        lemma_until_nul_concat(a.drop_first(), b);
        assert(seq![a[0]] + (a.drop_first() + until_nul(b)) =~= a + until_nul(b));
    }
}

/// A sequence free of NUL is kept whole.
pub proof fn lemma_until_nul_no_nul(a: Seq<u8>)
    requires
        forall|i: int| 0 <= i < a.len() ==> a[i] != 0,
    ensures
        until_nul(a) == a,
{
    lemma_until_nul_concat(a, Seq::empty());
    assert(a + Seq::<u8>::empty() =~= a);
}

/// The UTF-8 bytes of one character.
fn encode_char(c: char, out: &mut Vec<u8>)
    ensures
        final(out)@ == old(out)@ + encode_scalar(c as u32),
{
    let u = c as u32;
    proof {
        char_is_scalar(c);
    }
    if u <= 0x7F {
        out.push((u & 0x7F) as u8);
        assert(out@ =~= old(out)@ + encode_scalar(c as u32));
    } else if u <= 0x7FF {
        out.push(0xC0u8 | ((u >> 6) & 0x1F) as u8);
        out.push(0x80u8 | (u & 0x3F) as u8);
        assert(out@ =~= old(out)@ + encode_scalar(c as u32));
    } else if u <= 0xFFFF {
        out.push(0xE0u8 | ((u >> 12) & 0x0F) as u8);
        out.push(0x80u8 | ((u >> 6) & 0x3F) as u8);
        out.push(0x80u8 | (u & 0x3F) as u8);
        assert(out@ =~= old(out)@ + encode_scalar(c as u32));
    } else {
        out.push(0xF0u8 | ((u >> 18) & 0x7) as u8);
        out.push(0x80u8 | ((u >> 12) & 0x3F) as u8);
        out.push(0x80u8 | ((u >> 6) & 0x3F) as u8);
        out.push(0x80u8 | (u & 0x3F) as u8);
        assert(out@ =~= old(out)@ + encode_scalar(c as u32));
    }
}

/// The UTF-8 encoding of a character sequence.
pub fn encode_chars(cs: &[char]) -> (r: Vec<u8>)
    ensures
        r@ == encode_utf8(cs@),
{
    let mut out: Vec<u8> = Vec::new();
    let mut i: usize = 0;
    while i < cs.len()
        invariant
            i <= cs@.len(),
            out@ == encode_utf8(cs@.take(i as int)),
        decreases cs@.len() - i,
    {
        let c = cs[i];
        encode_char(c, &mut out);
        proof {
            lemma_encode_concat(cs@.take(i as int), seq![c]);
            lemma_encode_single(c);
            assert(cs@.take(i as int) + seq![c] =~= cs@.take(i + 1));
        }
        i = i + 1;
    }
    assert(cs@.take(cs@.len() as int) =~= cs@);
    out
}

/// The contents of the C string made from `bytes`: the bytes before the
/// first NUL, or all of them when there is none.
pub fn cstring_contents(bytes: &[u8]) -> (r: Vec<u8>)
    ensures
        r@ == until_nul(bytes@),
{
    let mut out: Vec<u8> = Vec::new();
    let mut i: usize = 0;
    while i < bytes.len()
        invariant
            i <= bytes@.len(),
            out@ == bytes@.take(i as int),
            forall|j: int| 0 <= j < i ==> bytes@[j] != 0,
        ensures
            i <= bytes@.len(),
            out@ == bytes@.take(i as int),
            forall|j: int| 0 <= j < i ==> bytes@[j] != 0,
            i < bytes@.len() ==> bytes@[i as int] == 0,
        decreases bytes@.len() - i,
    {
        if bytes[i] == 0 {
            break;
        }
        out.push(bytes[i]);
        i = i + 1;
        assert(out@ =~= bytes@.take(i as int));
    }
    proof {
        let pre = bytes@.take(i as int);
        let rest = bytes@.skip(i as int);
        assert(pre + rest =~= bytes@);
        lemma_until_nul_concat(pre, rest);
        if i < bytes@.len() {
            assert(rest[0] == 0);
            assert(until_nul(rest) =~= Seq::<u8>::empty());
        } else {
            assert(rest =~= Seq::<u8>::empty());
        }
        assert(pre + Seq::<u8>::empty() =~= pre);
    }
    out
}

/// The bytes of the C string the runtime returns for the text `cs`.
pub fn c_text_bytes(cs: &[char]) -> (r: Vec<u8>)
    ensures
        r@ == c_text(cs@),
{
    let enc = encode_chars(cs);
    cstring_contents(enc.as_slice())
}

/// Reads a string argument: a null pointer reads as the empty string, any
/// other as the lossy UTF-8 decoding of the bytes before its NUL.
pub fn read_str(s: Option<&[u8]>) -> (r: Vec<char>)
    ensures
        r@ == text_of(s),
{
    match s {
        Some(b) => decode_lossy(b),
        None => Vec::new(),
    }
}

/// The characters before the first `'\0'`.
pub open spec fn chars_until_nul(cs: Seq<char>) -> Seq<char>
    decreases cs.len(),
{
    if cs.len() == 0 {
        cs
    } else if cs[0] == '\0' {
        Seq::empty()
    } else {
        seq![cs[0]] + chars_until_nul(cs.drop_first())
    }
}

/// Only the character U+0000 encodes to a zero byte.
proof fn lemma_scalar_bytes_nonzero(c: char)
    requires
        c != '\0',
    ensures
        forall|i: int|
            0 <= i < encode_scalar(c as u32).len() ==> #[trigger] encode_scalar(c as u32)[i] != 0,
{
    let u = c as u32;
    char_is_scalar(c);
    assert(u != 0);
    if has_width_1_encoding(u) {
        assert((u & 0x7F) as u8 != 0) by (bit_vector)
            requires
                1 <= u <= 0x7F,
        ;
    } else {
        assert(0x80u8 | (u & 0x3F) as u8 != 0) by (bit_vector);
        assert(0x80u8 | ((u >> 6) & 0x3F) as u8 != 0) by (bit_vector);
        assert(0x80u8 | ((u >> 12) & 0x3F) as u8 != 0) by (bit_vector);
        assert(0xC0u8 | ((u >> 6) & 0x1F) as u8 != 0) by (bit_vector);
        assert(0xE0u8 | ((u >> 12) & 0x0F) as u8 != 0) by (bit_vector);
        assert(0xF0u8 | ((u >> 18) & 0x7) as u8 != 0) by (bit_vector);
    }
}

proof fn lemma_c_text_chars(cs: Seq<char>)
    ensures
        c_text(cs) == encode_utf8(chars_until_nul(cs)),
    decreases cs.len(),
{
    reveal_with_fuel(encode_utf8, 2);
    if cs.len() == 0 {
    } else {
        let rest = cs.drop_first();
        let first = encode_scalar(cs[0] as u32);
        assert(encode_utf8(cs) == first + encode_utf8(rest));
        if cs[0] == '\0' {
            let z = cs[0] as u32;
            assert(z == 0);
            assert((z & 0x7F) as u8 == 0) by (bit_vector)
                requires
                    z == 0,
            ;
            assert(first[0] == 0);
            assert((first + encode_utf8(rest))[0] == 0);
            assert(encode_utf8(Seq::<char>::empty()) =~= Seq::<u8>::empty());
        } else {
            lemma_scalar_bytes_nonzero(cs[0]);
            lemma_until_nul_concat(first, encode_utf8(rest));
            lemma_c_text_chars(rest);
            lemma_encode_concat(seq![cs[0]], chars_until_nul(rest));
            lemma_encode_single(cs[0]);
        }
    }
}

/// Every C string the runtime makes of a text is valid UTF-8: cutting at
/// the first NUL byte never splits a character.
pub proof fn law_c_text_is_utf8(cs: Seq<char>)
    ensures
        valid_utf8(c_text(cs)),
        c_text(cs) == encode_utf8(chars_until_nul(cs)),
{
    lemma_c_text_chars(cs);
    encode_utf8_valid_utf8(chars_until_nul(cs));
}

} // verus!
