//! String functions over characters: the bytes of each argument are read
//! leniently as UTF-8 and the result is handed back as a C string.
use vstd::prelude::*;
use vstd::utf8::*;
use crate::cstr::{c_text, c_text_bytes, encode_chars, lemma_encode_concat, read_str, text_of};

verus! {

broadcast use vstd::seq::group_seq_axioms;

/// The characters that `hsh_trim` and `hsh_string_trim_right` strip: space,
/// tab, newline and carriage return.
pub open spec fn is_c_space(c: char) -> bool {
    c == ' ' || c == '\t' || c == '\n' || c == '\r'
}

/// Unicode's `White_Space` property, by which `str::trim` and
/// `split_whitespace` go.
pub open spec fn is_white_space(c: char) -> bool {
    let u = c as u32;
    ||| 0x09 <= u <= 0x0D
    ||| u == 0x20
    ||| u == 0x85
    ||| u == 0xA0
    ||| u == 0x1680
    ||| 0x2000 <= u <= 0x200A
    ||| u == 0x2028
    ||| u == 0x2029
    ||| u == 0x202F
    ||| u == 0x205F
    ||| u == 0x3000
}

/// The characters a trim removes: Unicode white space, or the C set.
pub open spec fn strips(unicode: bool, c: char) -> bool {
    if unicode {
        is_white_space(c)
    } else {
        is_c_space(c)
    }
}

/// `cs` without its leading stripped characters.
pub open spec fn trim_start(cs: Seq<char>, unicode: bool) -> Seq<char>
    decreases cs.len(),
{
    if cs.len() > 0 && strips(unicode, cs[0]) {
        trim_start(cs.drop_first(), unicode)
    } else {
        cs
    }
}

/// `cs` without its trailing stripped characters.
pub open spec fn trim_end(cs: Seq<char>, unicode: bool) -> Seq<char>
    decreases cs.len(),
{
    if cs.len() > 0 && strips(unicode, cs.last()) {
        trim_end(cs.drop_last(), unicode)
    } else {
        cs
    }
}

/// `cs` without stripped characters at either end.
pub open spec fn trim_both(cs: Seq<char>, unicode: bool) -> Seq<char> {
    trim_end(trim_start(cs, unicode), unicode)
}

/// Whether `c` is one of the C trim characters.
pub fn c_space(c: char) -> (r: bool)
    ensures
        r == is_c_space(c),
{
    c == ' ' || c == '\t' || c == '\n' || c == '\r'
}

/// Whether `c` has Unicode's `White_Space` property.
pub fn white_space(c: char) -> (r: bool)
    ensures
        r == is_white_space(c),
{
    let u = c as u32;
    (0x09 <= u && u <= 0x0D) || u == 0x20 || u == 0x85 || u == 0xA0 || u == 0x1680 || (0x2000
        <= u && u <= 0x200A) || u == 0x2028 || u == 0x2029 || u == 0x202F || u == 0x205F || u
        == 0x3000
}

fn stripped(unicode: bool, c: char) -> (r: bool)
    ensures
        r == strips(unicode, c),
{
    if unicode {
        white_space(c)
    } else {
        c_space(c)
    }
}

/// Trimming the start of a suffix that begins with a stripped character.
proof fn lemma_trim_start_step(cs: Seq<char>, i: int, unicode: bool)
    requires
        0 <= i < cs.len(),
        strips(unicode, cs[i]),
    ensures
        trim_start(cs.subrange(i, cs.len() as int), unicode) == trim_start(
            cs.subrange(i + 1, cs.len() as int),
            unicode,
        ),
{
    assert(cs.subrange(i, cs.len() as int).drop_first() =~= cs.subrange(i + 1, cs.len() as int));
}

/// Trimming the end of a prefix that ends with a stripped character.
proof fn lemma_trim_end_step(cs: Seq<char>, i: int, j: int, unicode: bool)
    requires
        0 <= i < j <= cs.len(),
        strips(unicode, cs[j - 1]),
    ensures
        trim_end(cs.subrange(i, j), unicode) == trim_end(cs.subrange(i, j - 1), unicode),
{
    assert(cs.subrange(i, j).drop_last() =~= cs.subrange(i, j - 1));
}

/// The characters of `cs` that survive a trim of the chosen ends.
pub fn trim_chars(cs: &[char], unicode: bool, start: bool, end: bool) -> (r: Vec<char>)
    ensures
        r@ == (if start {
            if end {
                trim_both(cs@, unicode)
            } else {
                trim_start(cs@, unicode)
            }
        } else {
            if end {
                trim_end(cs@, unicode)
            } else {
                cs@
            }
        }),
{
    let n = cs.len();
    let mut i: usize = 0;
    assert(cs@.subrange(0, n as int) =~= cs@);
    if start {
        while i < n && stripped(unicode, cs[i])
            invariant
                n == cs@.len(),
                i <= n,
                trim_start(cs@, unicode) == trim_start(cs@.subrange(i as int, n as int), unicode),
            decreases n - i,
        {
            proof {
                lemma_trim_start_step(cs@, i as int, unicode);
            }
            i = i + 1;
        }
    }
    let ghost mid = cs@.subrange(i as int, n as int);
    assert(start ==> trim_start(mid, unicode) == mid) by {
        if start && i < n {
            assert(mid[0] == cs@[i as int]);
        }
    }
    let mut j: usize = n;
    if end {
        while j > i && stripped(unicode, cs[j - 1])
            invariant
                n == cs@.len(),
                i <= j <= n,
                mid == cs@.subrange(i as int, n as int),
                trim_end(mid, unicode) == trim_end(cs@.subrange(i as int, j as int), unicode),
            decreases j,
        {
            proof {
                lemma_trim_end_step(cs@, i as int, j as int, unicode);
            }
            j = j - 1;
        }
    }
    let ghost kept = cs@.subrange(i as int, j as int);
    assert(!end ==> j == n);
    assert(end ==> trim_end(kept, unicode) == kept) by {
        if j > i {
            assert(kept.last() == cs@[j - 1]);
        }
    }
    let mut out: Vec<char> = Vec::new();
    let mut k: usize = i;
    while k < j
        invariant
            i <= k <= j <= n,
            n == cs@.len(),
            out@ == cs@.subrange(i as int, k as int),
        decreases j - k,
    {
        out.push(cs[k]);
        k = k + 1;
        assert(out@ =~= cs@.subrange(i as int, k as int));
    }
    proof {
        if !start {
            assert(i == 0);
            assert(mid =~= cs@);
        }
        if !end {
            assert(kept =~= mid);
        }
    }
    out
}

/// The text of `s` without spaces, tabs, newlines or carriage returns at
/// either end.
pub fn hsh_trim(s: Option<&[u8]>) -> (r: Vec<u8>)
    ensures
        r@ == c_text(trim_both(text_of(s), false)),
{
    let t = read_str(s);
    let k = trim_chars(t.as_slice(), false, true, true);
    c_text_bytes(k.as_slice())
}

/// The text of `s` without spaces, tabs, newlines or carriage returns at
/// its end.
pub fn hsh_string_trim_right(s: Option<&[u8]>) -> (r: Vec<u8>)
    ensures
        r@ == c_text(trim_end(text_of(s), false)),
{
    let t = read_str(s);
    let k = trim_chars(t.as_slice(), false, false, true);
    c_text_bytes(k.as_slice())
}

/// `needle` occurs in `hay` starting at position `i`.
pub open spec fn occurs_in<A>(hay: Seq<A>, needle: Seq<A>, i: int) -> bool {
    &&& 0 <= i
    &&& i + needle.len() <= hay.len()
    &&& hay.subrange(i, i + needle.len()) == needle
}

/// `needle` occurs somewhere in `hay`.
pub open spec fn has_substring<A>(hay: Seq<A>, needle: Seq<A>) -> bool {
    exists|i: int| occurs_in(hay, needle, i)
}

/// Whether `needle` occurs in `hay` at position `i`.
pub fn chars_match_at(hay: &[char], needle: &[char], i: usize) -> (r: bool)
    requires
        i + needle@.len() <= hay@.len(),
    ensures
        r == occurs_in(hay@, needle@, i as int),
{
    let mut k: usize = 0;
    while k < needle.len()
        invariant
            i + needle@.len() <= hay@.len(),
            hay@.len() == hay.len(),
            k <= needle@.len(),
            forall|t: int| 0 <= t < k ==> hay@[i + t] == needle@[t],
        decreases needle@.len() - k,
    {
        if hay[i + k] != needle[k] {
            assert(hay@.subrange(i as int, i + needle@.len())[k as int] != needle@[k as int]);
            return false;
        }
        k = k + 1;
    }
    assert(hay@.subrange(i as int, i + needle@.len()) =~= needle@);
    true
}

/// Whether `needle` occurs anywhere in `hay`.
pub fn chars_contain(hay: &[char], needle: &[char]) -> (r: bool)
    ensures
        r == has_substring(hay@, needle@),
{
    if needle.len() > hay.len() {
        assert forall|i: int| !occurs_in(hay@, needle@, i) by {}
        return false;
    }
    let last = hay.len() - needle.len();
    let mut i: usize = 0;
    while i <= last
        invariant
            last == hay@.len() - needle@.len(),
            forall|j: int| 0 <= j < i ==> !occurs_in(hay@, needle@, j),
        decreases last + 1 - i,
    {
        if chars_match_at(hay, needle, i) {
            return true;
        }
        if i == last {
            assert forall|j: int| !occurs_in(hay@, needle@, j) by {}
            return false;
        }
        i = i + 1;
    }
    false
}

/// Both strings are present (not null).
pub open spec fn both_present(a: Option<&[u8]>, b: Option<&[u8]>) -> bool {
    a is Some && b is Some
}

/// The truth value as the runtime's integer: 1 or 0.
pub open spec fn flag(b: bool) -> i64 {
    if b {
        1
    } else {
        0
    }
}

/// 1 when the text of `n` occurs in the text of `h` (an empty `n` occurs
/// everywhere), 0 otherwise or when either string is null.
pub fn hsh_str_contains(h: Option<&[u8]>, n: Option<&[u8]>) -> (r: i64)
    ensures
        r == flag(both_present(h, n) && has_substring(text_of(h), text_of(n))),
{
    if h.is_none() || n.is_none() {
        return 0;
    }
    let ht = read_str(h);
    let nt = read_str(n);
    if chars_contain(ht.as_slice(), nt.as_slice()) {
        1
    } else {
        0
    }
}

/// 1 when the text of `s` begins with the text of `prefix`, 0 otherwise or
/// when either string is null.
pub fn hsh_starts_with(s: Option<&[u8]>, prefix: Option<&[u8]>) -> (r: i64)
    ensures
        r == flag(both_present(s, prefix) && occurs_in(text_of(s), text_of(prefix), 0)),
{
    if s.is_none() || prefix.is_none() {
        return 0;
    }
    let st = read_str(s);
    let pt = read_str(prefix);
    if pt.len() <= st.len() && chars_match_at(st.as_slice(), pt.as_slice(), 0) {
        1
    } else {
        0
    }
}

/// 1 when the text of `s` ends with the text of `suffix`, 0 otherwise or
/// when either string is null.
pub fn hsh_ends_with(s: Option<&[u8]>, suffix: Option<&[u8]>) -> (r: i64)
    ensures
        r == flag(
            both_present(s, suffix) && occurs_in(
                text_of(s),
                text_of(suffix),
                text_of(s).len() - text_of(suffix).len(),
            ),
        ),
{
    if s.is_none() || suffix.is_none() {
        return 0;
    }
    let st = read_str(s);
    let xt = read_str(suffix);
    if xt.len() <= st.len() && chars_match_at(st.as_slice(), xt.as_slice(), st.len() - xt.len()) {
        1
    } else {
        0
    }
}

/// The texts of `a` and `b` joined.
pub fn hsh_strcat(a: Option<&[u8]>, b: Option<&[u8]>) -> (r: Vec<u8>)
    ensures
        r@ == c_text(text_of(a) + text_of(b)),
{
    let mut t = read_str(a);
    let mut u = read_str(b);
    let ghost t0 = t@;
    t.append(&mut u);
    assert(t@ == t0 + text_of(b));
    c_text_bytes(t.as_slice())
}

/// The UTF-8 bytes of `prefix` followed by the text of `msg`.
fn prefixed_message(prefix: &str, msg: Option<&[u8]>) -> (r: Vec<u8>)
    ensures
        r@ == encode_utf8(prefix@ + text_of(msg)),
{
    let pb = prefix.as_bytes();
    let mut out: Vec<u8> = Vec::new();
    let mut i: usize = 0;
    while i < pb.len()
        invariant
            i <= pb@.len(),
            out@ == pb@.take(i as int),
        decreases pb@.len() - i,
    {
        out.push(pb[i]);
        i = i + 1;
        assert(out@ =~= pb@.take(i as int));
    }
    assert(pb@.take(pb@.len() as int) =~= pb@);
    let t = read_str(msg);
    let mut tail = encode_chars(t.as_slice());
    out.append(&mut tail);
    proof {
        lemma_encode_concat(prefix@, text_of(msg));
    }
    out
}

/// The line written before the program stops on a failed assertion, or
/// nothing when `cond` holds (is non-zero).
pub fn hsh_assert(cond: i8, msg: Option<&[u8]>) -> (r: Option<Vec<u8>>)
    ensures
        cond != 0 ==> r is None,
        cond == 0 ==> (r matches Some(m) && m@ == encode_utf8(
            "assertion failed: "@ + text_of(msg),
        )),
{
    if cond == 0 {
        Some(prefixed_message("assertion failed: ", msg))
    } else {
        None
    }
}

/// The line written before the program stops on a panic.
pub fn hsh_panic(msg: Option<&[u8]>) -> (r: Vec<u8>)
    ensures
        r@ == encode_utf8("panic: "@ + text_of(msg)),
{
    prefixed_message("panic: ", msg)
}

/// `s` with every occurrence of a non-empty `from`, taken from the left
/// without overlaps, replaced by `to`.
pub open spec fn replaced(s: Seq<char>, from: Seq<char>, to: Seq<char>) -> Seq<char>
    decreases s.len(),
{
    if from.len() == 0 || s.len() < from.len() {
        s
    } else if s.subrange(0, from.len() as int) == from {
        to + replaced(s.skip(from.len() as int), from, to)
    } else {
        seq![s[0]] + replaced(s.drop_first(), from, to)
    }
}

/// What `str::replace` gives: `s` itself for an empty `from`.
#[verifier::spinoff_prover]
#[verifier::rlimit(40)]
pub fn replace_chars(s: &[char], from: &[char], to: &[char]) -> (r: Vec<char>)
    ensures
        r@ == replaced(s@, from@, to@),
{
    let n = s.len();
    let m = from.len();
    let mut out: Vec<char> = Vec::new();
    let mut i: usize = 0;
    assert(s@.skip(0) =~= s@);
    assert(out@ + replaced(s@, from@, to@) =~= replaced(s@, from@, to@));
    while i < n
        invariant
            n == s@.len(),
            m == from@.len(),
            i <= n,
            replaced(s@, from@, to@) == out@ + replaced(s@.skip(i as int), from@, to@),
        decreases n - i,
    {
        let ghost rest = s@.skip(i as int);
        if m > 0 && m <= n - i && chars_match_at(s, from, i) {
            assert(rest.subrange(0, m as int) =~= s@.subrange(i as int, i + m));
            assert(rest.skip(m as int) =~= s@.skip(i + m));
            let ghost before = out@;
            let mut k: usize = 0;
            while k < to.len()
                invariant
                    k <= to@.len(),
                    out@ == before + to@.take(k as int),
                decreases to@.len() - k,
            {
                out.push(to[k]);
                k = k + 1;
                assert(out@ =~= before + to@.take(k as int));
            }
            assert(to@.take(to@.len() as int) =~= to@);
            assert(out@ == before + to@);
            assert(replaced(rest, from@, to@) == to@ + replaced(s@.skip(i + m), from@, to@));
            assert(before + (to@ + replaced(s@.skip(i + m), from@, to@)) =~= out@ + replaced(
                s@.skip(i + m),
                from@,
                to@,
            ));
            i = i + m;
        } else {
            let ghost before = out@;
            out.push(s[i]);
            assert(rest.drop_first() =~= s@.skip(i + 1));
            proof {
                if m == 0 || rest.len() < m {
                    assert(replaced(rest, from@, to@) == rest);
                    assert(replaced(s@.skip(i + 1), from@, to@) == s@.skip(i + 1));
                    assert(rest =~= seq![s@[i as int]] + s@.skip(i + 1));
                } else {
                    assert(rest.subrange(0, m as int) =~= s@.subrange(i as int, i + m));
                    assert(replaced(rest, from@, to@) == seq![rest[0]] + replaced(
                        rest.drop_first(),
                        from@,
                        to@,
                    ));
                }
            }
            assert(before + (seq![s@[i as int]] + replaced(s@.skip(i + 1), from@, to@))
                =~= out@ + replaced(s@.skip(i + 1), from@, to@));
            i = i + 1;
        }
    }
    assert(s@.skip(n as int) =~= Seq::<char>::empty());
    assert(out@ + Seq::<char>::empty() =~= out@);
    out
}

/// The text of `s` with each occurrence of the text of `from` replaced by
/// the text of `to`; unchanged when `from` is empty.
pub fn hsh_str_replace(s: Option<&[u8]>, from: Option<&[u8]>, to: Option<&[u8]>) -> (r: Vec<u8>)
    ensures
        r@ == c_text(replaced(text_of(s), text_of(from), text_of(to))),
{
    let st = read_str(s);
    let ft = read_str(from);
    let tt = read_str(to);
    let out = replace_chars(st.as_slice(), ft.as_slice(), tt.as_slice());
    c_text_bytes(out.as_slice())
}

/// `count` spaces.
pub open spec fn spaces(count: nat) -> Seq<char> {
    Seq::new(count, |i: int| ' ')
}

/// The target width of `hsh_string_pad_right`, as the machine's `usize`.
pub open spec fn pad_width(width: i64) -> usize {
    (if width < 0 {
        0
    } else {
        width
    }) as usize
}

/// `cs` padded with spaces on the right up to `w` characters.
pub open spec fn padded(cs: Seq<char>, w: int) -> Seq<char> {
    if cs.len() >= w {
        cs
    } else {
        cs + spaces((w - cs.len()) as nat)
    }
}

/// The text of `s`, with spaces added on the right until it has `width`
/// characters; longer texts are kept whole.
pub fn hsh_string_pad_right(s: Option<&[u8]>, width: i64) -> (r: Vec<u8>)
    ensures
        r@ == c_text(padded(text_of(s), pad_width(width) as int)),
{
    let mut t = read_str(s);
    let w: usize = (if width < 0 {
        0
    } else {
        width
    }) as usize;
    if t.len() < w {
        let ghost t0 = t@;
        let pad = w - t.len();
        let mut k: usize = 0;
        while k < pad
            invariant
                k <= pad,
                t@ == t0 + spaces(k as nat),
            decreases pad - k,
        {
            t.push(' ');
            k = k + 1;
            assert(t@ =~= t0 + spaces(k as nat));
        }
    }
    c_text_bytes(t.as_slice())
}

/// `cs` written `k` times in a row.
pub open spec fn repeated(cs: Seq<char>, k: nat) -> Seq<char>
    decreases k,
{
    if k == 0 {
        Seq::empty()
    } else {
        repeated(cs, (k - 1) as nat) + cs
    }
}

/// The text of `s` repeated `n` times (no times for a negative `n`).
pub fn hsh_string_repeat(s: Option<&[u8]>, n: i64) -> (r: Vec<u8>)
    ensures
        r@ == c_text(repeated(text_of(s), pad_width(n) as nat)),
{
    let t = read_str(s);
    let times: usize = (if n < 0 {
        0
    } else {
        n
    }) as usize;
    let mut out: Vec<char> = Vec::new();
    let mut k: usize = 0;
    while k < times
        invariant
            k <= times,
            out@ == repeated(t@, k as nat),
        decreases times - k,
    {
        let ghost before = out@;
        let mut j: usize = 0;
        while j < t.len()
            invariant
                j <= t@.len(),
                out@ == before + t@.take(j as int),
            decreases t@.len() - j,
        {
            out.push(t[j]);
            j = j + 1;
            assert(out@ =~= before + t@.take(j as int));
        }
        assert(t@.take(t@.len() as int) =~= t@);
        k = k + 1;
    }
    c_text_bytes(out.as_slice())
}

/// What `str::to_uppercase` makes of a text.
pub uninterp spec fn upper_text(cs: Seq<char>) -> Seq<char>;

/// What `str::to_lowercase` makes of a text.
pub uninterp spec fn lower_text(cs: Seq<char>) -> Seq<char>;

/// The upper-case form of a text, by Unicode's case mappings.
/// Trusted: calls `str::to_uppercase`; its result is named by `upper_text`.
#[verifier::external_body]
fn uppercase_chars(cs: &[char]) -> (r: Vec<char>)
    ensures
        r@ == upper_text(cs@),
{
    cs.iter().collect::<String>().to_uppercase().chars().collect()
}

/// The lower-case form of a text, by Unicode's case mappings.
/// Trusted: calls `str::to_lowercase`; its result is named by `lower_text`.
#[verifier::external_body]
fn lowercase_chars(cs: &[char]) -> (r: Vec<char>)
    ensures
        r@ == lower_text(cs@),
{
    cs.iter().collect::<String>().to_lowercase().chars().collect()
}

/// The text of `s` in upper case.
pub fn hsh_to_upper(s: Option<&[u8]>) -> (r: Vec<u8>)
    ensures
        r@ == c_text(upper_text(text_of(s))),
{
    let t = read_str(s);
    let u = uppercase_chars(t.as_slice());
    c_text_bytes(u.as_slice())
}

/// The text of `s` in lower case.
pub fn hsh_to_lower(s: Option<&[u8]>) -> (r: Vec<u8>)
    ensures
        r@ == c_text(lower_text(text_of(s))),
{
    let t = read_str(s);
    let u = lowercase_chars(t.as_slice());
    c_text_bytes(u.as_slice())
}

/// The same as `hsh_to_upper`.
pub fn hsh_string_upper(s: Option<&[u8]>) -> (r: Vec<u8>)
    ensures
        r@ == c_text(upper_text(text_of(s))),
{
    hsh_to_upper(s)
}

/// The same as `hsh_to_lower`.
pub fn hsh_string_lower(s: Option<&[u8]>) -> (r: Vec<u8>)
    ensures
        r@ == c_text(lower_text(text_of(s))),
{
    hsh_to_lower(s)
}

/// The code of the first character of the text of `s`, or 0 when it is
/// empty.
pub fn hsh_str_to_char_code(s: Option<&[u8]>) -> (r: i64)
    ensures
        r == (if text_of(s).len() == 0 {
            0
        } else {
            text_of(s)[0] as u32 as i64
        }),
{
    let t = read_str(s);
    if t.len() == 0 {
        0
    } else {
        t[0] as u32 as i64
    }
}

/// The character with the given code, when there is one.
/// Trusted: calls `char::from_u32`, which is documented to return a
/// character exactly for the Unicode scalar values (at most 0x10FFFF and
/// outside the surrogates 0xD800 to 0xDFFF), and that character's code is
/// the argument.
#[verifier::external_body]
fn char_from_code(code: u32) -> (r: Option<char>)
    ensures
        r is Some <==> is_scalar(code),
        r matches Some(c) ==> c as u32 == code,
{
    char::from_u32(code)
}

/// The character `hsh_char_code_to_str` stands for: the one with code
/// `code` (a negative code counting as 0, and only its low 32 bits
/// counting), or U+FFFD when there is no such character.
pub open spec fn char_for_code(code: i64, c: char) -> bool {
    let u = (if code < 0 {
        0
    } else {
        code
    }) as u32;
    if is_scalar(u) {
        c as u32 == u
    } else {
        c == '\u{FFFD}'
    }
}

/// The one-character string for a code; code 0 gives the empty string.
pub fn hsh_char_code_to_str(code: i64) -> (r: Vec<u8>)
    ensures
        exists|c: char| char_for_code(code, c) && r@ == c_text(seq![c]),
{
    let u: u32 = (if code < 0 {
        0
    } else {
        code
    }) as u32;
    let c = match char_from_code(u) {
        Some(c) => c,
        None => '\u{FFFD}',
    };
    let cs: Vec<char> = vec![c];
    assert(cs@ =~= seq![c]);
    assert(char_for_code(code, c));
    c_text_bytes(cs.as_slice())
}

/// The pieces of `s` between the occurrences of a non-empty `sep`, taken
/// from the left without overlaps, with `cur` put in front of the first.
pub open spec fn split_from(s: Seq<char>, sep: Seq<char>, cur: Seq<char>) -> Seq<Seq<char>>
    decreases s.len(),
{
    if sep.len() == 0 || s.len() < sep.len() {
        seq![cur + s]
    } else if s.subrange(0, sep.len() as int) == sep {
        seq![cur] + split_from(s.skip(sep.len() as int), sep, Seq::empty())
    } else {
        split_from(s.drop_first(), sep, cur.push(s[0]))
    }
}

/// The pieces of `s` between the occurrences of a non-empty `sep`.
pub open spec fn split_parts(s: Seq<char>, sep: Seq<char>) -> Seq<Seq<char>> {
    split_from(s, sep, Seq::empty())
}

/// The pieces joined again, with `sep` between each two.
pub open spec fn joined(parts: Seq<Seq<char>>, sep: Seq<char>) -> Seq<char>
    decreases parts.len(),
{
    if parts.len() == 0 {
        Seq::empty()
    } else if parts.len() == 1 {
        parts[0]
    } else {
        parts[0] + sep + joined(parts.drop_first(), sep)
    }
}

/// `out` holds, as C strings, the texts in `parts`.
pub open spec fn c_texts(out: Seq<Vec<u8>>, parts: Seq<Seq<char>>) -> bool {
    &&& out.len() == parts.len()
    &&& forall|k: int| 0 <= k < parts.len() ==> #[trigger] out[k]@ == c_text(parts[k])
}

/// A split step that does not end a piece moves one character into it.
proof fn lemma_split_step(s: Seq<char>, sep: Seq<char>, cur: Seq<char>, i: int)
    requires
        sep.len() > 0,
        0 <= i < s.len(),
        !occurs_in(s, sep, i),
    ensures
        split_from(s.skip(i), sep, cur) == split_from(s.skip(i + 1), sep, cur.push(s[i])),
{
    let rest = s.skip(i);
    assert(rest.drop_first() =~= s.skip(i + 1));
    if rest.len() < sep.len() {
        assert(cur + rest =~= cur.push(s[i]) + s.skip(i + 1));
    } else {
        assert(rest.subrange(0, sep.len() as int) =~= s.subrange(i, i + sep.len()));
    }
}

/// Splits a text at each occurrence of a non-empty separator, giving the
/// pieces as C strings.
fn split_to_texts(s: &[char], sep: &[char]) -> (r: Vec<Vec<u8>>)
    requires
        sep@.len() > 0,
    ensures
        c_texts(r@, split_parts(s@, sep@)),
{
    let n = s.len();
    let m = sep.len();
    let mut out: Vec<Vec<u8>> = Vec::new();
    let ghost mut parts: Seq<Seq<char>> = Seq::empty();
    let mut cur: Vec<char> = Vec::new();
    let mut i: usize = 0;
    assert(s@.skip(0) =~= s@);
    assert(parts + split_parts(s@, sep@) =~= split_parts(s@, sep@));
    while i < n
        invariant
            n == s@.len(),
            m == sep@.len(),
            m > 0,
            i <= n,
            c_texts(out@, parts),
            split_parts(s@, sep@) == parts + split_from(s@.skip(i as int), sep@, cur@),
        decreases n - i,
    {
        if m <= n - i && chars_match_at(s, sep, i) {
            let ghost rest = s@.skip(i as int);
            assert(rest.subrange(0, m as int) =~= s@.subrange(i as int, i + m));
            assert(rest.skip(m as int) =~= s@.skip(i + m));
            let piece = c_text_bytes(cur.as_slice());
            proof {
                assert(split_from(rest, sep@, cur@) == seq![cur@] + split_from(
                    s@.skip(i + m),
                    sep@,
                    Seq::empty(),
                ));
                assert(parts + (seq![cur@] + split_from(s@.skip(i + m), sep@, Seq::empty()))
                    =~= parts.push(cur@) + split_from(s@.skip(i + m), sep@, Seq::empty()));
                parts = parts.push(cur@);
            }
            out.push(piece);
            cur = Vec::new();
            assert(c_texts(out@, parts)) by {
                assert forall|k: int| 0 <= k < parts.len() implies #[trigger] out@[k]@ == c_text(
                    parts[k],
                ) by {}
            }
            i = i + m;
        } else {
            proof {
                if m <= n - i {
                    assert(!occurs_in(s@, sep@, i as int));
                } else {
                    assert(!occurs_in(s@, sep@, i as int));
                }
                lemma_split_step(s@, sep@, cur@, i as int);
            }
            cur.push(s[i]);
            i = i + 1;
        }
    }
    let ghost rest = s@.skip(n as int);
    assert(rest =~= Seq::<char>::empty());
    assert(cur@ + rest =~= cur@);
    let piece = c_text_bytes(cur.as_slice());
    proof {
        assert(split_from(rest, sep@, cur@) == seq![cur@]);
        parts = parts.push(cur@);
    }
    out.push(piece);
    assert(c_texts(out@, parts)) by {
        assert forall|k: int| 0 <= k < parts.len() implies #[trigger] out@[k]@ == c_text(
            parts[k],
        ) by {}
    }
    out
}

/// The pieces `hsh_string_split` makes: none when either string is null,
/// the whole text for an empty separator, else the pieces between the
/// separator's occurrences.
pub open spec fn split_result(s: Option<&[u8]>, sep: Option<&[u8]>) -> Seq<Seq<char>> {
    if s is None || sep is None {
        Seq::empty()
    } else if text_of(sep).len() == 0 {
        seq![text_of(s)]
    } else {
        split_parts(text_of(s), text_of(sep))
    }
}

/// The pieces of the text of `s` between occurrences of the text of `sep`,
/// as C strings.
pub fn hsh_string_split(s: Option<&[u8]>, sep: Option<&[u8]>) -> (r: Vec<Vec<u8>>)
    ensures
        c_texts(r@, split_result(s, sep)),
{
    if s.is_none() || sep.is_none() {
        let r: Vec<Vec<u8>> = Vec::new();
        assert(c_texts(r@, split_result(s, sep)));
        return r;
    }
    let st = read_str(s);
    let pt = read_str(sep);
    if pt.len() == 0 {
        let whole = c_text_bytes(st.as_slice());
        let mut r: Vec<Vec<u8>> = Vec::new();
        r.push(whole);
        assert(c_texts(r@, split_result(s, sep))) by {
            assert(r@[0]@ == c_text(split_result(s, sep)[0]));
        }
        return r;
    }
    split_to_texts(st.as_slice(), pt.as_slice())
}

/// How many pieces `hsh_string_split` makes.
pub fn hsh_str_split_count(s: Option<&[u8]>, sep: Option<&[u8]>) -> (r: i64)
    ensures
        r == split_result(s, sep).len() as i64,
{
    let parts = hsh_string_split(s, sep);
    parts.len() as i64
}

/// The piece at `index` of what `hsh_string_split` makes, or the empty
/// string for an index outside them.
pub fn hsh_str_split_part(s: Option<&[u8]>, sep: Option<&[u8]>, index: i64) -> (r: Vec<u8>)
    ensures
        r@ == (if 0 <= index < split_result(s, sep).len() {
            c_text(split_result(s, sep)[index as int])
        } else {
            Seq::empty()
        }),
{
    let parts = hsh_string_split(s, sep);
    if 0 <= index && (index as u64) < (parts.len() as u64) {
        let k = index as usize;
        let mut out: Vec<u8> = Vec::new();
        let mut j: usize = 0;
        while j < parts[k].len()
            invariant
                k < parts@.len(),
                j <= parts@[k as int]@.len(),
                out@ == parts@[k as int]@.take(j as int),
            decreases parts@[k as int]@.len() - j,
        {
            out.push(parts[k][j]);
            j = j + 1;
            assert(out@ =~= parts@[k as int]@.take(j as int));
        }
        assert(parts@[k as int]@.take(parts@[k as int]@.len() as int) =~= parts@[k as int]@);
        out
    } else {
        Vec::new()
    }
}

/// A piece in progress, as the list of pieces it makes: none when empty.
pub open spec fn flush(cur: Seq<char>) -> Seq<Seq<char>> {
    if cur.len() == 0 {
        Seq::empty()
    } else {
        seq![cur]
    }
}

/// The runs of characters of `s` outside Unicode white space, with `cur`
/// put in front of the first.
pub open spec fn words_from(s: Seq<char>, cur: Seq<char>) -> Seq<Seq<char>>
    decreases s.len(),
{
    if s.len() == 0 {
        flush(cur)
    } else if is_white_space(s[0]) {
        flush(cur) + words_from(s.drop_first(), Seq::empty())
    } else {
        words_from(s.drop_first(), cur.push(s[0]))
    }
}

/// The words of `s`: its maximal runs of characters outside white space.
pub open spec fn words(s: Seq<char>) -> Seq<Seq<char>> {
    words_from(s, Seq::empty())
}

/// The words of the text of `s`, as C strings.
pub fn hsh_str_split_whitespace(s: Option<&[u8]>) -> (r: Vec<Vec<u8>>)
    ensures
        c_texts(r@, words(text_of(s))),
{
    let t = read_str(s);
    let n = t.len();
    let mut out: Vec<Vec<u8>> = Vec::new();
    let ghost mut parts: Seq<Seq<char>> = Seq::empty();
    let mut cur: Vec<char> = Vec::new();
    let mut i: usize = 0;
    assert(t@.skip(0) =~= t@);
    assert(parts + words(t@) =~= words(t@));
    while i < n
        invariant
            n == t@.len(),
            i <= n,
            c_texts(out@, parts),
            words(t@) == parts + words_from(t@.skip(i as int), cur@),
        decreases n - i,
    {
        let c = t[i];
        let ghost rest = t@.skip(i as int);
        assert(rest.drop_first() =~= t@.skip(i + 1));
        if white_space(c) {
            if cur.len() > 0 {
                let piece = c_text_bytes(cur.as_slice());
                proof {
                    assert(parts + (seq![cur@] + words_from(t@.skip(i + 1), Seq::empty()))
                        =~= parts.push(cur@) + words_from(t@.skip(i + 1), Seq::empty()));
                    parts = parts.push(cur@);
                }
                out.push(piece);
                assert(c_texts(out@, parts)) by {
                    assert forall|k: int| 0 <= k < parts.len() implies #[trigger] out@[k]@
                        == c_text(parts[k]) by {}
                }
                cur = Vec::new();
            } else {
                assert(parts + (Seq::<Seq<char>>::empty() + words_from(
                    t@.skip(i + 1),
                    Seq::empty(),
                )) =~= parts + words_from(t@.skip(i + 1), Seq::empty()));
                assert(cur@ =~= Seq::<char>::empty());
            }
        } else {
            cur.push(c);
        }
        i = i + 1;
    }
    assert(t@.skip(n as int) =~= Seq::<char>::empty());
    if cur.len() > 0 {
        let piece = c_text_bytes(cur.as_slice());
        proof {
            parts = parts.push(cur@);
        }
        out.push(piece);
        assert(c_texts(out@, parts)) by {
            assert forall|k: int| 0 <= k < parts.len() implies #[trigger] out@[k]@ == c_text(
                parts[k],
            ) by {}
        }
    } else {
        assert(parts + Seq::<Seq<char>>::empty() =~= parts);
    }
    out
}

/// Each character of the text of `s` as a string of its own.
pub fn hsh_string_chars(s: Option<&[u8]>) -> (r: Vec<Vec<u8>>)
    ensures
        r@.len() == text_of(s).len(),
        forall|k: int| 0 <= k < text_of(s).len() ==> #[trigger] r@[k]@ == c_text(
            seq![text_of(s)[k]],
        ),
{
    let t = read_str(s);
    let mut out: Vec<Vec<u8>> = Vec::new();
    let mut i: usize = 0;
    while i < t.len()
        invariant
            i <= t@.len(),
            t@ == text_of(s),
            out@.len() == i,
            forall|k: int| 0 <= k < i ==> #[trigger] out@[k]@ == c_text(seq![t@[k]]),
        decreases t@.len() - i,
    {
        let one: Vec<char> = vec![t[i]];
        assert(one@ =~= seq![t@[i as int]]);
        out.push(c_text_bytes(one.as_slice()));
        i = i + 1;
    }
    out
}

/// Splitting a text at a non-empty separator and joining the pieces with
/// it again gives back the text.
pub proof fn law_split_then_join(s: Seq<char>, sep: Seq<char>)
    requires
        sep.len() > 0,
    ensures
        joined(split_parts(s, sep), sep) == s,
{
    lemma_split_join_from(s, sep, Seq::empty());
    assert(Seq::<char>::empty() + s =~= s);
}

/// The number of occurrences of a non-empty `sep` in `s`, taken from the
/// left without overlaps.
pub open spec fn count_matches(s: Seq<char>, sep: Seq<char>) -> nat
    decreases s.len(),
{
    if sep.len() == 0 || s.len() < sep.len() {
        0
    } else if s.subrange(0, sep.len() as int) == sep {
        1 + count_matches(s.skip(sep.len() as int), sep)
    } else {
        count_matches(s.drop_first(), sep)
    }
}

proof fn lemma_split_count_from(s: Seq<char>, sep: Seq<char>, cur: Seq<char>)
    requires
        sep.len() > 0,
    ensures
        split_from(s, sep, cur).len() == count_matches(s, sep) + 1,
    decreases s.len(),
{
    if s.len() < sep.len() {
    } else if s.subrange(0, sep.len() as int) == sep {
        lemma_split_count_from(s.skip(sep.len() as int), sep, Seq::empty());
    } else {
        lemma_split_count_from(s.drop_first(), sep, cur.push(s[0]));
    }
}

proof fn lemma_split_pieces_clean(s: Seq<char>, sep: Seq<char>, cur: Seq<char>)
    requires
        sep.len() > 0,
        forall|q: int| 0 <= q < cur.len() ==> !occurs_in(cur + s, sep, q),
    ensures
        forall|k: int|
            0 <= k < split_from(s, sep, cur).len() ==> !has_substring(
                #[trigger] split_from(s, sep, cur)[k],
                sep,
            ),
    decreases s.len(),
{
    let all = cur + s;
    if s.len() < sep.len() {
        assert(split_from(s, sep, cur) == seq![cur + s]);
        assert(!has_substring(all, sep)) by {
            if has_substring(all, sep) {
                let q = choose|q: int| occurs_in(all, sep, q);
                assert(q < cur.len());
            }
        }
        assert forall|k: int| 0 <= k < split_from(s, sep, cur).len() implies !has_substring(
            #[trigger] split_from(s, sep, cur)[k],
            sep,
        ) by {
            assert(split_from(s, sep, cur)[k] == all);
        }
    } else if s.subrange(0, sep.len() as int) == sep {
        let rest = s.skip(sep.len() as int);
        assert forall|q: int| 0 <= q < Seq::<char>::empty().len() implies !occurs_in(
            Seq::<char>::empty() + rest,
            sep,
            q,
        ) by {}
        lemma_split_pieces_clean(rest, sep, Seq::empty());
        let tail = split_from(rest, sep, Seq::empty());
        assert(split_from(s, sep, cur) == seq![cur] + tail);
        assert(!has_substring(cur, sep)) by {
            if has_substring(cur, sep) {
                let q = choose|q: int| occurs_in(cur, sep, q);
                assert(all.subrange(q, q + sep.len()) =~= cur.subrange(q, q + sep.len()));
                assert(occurs_in(all, sep, q));
            }
        }
        assert forall|k: int| 0 <= k < split_from(s, sep, cur).len() implies !has_substring(
            #[trigger] split_from(s, sep, cur)[k],
            sep,
        ) by {
            if k > 0 {
                assert(split_from(s, sep, cur)[k] == tail[k - 1]);
            }
        }
    } else {
        let c2 = cur.push(s[0]);
        let s2 = s.drop_first();
        assert(c2 + s2 =~= all);
        assert forall|q: int| 0 <= q < c2.len() implies !occurs_in(c2 + s2, sep, q) by {
            if q == cur.len() {
                assert(all.subrange(q, q + sep.len()) =~= s.subrange(0, sep.len() as int));
            }
        }
        lemma_split_pieces_clean(s2, sep, c2);
        assert(split_from(s, sep, cur) == split_from(s2, sep, c2));
    }
}

/// Splitting at a non-empty separator gives one piece more than the
/// separator has occurrences (taken from the left without overlaps), and no
/// piece contains the separator.
pub proof fn law_split_pieces(s: Seq<char>, sep: Seq<char>)
    requires
        sep.len() > 0,
    ensures
        split_parts(s, sep).len() == count_matches(s, sep) + 1,
        forall|k: int|
            0 <= k < split_parts(s, sep).len() ==> !has_substring(
                #[trigger] split_parts(s, sep)[k],
                sep,
            ),
{
    lemma_split_count_from(s, sep, Seq::empty());
    lemma_split_pieces_clean(s, sep, Seq::empty());
}

/// Splitting never yields an empty list of pieces.
proof fn lemma_split_nonempty(s: Seq<char>, sep: Seq<char>, cur: Seq<char>)
    ensures
        split_from(s, sep, cur).len() >= 1,
    decreases s.len(),
{
    if sep.len() == 0 || s.len() < sep.len() {
    } else if s.subrange(0, sep.len() as int) == sep {
    } else {
        lemma_split_nonempty(s.drop_first(), sep, cur.push(s[0]));
    }
}

proof fn lemma_split_join_from(s: Seq<char>, sep: Seq<char>, cur: Seq<char>)
    requires
        sep.len() > 0,
    ensures
        joined(split_from(s, sep, cur), sep) == cur + s,
    decreases s.len(),
{
    if s.len() < sep.len() {
    } else if s.subrange(0, sep.len() as int) == sep {
        let rest = split_from(s.skip(sep.len() as int), sep, Seq::empty());
        lemma_split_nonempty(s.skip(sep.len() as int), sep, Seq::empty());
        lemma_split_join_from(s.skip(sep.len() as int), sep, Seq::empty());
        let all = seq![cur] + rest;
        assert(all.drop_first() =~= rest);
        assert(Seq::<char>::empty() + s.skip(sep.len() as int) =~= s.skip(sep.len() as int));
        assert(cur + sep + s.skip(sep.len() as int) =~= cur + s);
    } else {
        lemma_split_join_from(s.drop_first(), sep, cur.push(s[0]));
        assert(cur.push(s[0]) + s.drop_first() =~= cur + s);
    }
}

proof fn lemma_trim_start_stable(cs: Seq<char>, unicode: bool)
    ensures
        trim_start(trim_start(cs, unicode), unicode) == trim_start(cs, unicode),
        trim_start(cs, unicode).len() == 0 || !strips(unicode, trim_start(cs, unicode)[0]),
    decreases cs.len(),
{
    if cs.len() > 0 && strips(unicode, cs[0]) {
        lemma_trim_start_stable(cs.drop_first(), unicode);
    }
}

proof fn lemma_trim_end_prefix(cs: Seq<char>, unicode: bool)
    ensures
        trim_end(cs, unicode) == cs.take(trim_end(cs, unicode).len() as int),
        trim_end(cs, unicode).len() <= cs.len(),
        trim_end(trim_end(cs, unicode), unicode) == trim_end(cs, unicode),
    decreases cs.len(),
{
    if cs.len() > 0 && strips(unicode, cs.last()) {
        lemma_trim_end_prefix(cs.drop_last(), unicode);
        let t = trim_end(cs.drop_last(), unicode);
        assert(cs.drop_last().take(t.len() as int) =~= cs.take(t.len() as int));
    } else {
        assert(cs.take(cs.len() as int) =~= cs);
    }
}

/// Trimming twice trims no more than trimming once, for either set of
/// characters.
pub proof fn law_trim_idempotent(cs: Seq<char>, unicode: bool)
    ensures
        trim_both(trim_both(cs, unicode), unicode) == trim_both(cs, unicode),
        trim_end(trim_end(cs, unicode), unicode) == trim_end(cs, unicode),
{
    lemma_trim_start_stable(cs, unicode);
    let y = trim_start(cs, unicode);
    lemma_trim_end_prefix(y, unicode);
    lemma_trim_end_prefix(cs, unicode);
    let t = trim_end(y, unicode);
    if t.len() > 0 {
        assert(t[0] == y[0]);
    }
    assert(trim_start(t, unicode) == t);
}

/// Padding gives at least `w` characters and keeps the text as its start.
pub proof fn law_pad_right_keeps_text(cs: Seq<char>, w: int)
    ensures
        padded(cs, w).len() == (if cs.len() >= w {
            cs.len() as int
        } else {
            w
        }),
        padded(cs, w).take(cs.len() as int) == cs,
{
    assert(padded(cs, w).take(cs.len() as int) =~= cs);
}

/// Replacing a text by itself changes nothing.
pub proof fn law_replace_by_itself(s: Seq<char>, from: Seq<char>)
    ensures
        replaced(s, from, from) == s,
    decreases s.len(),
{
    if from.len() == 0 || s.len() < from.len() {
    } else if s.subrange(0, from.len() as int) == from {
        law_replace_by_itself(s.skip(from.len() as int), from);
        assert(from + s.skip(from.len() as int) =~= s);
    } else {
        law_replace_by_itself(s.drop_first(), from);
        assert(seq![s[0]] + s.drop_first() =~= s);
    }
}

/// Replacing a text that does not occur changes nothing.
pub proof fn law_replace_absent(s: Seq<char>, from: Seq<char>, to: Seq<char>)
    requires
        !has_substring(s, from),
    ensures
        replaced(s, from, to) == s,
    decreases s.len(),
{
    if from.len() == 0 || s.len() < from.len() {
    } else if s.subrange(0, from.len() as int) == from {
        assert(occurs_in(s, from, 0));
    } else {
        let t = s.drop_first();
        assert(!has_substring(t, from)) by {
            if has_substring(t, from) {
                let i = choose|i: int| occurs_in(t, from, i);
                assert(s.subrange(i + 1, i + 1 + from.len()) =~= t.subrange(i, i + from.len()));
                assert(occurs_in(s, from, i + 1));
            }
        }
        law_replace_absent(t, from, to);
        assert(seq![s[0]] + t =~= s);
    }
}

/// Joining the pieces of a split with `to` is the replaced text, with
/// `cur` put in front.
proof fn lemma_replace_is_split_join(s: Seq<char>, from: Seq<char>, to: Seq<char>, cur: Seq<char>)
    requires
        from.len() > 0,
    ensures
        joined(split_from(s, from, cur), to) == cur + replaced(s, from, to),
    decreases s.len(),
{
    if s.len() < from.len() {
        assert(split_from(s, from, cur) == seq![cur + s]);
    } else if s.subrange(0, from.len() as int) == from {
        let rest = s.skip(from.len() as int);
        let tail = split_from(rest, from, Seq::empty());
        lemma_split_nonempty(rest, from, Seq::empty());
        lemma_replace_is_split_join(rest, from, to, Seq::empty());
        let all = seq![cur] + tail;
        assert(all.drop_first() =~= tail);
        assert(split_from(s, from, cur) == all);
        assert(Seq::<char>::empty() + replaced(rest, from, to) =~= replaced(rest, from, to));
        assert(cur + to + replaced(rest, from, to) =~= cur + (to + replaced(rest, from, to)));
    } else {
        lemma_replace_is_split_join(s.drop_first(), from, to, cur.push(s[0]));
        assert(split_from(s, from, cur) == split_from(s.drop_first(), from, cur.push(s[0])));
        assert(cur.push(s[0]) + replaced(s.drop_first(), from, to) =~= cur + (seq![s[0]]
            + replaced(s.drop_first(), from, to)));
    }
}

/// Replacing a non-empty `from` by `to` is splitting the text at `from`
/// and joining the pieces with `to`: every occurrence (from the left,
/// without overlaps) is replaced, whatever the length of `to`.
pub proof fn law_replace_is_split_then_join(s: Seq<char>, from: Seq<char>, to: Seq<char>)
    requires
        from.len() > 0,
    ensures
        replaced(s, from, to) == joined(split_parts(s, from), to),
        split_parts(s, from).len() == count_matches(s, from) + 1,
{
    lemma_replace_is_split_join(s, from, to, Seq::empty());
    assert(Seq::<char>::empty() + replaced(s, from, to) =~= replaced(s, from, to));
    law_split_pieces(s, from);
}

/// The characters of `s` outside white space, in order.
pub open spec fn non_white(s: Seq<char>) -> Seq<char>
    decreases s.len(),
{
    if s.len() == 0 {
        s
    } else if is_white_space(s[0]) {
        non_white(s.drop_first())
    } else {
        seq![s[0]] + non_white(s.drop_first())
    }
}

/// The pieces written one after the other.
pub open spec fn concat_all(parts: Seq<Seq<char>>) -> Seq<char>
    decreases parts.len(),
{
    if parts.len() == 0 {
        Seq::empty()
    } else {
        parts[0] + concat_all(parts.drop_first())
    }
}

/// A word: non-empty and without white space.
pub open spec fn is_word(w: Seq<char>) -> bool {
    w.len() > 0 && forall|i: int| 0 <= i < w.len() ==> !is_white_space(#[trigger] w[i])
}

proof fn lemma_concat_all_add(a: Seq<Seq<char>>, b: Seq<Seq<char>>)
    ensures
        concat_all(a + b) == concat_all(a) + concat_all(b),
    decreases a.len(),
{
    if a.len() == 0 {
        assert(a + b =~= b);
    } else {
        assert((a + b).drop_first() =~= a.drop_first() + b);
        lemma_concat_all_add(a.drop_first(), b);
        assert(a[0] + (concat_all(a.drop_first()) + concat_all(b)) =~= (a[0] + concat_all(
            a.drop_first(),
        )) + concat_all(b));
    }
}

proof fn lemma_words_from(s: Seq<char>, cur: Seq<char>)
    requires
        forall|i: int| 0 <= i < cur.len() ==> !is_white_space(#[trigger] cur[i]),
    ensures
        concat_all(words_from(s, cur)) == cur + non_white(s),
        forall|k: int|
            0 <= k < words_from(s, cur).len() ==> is_word(#[trigger] words_from(s, cur)[k]),
    decreases s.len(),
{
    reveal_with_fuel(concat_all, 2);
    if s.len() == 0 {
        assert(cur + s =~= cur);
        if cur.len() > 0 {
            assert(seq![cur].drop_first() =~= Seq::<Seq<char>>::empty());
            assert(cur + Seq::<char>::empty() =~= cur);
        }
    } else if is_white_space(s[0]) {
        let rest = s.drop_first();
        lemma_words_from(rest, Seq::empty());
        lemma_concat_all_add(flush(cur), words_from(rest, Seq::empty()));
        if cur.len() > 0 {
            assert(seq![cur].drop_first() =~= Seq::<Seq<char>>::empty());
            assert(concat_all(flush(cur)) =~= cur);
        } else {
            assert(cur =~= Seq::<char>::empty());
        }
        assert(Seq::<char>::empty() + non_white(rest) =~= non_white(rest));
        let all = flush(cur) + words_from(rest, Seq::empty());
        assert forall|k: int| 0 <= k < all.len() implies is_word(#[trigger] all[k]) by {
            if k >= flush(cur).len() {
                assert(all[k] == words_from(rest, Seq::empty())[k - flush(cur).len()]);
            }
        }
    } else {
        let c2 = cur.push(s[0]);
        assert forall|i: int| 0 <= i < c2.len() implies !is_white_space(#[trigger] c2[i]) by {
            if i < cur.len() {
                assert(c2[i] == cur[i]);
            }
        }
        lemma_words_from(s.drop_first(), c2);
        assert(c2 + non_white(s.drop_first()) =~= cur + (seq![s[0]] + non_white(s.drop_first())));
    }
}

/// The words of a text are non-empty and free of white space, and written
/// one after the other they give exactly the text's characters outside
/// white space: no word is lost or shortened, the last one included.
pub proof fn law_words_cover_text(s: Seq<char>)
    ensures
        concat_all(words(s)) == non_white(s),
        forall|k: int| 0 <= k < words(s).len() ==> is_word(#[trigger] words(s)[k]),
{
    lemma_words_from(s, Seq::empty());
    assert(Seq::<char>::empty() + non_white(s) =~= non_white(s));
}

} // verus!
