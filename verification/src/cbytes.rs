//! String functions that look at the raw bytes of a C string rather than
//! its characters: length, searching and byte-indexed slicing.
use vstd::prelude::*;
use vstd::utf8::*;
use crate::cstr::{c_text, c_text_bytes, decode_lossy, decoded, lemma_encode_concat};
use crate::text::{has_substring, occurs_in};

verus! {

broadcast use vstd::seq::group_seq_axioms;

/// The bytes of a string argument; a null pointer has none.
pub open spec fn bytes_of(s: Option<&[u8]>) -> Seq<u8> {
    match s {
        Some(b) => b@,
        None => Seq::empty(),
    }
}

/// A string argument short enough for its length to be an `i64`.
pub open spec fn len_fits(s: Option<&[u8]>) -> bool {
    bytes_of(s).len() <= i64::MAX
}

/// `needle` occurs in `hay` starting at byte `i`.
pub open spec fn occurs_at(hay: Seq<u8>, needle: Seq<u8>, i: int) -> bool {
    &&& 0 <= i
    &&& i + needle.len() <= hay.len()
    &&& hay.subrange(i, i + needle.len()) == needle
}

/// `r` is the first position of `needle` in `hay`, or -1 when there is none.
pub open spec fn is_first_index(hay: Seq<u8>, needle: Seq<u8>, r: int) -> bool {
    if r == -1 {
        forall|i: int| !occurs_at(hay, needle, i)
    } else {
        occurs_at(hay, needle, r) && forall|j: int| 0 <= j < r ==> !occurs_at(hay, needle, j)
    }
}

/// `r` is the last position of `needle` in `hay`, or -1 when there is none.
pub open spec fn is_last_index(hay: Seq<u8>, needle: Seq<u8>, r: int) -> bool {
    if r == -1 {
        forall|i: int| !occurs_at(hay, needle, i)
    } else {
        occurs_at(hay, needle, r) && forall|j: int| r < j ==> !occurs_at(hay, needle, j)
    }
}

/// The result of a forward search: -1 when either string is null, else
/// the first position of the needle or -1.
pub open spec fn finds_first(s: Option<&[u8]>, sub: Option<&[u8]>, r: int) -> bool {
    match (s, sub) {
        (Some(h), Some(n)) => is_first_index(h@, n@, r),
        _ => r == -1,
    }
}

/// The result of a backward search: -1 when either string is null, else
/// the last position of the needle or -1.
pub open spec fn finds_last(s: Option<&[u8]>, sub: Option<&[u8]>, r: int) -> bool {
    match (s, sub) {
        (Some(h), Some(n)) => is_last_index(h@, n@, r),
        _ => r == -1,
    }
}

/// Whether `needle` occurs in `hay` at byte `i`.
fn bytes_match_at(hay: &[u8], needle: &[u8], i: usize) -> (r: bool)
    requires
        i + needle@.len() <= hay@.len(),
    ensures
        r == occurs_at(hay@, needle@, i as int),
{
    let mut k: usize = 0;
    while k < needle.len()
        invariant
            i + needle@.len() <= hay@.len(),
            hay@.len() == hay.len(),
            k <= needle@.len(),
            forall|t: int| 0 <= t < k ==> hay@[i + t] == needle@[t],
        decreases needle@.len() - k,
    {
        if hay[i + k] != needle[k] {
            assert(hay@.subrange(i as int, i + needle@.len())[k as int] != needle@[k as int]);
            return false;
        }
        k = k + 1;
    }
    assert(hay@.subrange(i as int, i + needle@.len()) =~= needle@);
    true
}

/// The length in bytes, 0 for a null string.
pub fn hsh_strlen(s: Option<&[u8]>) -> (r: i64)
    requires
        len_fits(s),
    ensures
        r == bytes_of(s).len(),
{
    match s {
        Some(b) => b.len() as i64,
        None => 0,
    }
}

/// The byte offset of the first occurrence of `sub` in `s` (0 for an empty
/// `sub`), or -1 when there is none or either string is null.
pub fn hsh_str_index_of(s: Option<&[u8]>, sub: Option<&[u8]>) -> (r: i64)
    requires
        len_fits(s),
    ensures
        finds_first(s, sub, r as int),
{
    match (s, sub) {
        (Some(hay), Some(needle)) => {
            if needle.len() == 0 {
                assert(hay@.subrange(0, 0) =~= needle@);
                return 0;
            }
            if needle.len() > hay.len() {
                return -1;
            }
            let last = hay.len() - needle.len();
            assert(last < usize::MAX);
            let mut i: usize = 0;
            while i <= last
                invariant
                    s == Some(hay),
                    sub == Some(needle),
                    needle@.len() > 0,
                    last == hay@.len() - needle@.len(),
                    last < usize::MAX,
                    hay@.len() <= i64::MAX,
                    forall|j: int| 0 <= j < i ==> !occurs_at(hay@, needle@, j),
                decreases last + 1 - i,
            {
                if bytes_match_at(hay, needle, i) {
                    return i as i64;
                }
                i = i + 1;
            }
            -1
        },
        _ => -1,
    }
}

/// The byte offset of the last occurrence of `needle` in `haystack` (the
/// length for an empty `needle`), or -1 when there is none or either
/// string is null.
pub fn hsh_string_rfind(haystack: Option<&[u8]>, needle: Option<&[u8]>) -> (r: i64)
    requires
        len_fits(haystack),
    ensures
        finds_last(haystack, needle, r as int),
{
    match (haystack, needle) {
        (Some(hay), Some(nd)) => {
            if nd.len() == 0 {
                assert(hay@.subrange(hay@.len() as int, hay@.len() as int) =~= nd@);
                return hay.len() as i64;
            }
            if nd.len() > hay.len() {
                return -1;
            }
            let mut start: usize = hay.len() - nd.len() + 1;
            while start > 0
                invariant
                    haystack == Some(hay),
                    needle == Some(nd),
                    start <= hay@.len() - nd@.len() + 1,
                    hay@.len() <= i64::MAX,
                    nd@.len() > 0,
                    forall|j: int| start <= j ==> !occurs_at(hay@, nd@, j),
                decreases start,
            {
                start = start - 1;
                if bytes_match_at(hay, nd, start) {
                    return start as i64;
                }
            }
            -1
        },
        _ => -1,
    }
}

/// The first occurrence of `needle` in `haystack`, as `hsh_str_index_of`.
pub fn hsh_string_find(haystack: Option<&[u8]>, needle: Option<&[u8]>) -> (r: i64)
    requires
        len_fits(haystack),
    ensures
        finds_first(haystack, needle, r as int),
{
    hsh_str_index_of(haystack, needle)
}

/// The byte range that `hsh_substr` keeps of a string of `len` bytes: from
/// `start` (at least 0) up to `end` (the length when negative or past it).
pub open spec fn substr_bounds(len: int, start: i64, end: i64) -> (int, int) {
    let st = if start < 0 {
        0
    } else {
        start as int
    };
    let en = if end < 0 || end > len {
        len
    } else {
        end as int
    };
    (st, en)
}

/// The C string `hsh_substr` returns for the given arguments.
pub open spec fn substr_text(s: Option<&[u8]>, start: i64, end: i64) -> Seq<u8> {
    match s {
        None => Seq::empty(),
        Some(b) => {
            let (st, en) = substr_bounds(b@.len() as int, start, end);
            if st >= en {
                Seq::empty()
            } else {
                c_text(decoded(b@.subrange(st, en)))
            }
        },
    }
}

/// The bytes from `start` up to `end_idx` (clamped as `substr_bounds` says),
/// decoded leniently as UTF-8; empty for a null string or an empty range.
pub fn hsh_substr(s: Option<&[u8]>, start: i64, end_idx: i64) -> (r: Vec<u8>)
    requires
        len_fits(s),
    ensures
        r@ == substr_text(s, start, end_idx),
{
    match s {
        None => Vec::new(),
        Some(b) => {
            let len = b.len() as i64;
            let st = if start < 0 {
                0
            } else {
                start
            };
            let en = if end_idx < 0 || end_idx > len {
                len
            } else {
                end_idx
            };
            if st >= en {
                return Vec::new();
            }
            let mut piece: Vec<u8> = Vec::new();
            let mut i: usize = st as usize;
            while i < en as usize
                invariant
                    0 <= st <= i <= en <= b@.len(),
                    piece@ == b@.subrange(st as int, i as int),
                decreases en - i,
            {
                piece.push(b[i]);
                i = i + 1;
                assert(piece@ =~= b@.subrange(st as int, i as int));
            }
            let chars = decode_lossy(piece.as_slice());
            c_text_bytes(chars.as_slice())
        },
    }
}

/// The same as `hsh_substr`.
pub fn hsh_string_slice(s: Option<&[u8]>, start: i64, end: i64) -> (r: Vec<u8>)
    requires
        len_fits(s),
    ensures
        r@ == substr_text(s, start, end),
{
    hsh_substr(s, start, end)
}

/// The byte at `idx` (taken as the machine's `usize`), read as the
/// character with that code (U+0000 to U+00FF) and returned as its UTF-8
/// encoding; empty for a null string, a negative index or one past the end.
pub fn hsh_string_at(s: Option<&[u8]>, idx: i64) -> (r: Vec<u8>)
    ensures
        r@ == match s {
            Some(b) => if 0 <= idx && (idx as usize) < b@.len() {
                c_text(seq![(b@[(idx as usize) as int]) as char])
            } else {
                Seq::empty()
            },
            None => Seq::empty(),
        },
{
    match s {
        Some(b) => {
            if idx < 0 {
                return Vec::new();
            }
            let k = idx as usize;
            if k >= b.len() {
                Vec::new()
            } else {
                let c = b[k] as char;
                let cs: Vec<char> = vec![c];
                assert(cs@ =~= seq![(b@[k as int]) as char]);
                c_text_bytes(cs.as_slice())
            }
        },
        None => Vec::new(),
    }
}

/// In valid UTF-8, the end of a valid prefix is a character boundary.
proof fn lemma_prefix_boundary(x: Seq<u8>, y: Seq<u8>)
    requires
        valid_utf8(x),
        valid_utf8(y),
        x.len() <= y.len(),
        y.subrange(0, x.len() as int) == x,
    ensures
        is_char_boundary(y, x.len() as int),
    decreases x.len(),
{
    if x.len() > 0 {
        assert(y[0] == x[0]);
        assert(valid_first_scalar(y));
        let k = length_of_first_scalar(x);
        assert(length_of_first_scalar(y) == k);
        assert(k <= x.len());
        let px = pop_first_scalar(x);
        let py = pop_first_scalar(y);
        assert(py.subrange(0, px.len() as int) =~= px) by {
            assert forall|t: int| 0 <= t < px.len() implies py[t] == px[t] by {
                assert(py[t] == y[k + t]);
                assert(px[t] == x[k + t]);
                assert(y.subrange(0, x.len() as int)[k + t] == y[k + t]);
            }
        }
        lemma_prefix_boundary(px, py);
    }
}

/// On valid UTF-8, the character-level substring test of `hsh_str_contains`
/// holds exactly when the needle's bytes occur in the haystack's bytes at
/// some offset, which is what `hsh_str_index_of` searches for: the two
/// agree on whether the needle is there.
pub proof fn law_contains_agrees_with_index_of(h: Seq<u8>, n: Seq<u8>)
    requires
        valid_utf8(h),
        valid_utf8(n),
    ensures
        has_substring(decoded(h), decoded(n)) <==> (exists|i: int| occurs_at(h, n, i)),
        forall|r: int|
            is_first_index(h, n, r) ==> (r >= 0 <==> has_substring(decoded(h), decoded(n))),
{
    let hh = decode_utf8(h);
    let nn = decode_utf8(n);
    decode_utf8_encode_utf8(h);
    decode_utf8_encode_utf8(n);
    if has_substring(hh, nn) {
        let i = choose|i: int| occurs_in(hh, nn, i);
        let a = hh.subrange(0, i);
        let b = hh.subrange(i + nn.len(), hh.len() as int);
        assert(hh =~= a + nn + b);
        lemma_encode_concat(a + nn, b);
        lemma_encode_concat(a, nn);
        let ea = encode_utf8(a);
        assert(h == ea + n + encode_utf8(b));
        assert(h.subrange(ea.len() as int, (ea.len() + n.len()) as int) =~= n);
        assert(occurs_at(h, n, ea.len() as int));
    }
    if exists|i: int| occurs_at(h, n, i) {
        let j = choose|i: int| occurs_at(h, n, i);
        if n.len() == 0 {
            assert(nn =~= Seq::<char>::empty());
            assert(hh.subrange(0, 0) =~= nn);
            assert(occurs_in(hh, nn, 0));
        } else {
            assert(valid_first_scalar(n));
            assert(h[j] == n[0]) by {
                assert(h.subrange(j, j + n.len())[0] == h[j]);
            }
            is_char_boundary_iff_not_is_continuation_byte(h, j);
            assert(is_char_boundary(h, j));
            valid_utf8_split(h, j);
            decode_utf8_split(h, j);
            let h2 = h.subrange(j, h.len() as int);
            assert(h2.subrange(0, n.len() as int) =~= n);
            lemma_prefix_boundary(n, h2);
            valid_utf8_split(h2, n.len() as int);
            decode_utf8_split(h2, n.len() as int);
            let a = decode_utf8(h.subrange(0, j));
            let b = decode_utf8(h2.subrange(n.len() as int, h2.len() as int));
            assert(hh =~= a + nn + b);
            assert(hh.subrange(a.len() as int, (a.len() + nn.len()) as int) =~= nn);
            assert(occurs_in(hh, nn, a.len() as int));
        }
    }
}

} // verus!
