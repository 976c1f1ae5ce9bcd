//! Sorting an array of strings: the values of an array are C strings, and
//! the array is ordered stably by the bytes of their texts.
use vstd::prelude::*;
use vstd::utf8::*;
use crate::array::{hsh_array_new, HshArray};
use crate::cstr::{decoded, encode_chars, read_str};

verus! {

broadcast use vstd::seq::group_seq_axioms;

/// `a` comes before `b` or equals it, byte by byte (a prefix comes first),
/// as `str`'s ordering compares.
pub open spec fn lex_le(a: Seq<u8>, b: Seq<u8>) -> bool
    decreases a.len(),
{
    if a.len() == 0 {
        true
    } else if b.len() == 0 {
        false
    } else if a[0] != b[0] {
        a[0] < b[0]
    } else {
        lex_le(a.drop_first(), b.drop_first())
    }
}

proof fn lemma_lex_total(a: Seq<u8>, b: Seq<u8>)
    ensures
        lex_le(a, b) || lex_le(b, a),
    decreases a.len(),
{
    if a.len() > 0 && b.len() > 0 && a[0] == b[0] {
        lemma_lex_total(a.drop_first(), b.drop_first());
    }
}

proof fn lemma_lex_antisym(a: Seq<u8>, b: Seq<u8>)
    requires
        lex_le(a, b),
        lex_le(b, a),
    ensures
        a == b,
    decreases a.len(),
{
    if a.len() == 0 {
        assert(b.len() == 0);
        assert(a =~= b);
    } else {
        lemma_lex_antisym(a.drop_first(), b.drop_first());
        assert(a =~= seq![a[0]] + a.drop_first());
        assert(b =~= seq![b[0]] + b.drop_first());
    }
}

proof fn lemma_lex_trans(a: Seq<u8>, b: Seq<u8>, c: Seq<u8>)
    requires
        lex_le(a, b),
        lex_le(b, c),
    ensures
        lex_le(a, c),
    decreases a.len(),
{
    if a.len() > 0 && b.len() > 0 && c.len() > 0 && a[0] == b[0] && b[0] == c[0] {
        lemma_lex_trans(a.drop_first(), b.drop_first(), c.drop_first());
    }
}

proof fn lemma_lex_refl(a: Seq<u8>)
    ensures
        lex_le(a, a),
    decreases a.len(),
{
    if a.len() > 0 {
        lemma_lex_refl(a.drop_first());
    }
}

/// Compares two byte strings as `lex_le` does.
fn lex_less_eq(a: &[u8], b: &[u8]) -> (r: bool)
    ensures
        r == lex_le(a@, b@),
{
    let mut i: usize = 0;
    assert(a@.skip(0) =~= a@);
    assert(b@.skip(0) =~= b@);
    while i < a.len() && i < b.len() && a[i] == b[i]
        invariant
            i <= a@.len(),
            i <= b@.len(),
            lex_le(a@, b@) == lex_le(a@.skip(i as int), b@.skip(i as int)),
        decreases a@.len() - i,
    {
        assert(a@.skip(i as int).drop_first() =~= a@.skip(i + 1));
        assert(b@.skip(i as int).drop_first() =~= b@.skip(i + 1));
        i = i + 1;
    }
    if i == a.len() {
        true
    } else if i == b.len() {
        false
    } else {
        assert(a@.skip(i as int)[0] == a@[i as int]);
        assert(b@.skip(i as int)[0] == b@[i as int]);
        a[i] < b[i]
    }
}

/// The bytes by which a string value is ordered: those of its text.
pub open spec fn sort_key(bytes: Seq<u8>) -> Seq<u8> {
    encode_utf8(decoded(bytes))
}

/// `p` orders the positions `0..keys.len()` by key, keeping positions with
/// equal keys in the order they had.
pub open spec fn is_stable_order(p: Seq<int>, keys: Seq<Seq<u8>>) -> bool {
    &&& p.len() == keys.len()
    &&& forall|k: int| 0 <= k < p.len() ==> 0 <= #[trigger] p[k] < keys.len()
    &&& forall|k: int, l: int| 0 <= k < l < p.len() ==> #[trigger] p[k] != #[trigger] p[l]
    &&& forall|k: int, l: int|
        0 <= k < l < p.len() ==> lex_le(keys[#[trigger] p[k]], keys[#[trigger] p[l]])
    &&& forall|k: int, l: int|
        0 <= k < l < p.len() && keys[#[trigger] p[k]] == keys[#[trigger] p[l]] ==> p[k] < p[l]
}

/// `out` is `vals` sorted stably by `keys`.
pub open spec fn sorted_stably(vals: Seq<i64>, keys: Seq<Seq<u8>>, out: Seq<i64>) -> bool {
    exists|p: Seq<int>|
        is_stable_order(p, keys) && out.len() == p.len() && forall|k: int|
            0 <= k < p.len() ==> #[trigger] out[k] == vals[p[k]]
}

/// The keys of a list of strings.
pub open spec fn keys_of(strs: Seq<Vec<u8>>) -> Seq<Seq<u8>> {
    Seq::new(strs.len(), |i: int| sort_key(strs[i]@))
}

/// Orders the positions `0..keys.len()` stably by key, by insertion.
fn stable_order(keys: &Vec<Vec<u8>>) -> (r: Vec<usize>)
    ensures
        is_stable_order(r@.map_values(|x: usize| x as int), keys@.map_values(|v: Vec<u8>| v@)),
{
    let ghost ks = keys@.map_values(|v: Vec<u8>| v@);
    let n = keys.len();
    let mut idx: Vec<usize> = Vec::new();
    let mut j: usize = 0;
    while j < n
        invariant
            n == keys@.len(),
            ks == keys@.map_values(|v: Vec<u8>| v@),
            j <= n,
            idx@.len() == j,
            forall|k: int| 0 <= k < j ==> 0 <= #[trigger] idx@[k] < j,
            forall|k: int, l: int| 0 <= k < l < j ==> #[trigger] idx@[k] != #[trigger] idx@[l],
            forall|k: int, l: int|
                0 <= k < l < j ==> lex_le(ks[#[trigger] idx@[k] as int], ks[#[trigger] idx@[l] as int]),
            forall|k: int, l: int|
                0 <= k < l < j && ks[#[trigger] idx@[k] as int] == ks[#[trigger] idx@[l] as int]
                    ==> idx@[k] < idx@[l],
        decreases n - j,
    {
        let mut q: usize = j;
        while q > 0 && !lex_less_eq(keys[idx[q - 1]].as_slice(), keys[j].as_slice())
            invariant
                n == keys@.len(),
                ks == keys@.map_values(|v: Vec<u8>| v@),
                j < n,
                q <= j,
                idx@.len() == j,
                forall|k: int| 0 <= k < j ==> 0 <= #[trigger] idx@[k] < j,
                forall|t: int| q <= t < j ==> !lex_le(ks[#[trigger] idx@[t] as int], ks[j as int]),
            decreases q,
        {
            q = q - 1;
        }
        proof {
            if q > 0 {
                assert(lex_le(ks[idx@[q - 1] as int], ks[j as int]));
            }
        }
        let ghost old_idx = idx@;
        idx.insert(q, j);
        assert(idx@ =~= old_idx.subrange(0, q as int).push(j) + old_idx.subrange(q as int, j as int));
        proof {
            assert forall|k: int| 0 <= k <= j implies 0 <= #[trigger] idx@[k] < j + 1 by {
                if k < q {
                    assert(idx@[k] == old_idx[k]);
                } else if k > q {
                    assert(idx@[k] == old_idx[k - 1]);
                }
            }
            assert forall|k: int, l: int| 0 <= k < l < j + 1 implies #[trigger] idx@[k]
                != #[trigger] idx@[l] by {
                if k < q {
                    assert(idx@[k] == old_idx[k]);
                } else if k > q {
                    assert(idx@[k] == old_idx[k - 1]);
                }
                if l < q {
                    assert(idx@[l] == old_idx[l]);
                } else if l > q {
                    assert(idx@[l] == old_idx[l - 1]);
                }
            }
            assert forall|k: int, l: int| 0 <= k < l < j + 1 implies lex_le(
                ks[#[trigger] idx@[k] as int],
                ks[#[trigger] idx@[l] as int],
            ) by {
                let kj = ks[j as int];
                if k < q {
                    assert(idx@[k] == old_idx[k]);
                    if q > 0 && k < q - 1 {
                        lemma_lex_trans(ks[old_idx[k] as int], ks[old_idx[q - 1] as int], kj);
                    }
                }
                if l > q {
                    assert(idx@[l] == old_idx[l - 1]);
                    lemma_lex_total(ks[old_idx[l - 1] as int], kj);
                }
                if k < q && l < q {
                    assert(idx@[l] == old_idx[l]);
                } else if k < q && l == q {
                } else if k < q && l > q {
                    if q > 0 && k < q - 1 {
                        lemma_lex_trans(ks[old_idx[k] as int], ks[old_idx[q - 1] as int], kj);
                    }
                    lemma_lex_trans(ks[old_idx[k] as int], kj, ks[old_idx[l - 1] as int]);
                } else if k == q {
                } else {
                    assert(idx@[k] == old_idx[k - 1]);
                }
            }
            assert forall|k: int, l: int|
                0 <= k < l < j + 1 && ks[#[trigger] idx@[k] as int] == ks[#[trigger] idx@[l] as int]
                    implies idx@[k] < idx@[l] by {
                if k < q {
                    assert(idx@[k] == old_idx[k]);
                } else if k > q {
                    assert(idx@[k] == old_idx[k - 1]);
                }
                if l < q {
                    assert(idx@[l] == old_idx[l]);
                } else if l > q {
                    assert(idx@[l] == old_idx[l - 1]);
                    if k == q {
                        lemma_lex_refl(ks[j as int]);
                    }
                }
            }
        }
        j = j + 1;
    }
    let ghost p = idx@.map_values(|x: usize| x as int);
    assert(is_stable_order(p, ks)) by {
        assert forall|k: int, l: int| 0 <= k < l < p.len() implies #[trigger] p[k]
            != #[trigger] p[l] by {
            assert(idx@[k] != idx@[l]);
        }
        assert forall|k: int, l: int| 0 <= k < l < p.len() implies lex_le(
            ks[#[trigger] p[k]],
            ks[#[trigger] p[l]],
        ) by {
            assert(lex_le(ks[idx@[k] as int], ks[idx@[l] as int]));
        }
        assert forall|k: int, l: int|
            0 <= k < l < p.len() && ks[#[trigger] p[k]] == ks[#[trigger] p[l]] implies p[k]
            < p[l] by {
            assert(ks[idx@[k] as int] == ks[idx@[l] as int]);
        }
    }
    idx
}

/// A copy of the array with its values ordered stably by the texts of the
/// strings they point to (`strs[i]` holds the bytes of the string of value
/// `i`); a null array gives a new, empty one.
pub fn hsh_sort_strings(a: Option<&HshArray>, strs: &[Vec<u8>]) -> (r: HshArray)
    requires
        a matches Some(x) ==> strs@.len() == x@.len(),
    ensures
        match a {
            None => r@ == Seq::<i64>::empty() && r.capacity() == 4,
            Some(x) => sorted_stably(x@, keys_of(strs@), r@) && r.capacity() == (if x@.len()
                < 4 {
                4
            } else {
                x@.len() as i64
            }),
        },
{
    match a {
        None => hsh_array_new(),
        Some(x) => {
            let vals = x.values();
            let cap = x.cap();
            let n = vals.len();
            let mut keys: Vec<Vec<u8>> = Vec::new();
            let mut i: usize = 0;
            while i < n
                invariant
                    n == strs@.len(),
                    i <= n,
                    keys@.len() == i,
                    forall|k: int| 0 <= k < i ==> #[trigger] keys@[k]@ == sort_key(strs@[k]@),
                decreases n - i,
            {
                let t = read_str(Some(strs[i].as_slice()));
                let e = encode_chars(t.as_slice());
                keys.push(e);
                i = i + 1;
            }
            assert(keys@.map_values(|v: Vec<u8>| v@) =~= keys_of(strs@));
            let idx = stable_order(&keys);
            let ghost p = idx@.map_values(|x: usize| x as int);
            let mut data: Vec<i64> = Vec::new();
            let mut k: usize = 0;
            while k < n
                invariant
                    n == vals@.len(),
                    n == idx@.len(),
                    p == idx@.map_values(|x: usize| x as int),
                    is_stable_order(p, keys_of(strs@)),
                    k <= n,
                    data@.len() == k,
                    forall|t: int| 0 <= t < k ==> #[trigger] data@[t] == vals@[p[t]],
                decreases n - k,
            {
                assert(0 <= p[k as int] < n);
                data.push(vals[idx[k]]);
                k = k + 1;
            }
            assert(sorted_stably(x@, keys_of(strs@), data@));
            let new_cap: i64 = if n < 4 {
                4
            } else {
                n as i64
            };
            match HshArray::from_parts(data, new_cap) {
                Some(r) => r,
                None => hsh_array_new(),
            }
        },
    }
}

} // verus!
