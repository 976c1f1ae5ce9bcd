//! Structs and closures: a struct is a row of 64-bit fields in declaration
//! order; a closure is a function address with the values it captured.
use vstd::prelude::*;
use crate::arena::{alloc_step, heap_size, hsh_alloc, request_fits, ArenaAlloc, HshArena};

verus! {

broadcast use vstd::seq::group_seq_axioms;

/// The number of fields `hsh_struct_new` makes for a requested count.
pub open spec fn field_count(n: i64) -> nat {
    ((if n < 0 {
        0
    } else {
        n
    }) as usize) as nat
}

/// A new struct of `n` fields (none for a negative `n`), all zero, and
/// where its `8 * n` bytes come from: the current arena when there is one,
/// else the heap.
pub fn hsh_struct_new(n: i64, current: &mut Option<HshArena>) -> (r: (Vec<i64>, ArenaAlloc))
    requires
        field_count(n) * 8 <= usize::MAX,
        *old(current) matches Some(x) ==> request_fits(x.kind, (field_count(n) * 8) as u64),
    ensures
        r.0@ == Seq::new(field_count(n), |i: int| 0i64),
        match *old(current) {
            None => *final(current) == *old(current) && r.1 == ArenaAlloc::Heap(
                heap_size((field_count(n) * 8) as u64),
            ),
            Some(x) => *final(current) == Some(alloc_step(x, (field_count(n) * 8) as u64).0)
                && r.1 == alloc_step(x, (field_count(n) * 8) as u64).1,
        },
{
    let count: usize = (if n < 0 {
        0
    } else {
        n
    }) as usize;
    let bytes = count * 8;
    let place = hsh_alloc(current, bytes);
    let mut fields: Vec<i64> = Vec::new();
    let mut i: usize = 0;
    while i < count
        invariant
            i <= count,
            fields@ == Seq::new(i as nat, |k: int| 0i64),
        decreases count - i,
    {
        fields.push(0);
        i = i + 1;
        assert(fields@ =~= Seq::new(i as nat, |k: int| 0i64));
    }
    (fields, place)
}

/// The field at `idx` of a struct, or 0 for a null struct.
pub fn hsh_struct_get(s: Option<&[i64]>, idx: i64) -> (r: i64)
    requires
        s matches Some(f) ==> 0 <= idx < f@.len(),
    ensures
        r == match s {
            Some(f) => f@[idx as int],
            None => 0i64,
        },
{
    match s {
        Some(f) => f[idx as usize],
        None => 0,
    }
}

/// Writes `val` into the field at `idx` of a struct (nothing for a null
/// struct) and hands the struct back.
pub fn hsh_struct_set(s: Option<Vec<i64>>, idx: i64, val: i64) -> (r: Option<Vec<i64>>)
    requires
        s matches Some(f) ==> 0 <= idx < f@.len(),
    ensures
        match s {
            Some(f) => r matches Some(g) && g@ == f@.update(idx as int, val),
            None => r is None,
        },
{
    match s {
        Some(f) => {
            let mut g = f;
            let len = g.len();
            assert((idx as int) < (len as int));
            let k = idx as usize;
            assert(k as int == idx as int);
            g.set(k, val);
            Some(g)
        },
        None => None,
    }
}

/// Reading a field just written gives the written value; the other fields
/// keep theirs.
pub proof fn law_struct_get_after_set(f: Seq<i64>, idx: int, val: i64, other: int)
    requires
        0 <= idx < f.len(),
        0 <= other < f.len(),
        other != idx,
    ensures
        f.update(idx, val)[idx] == val,
        f.update(idx, val)[other] == f[other],
{
}

/// A closure: the address of its code, its declared number of captured
/// values, and those values.
pub struct HshClosure {
    pub fn_ptr: i64,
    pub n_caps: i64,
    pub caps: Vec<i64>,
}

/// A closure over `fn_ptr` with `n_caps` captured values (none when it is
/// not positive), copied from `caps`; without `caps` they are zero.
pub fn hsh_closure_create(fn_ptr: i64, n_caps: i64, caps: Option<&[i64]>) -> (r: HshClosure)
    requires
        caps matches Some(c) ==> field_count(n_caps) <= c@.len(),
    ensures
        r.fn_ptr == fn_ptr,
        r.n_caps == n_caps,
        r.caps@ == match caps {
            Some(c) => c@.take(field_count(n_caps) as int),
            None => Seq::new(field_count(n_caps), |i: int| 0i64),
        },
{
    let n: usize = (if n_caps < 0 {
        0
    } else {
        n_caps
    }) as usize;
    let mut vals: Vec<i64> = Vec::new();
    let mut i: usize = 0;
    while i < n
        invariant
            i <= n,
            n == field_count(n_caps),
            caps matches Some(c) ==> n <= c@.len(),
            vals@ == match caps {
                Some(c) => c@.take(i as int),
                None => Seq::new(i as nat, |k: int| 0i64),
            },
        decreases n - i,
    {
        match caps {
            Some(c) => {
                vals.push(c[i]);
                assert(vals@ =~= c@.take(i + 1));
            },
            None => {
                vals.push(0);
                assert(vals@ =~= Seq::new((i + 1) as nat, |k: int| 0i64));
            },
        }
        i = i + 1;
    }
    HshClosure { fn_ptr, n_caps, caps: vals }
}

} // verus!
