//! Arrays of 64-bit values: a length, a capacity and the values, growing by
//! doubling the capacity when a push finds them full.
use vstd::prelude::*;

verus! {

broadcast use vstd::seq::group_seq_axioms;

/// A runtime array: its values and the number of slots reserved for them.
pub struct HshArray {
    data: Vec<i64>,
    cap: i64,
}

impl View for HshArray {
    type V = Seq<i64>;

    closed spec fn view(&self) -> Seq<i64> {
        self.data@
    }
}

impl HshArray {
    /// Every array reserves at least four slots and never holds more values
    /// than it reserved.
    #[verifier::type_invariant]
    closed spec fn well_formed(self) -> bool {
        &&& 4 <= self.cap
        &&& self.data@.len() <= self.cap
    }

    /// The number of reserved slots.
    pub closed spec fn capacity(&self) -> i64 {
        self.cap
    }

    /// The number of reserved slots.
    pub fn cap(&self) -> (r: i64)
        ensures
            r == self.capacity(),
            4 <= r,
            self@.len() <= r,
    {
        proof {
            use_type_invariant(self);
        }
        self.cap
    }

    /// The values, in order.
    pub fn values(&self) -> (r: &[i64])
        ensures
            r@ == self@,
    {
        self.data.as_slice()
    }

    /// An array with the given values and capacity, when the capacity is at
    /// least four and at least the number of values.
    pub fn from_parts(data: Vec<i64>, cap: i64) -> (r: Option<HshArray>)
        ensures
            r is Some <==> (4 <= cap && data@.len() <= cap),
            r matches Some(a) ==> a@ == data@ && a.capacity() == cap,
    {
        if 4 <= cap && (data.len() as u64) <= (cap as u64) {
            Some(HshArray { data, cap })
        } else {
            None
        }
    }
}

/// An empty array with room for `cap` values, and never less than four.
pub fn arr_alloc(cap: i64) -> (r: HshArray)
    ensures
        r@ == Seq::<i64>::empty(),
        r.capacity() == (if cap < 4 { 4 } else { cap }),
{
    let cap = if cap < 4 {
        4
    } else {
        cap
    };
    HshArray { data: Vec::new(), cap }
}

/// A new, empty array with four slots.
pub fn hsh_array_new() -> (r: HshArray)
    ensures
        r@ == Seq::<i64>::empty(),
        r.capacity() == 4,
{
    arr_alloc(4)
}

/// The values of an array argument; a null array holds none.
pub open spec fn values_of(a: Option<HshArray>) -> Seq<i64> {
    match a {
        Some(x) => x@,
        None => Seq::empty(),
    }
}

/// The value at `idx`, or 0 outside the array.
pub open spec fn value_at(s: Seq<i64>, idx: i64) -> i64 {
    if 0 <= idx < s.len() {
        s[idx as int]
    } else {
        0
    }
}

/// The values after writing `val` at `idx`; outside the array nothing changes.
pub open spec fn written(s: Seq<i64>, idx: i64, val: i64) -> Seq<i64> {
    if 0 <= idx < s.len() {
        s.update(idx as int, val)
    } else {
        s
    }
}

/// The capacity after a push onto an array of `len` values and `cap` slots.
pub open spec fn cap_after_push(len: int, cap: i64) -> int {
    if len >= cap {
        cap * 2
    } else {
        cap as int
    }
}

/// The capacity an array of `len` values and `cap` slots has after a push:
/// twice as many slots when it is full.
pub fn grown_capacity(len: i64, cap: i64) -> (r: i64)
    requires
        len < cap || cap <= i64::MAX / 2,
        cap >= 0,
    ensures
        r == cap_after_push(len as int, cap),
{
    if len >= cap {
        cap * 2
    } else {
        cap
    }
}

/// The slot of `idx` in an array of `len` values, when it lies inside.
pub fn slot_index(len: usize, idx: i64) -> (r: Option<usize>)
    ensures
        r == (if 0 <= idx < len {
            Some(idx as usize)
        } else {
            None::<usize>
        }),
{
    if idx < 0 || (idx as u64) >= (len as u64) {
        None
    } else {
        Some(idx as usize)
    }
}

/// Whether `vals` holds `val`.
pub fn values_contain(vals: &[i64], val: i64) -> (r: bool)
    ensures
        r == vals@.contains(val),
{
    let mut i: usize = 0;
    while i < vals.len()
        invariant
            i <= vals@.len(),
            forall|k: int| 0 <= k < i ==> vals@[k] != val,
        decreases vals@.len() - i,
    {
        if vals[i] == val {
            assert(vals@[i as int] == val);
            return true;
        }
        i = i + 1;
    }
    false
}

/// Appends `val`; a null array is first replaced by a new one, and a full
/// one moves to twice its capacity.
pub fn hsh_array_push(a: Option<HshArray>, val: i64) -> (r: HshArray)
    requires
        a matches Some(x) ==> (x@.len() < x.capacity() || x.capacity() <= i64::MAX / 2),
    ensures
        r@ == values_of(a).push(val),
        r.capacity() == match a {
            Some(x) => cap_after_push(x@.len() as int, x.capacity()),
            None => 4,
        },
{
    let arr = match a {
        Some(x) => x,
        None => hsh_array_new(),
    };
    proof {
        use_type_invariant(&arr);
    }
    let HshArray { mut data, cap } = arr;
    let new_cap = grown_capacity(data.len() as i64, cap);
    data.push(val);
    HshArray { data, cap: new_cap }
}

/// The number of values, 0 for a null array.
pub fn hsh_array_len(a: Option<&HshArray>) -> (r: i64)
    ensures
        r == match a {
            Some(x) => x@.len() as i64,
            None => 0i64,
        },
        r >= 0,
{
    match a {
        Some(x) => {
            proof {
                use_type_invariant(x);
            }
            x.data.len() as i64
        },
        None => 0,
    }
}

/// The value at `idx`, or 0 for a null array or an index outside it.
pub fn hsh_array_get(a: Option<&HshArray>, idx: i64) -> (r: i64)
    ensures
        r == match a {
            Some(x) => value_at(x@, idx),
            None => 0i64,
        },
{
    match a {
        Some(x) => {
            proof {
                use_type_invariant(x);
            }
            match slot_index(x.data.len(), idx) {
                Some(k) => x.data[k],
                None => 0,
            }
        },
        None => 0,
    }
}

/// Writes `val` at `idx` when it lies inside the array, and hands the
/// array back.
pub fn hsh_array_set(a: Option<HshArray>, idx: i64, val: i64) -> (r: Option<HshArray>)
    ensures
        match a {
            Some(x) => r matches Some(y) && y@ == written(x@, idx, val) && y.capacity()
                == x.capacity(),
            None => r is None,
        },
{
    match a {
        Some(x) => {
            proof {
                use_type_invariant(&x);
            }
            let HshArray { mut data, cap } = x;
            match slot_index(data.len(), idx) {
                Some(k) => data.set(k, val),
                None => {},
            }
            Some(HshArray { data, cap })
        },
        None => None,
    }
}

/// Joins two arrays into a new one sized for both; a null side yields the
/// other array itself, and two nulls a new empty array.
pub fn hsh_array_concat(a: Option<HshArray>, b: Option<HshArray>) -> (r: HshArray)
    requires
        values_of(a).len() + values_of(b).len() <= i64::MAX,
    ensures
        r@ == values_of(a) + values_of(b),
        r.capacity() == match (a, b) {
            (None, None) => 4,
            (None, Some(y)) => y.capacity(),
            (Some(x), None) => x.capacity(),
            (Some(x), Some(y)) => if x@.len() + y@.len() < 4 {
                4
            } else {
                (x@.len() + y@.len()) as i64
            },
        },
{
    match a {
        None => match b {
            None => hsh_array_new(),
            Some(y) => {
                assert(Seq::<i64>::empty() + y@ =~= y@);
                y
            },
        },
        Some(x) => match b {
            None => {
                assert(x@ + Seq::<i64>::empty() =~= x@);
                x
            },
            Some(y) => {
                proof {
                    use_type_invariant(&x);
                    use_type_invariant(&y);
                }
                let total = x.data.len() as i64 + y.data.len() as i64;
                let r0 = arr_alloc(total);
                let HshArray { data: _, cap } = r0;
                let mut data: Vec<i64> = Vec::new();
                let mut i: usize = 0;
                while i < x.data.len()
                    invariant
                        i <= x@.len(),
                        data@ == x@.take(i as int),
                    decreases x@.len() - i,
                {
                    data.push(x.data[i]);
                    i = i + 1;
                    assert(data@ =~= x@.take(i as int));
                }
                let mut j: usize = 0;
                while j < y.data.len()
                    invariant
                        j <= y@.len(),
                        data@ == x@ + y@.take(j as int),
                    decreases y@.len() - j,
                {
                    data.push(y.data[j]);
                    j = j + 1;
                    assert(data@ =~= x@ + y@.take(j as int));
                }
                assert(x@.take(x@.len() as int) =~= x@);
                assert(y@.take(y@.len() as int) =~= y@);
                HshArray { data, cap }
            },
        },
    }
}

/// 1 when the array holds `val`, else 0 (also for a null array).
pub fn hsh_array_contains(a: Option<&HshArray>, val: i64) -> (r: i64)
    ensures
        r == (if (match a {
            Some(x) => x@.contains(val),
            None => false,
        }) {
            1i64
        } else {
            0i64
        }),
{
    match a {
        Some(x) => {
            if values_contain(x.data.as_slice(), val) {
                1
            } else {
                0
            }
        },
        None => 0,
    }
}

/// What a read gives back of a write: reading the slot just written yields
/// the written value, and every other slot keeps its value.
pub proof fn law_get_after_set(s: Seq<i64>, idx: i64, val: i64, other: i64)
    requires
        0 <= idx < s.len(),
        other != idx,
    ensures
        value_at(written(s, idx, val), idx) == val,
        value_at(written(s, idx, val), other) == value_at(s, other),
        written(s, idx, val).len() == s.len(),
{
}

/// A push adds one value at the end, readable at the old length, and keeps
/// all earlier values.
pub proof fn law_get_after_push(s: Seq<i64>, val: i64, idx: i64)
    requires
        s.len() < i64::MAX,
    ensures
        s.push(val).len() == s.len() + 1,
        value_at(s.push(val), s.len() as i64) == val,
        0 <= idx < s.len() ==> value_at(s.push(val), idx) == value_at(s, idx),
{
}

/// Reading a concatenation reads the first array below its length and the
/// second one past it.
pub proof fn law_get_of_concat(a: Seq<i64>, b: Seq<i64>, idx: i64)
    requires
        a.len() + b.len() <= i64::MAX,
    ensures
        value_at(a + b, idx) == (if idx < a.len() {
            value_at(a, idx)
        } else {
            value_at(b, (idx - a.len()) as i64)
        }),
{
}

} // verus!
