//! Arenas: bump allocators over a block of `cap` bytes, and the per-thread
//! stack of "current" arenas that the arena-aware allocator consults.
//! The bytes themselves belong to the host; this module keeps the books.
use vstd::prelude::*;

verus! {

/// General-purpose arena, 8-byte steps.
pub const ARENA_KIND_GENERAL: i64 = 0;
/// Fixed arena: running out of room is fatal.
pub const ARENA_KIND_FIXED: i64 = 1;
/// Pool arena, 64-byte steps.
pub const ARENA_KIND_POOL: i64 = 2;
/// Page arena, 4096-byte steps.
pub const ARENA_KIND_PAGE: i64 = 3;
/// Ring arena: starts again at offset 0 when the end is reached.
pub const ARENA_KIND_RING: i64 = 4;

/// The bookkeeping of one arena: its capacity in bytes, how many bytes are
/// handed out, and its kind.
#[derive(Clone, Copy, Debug, PartialEq, Eq)]
pub struct HshArena {
    pub cap: u64,
    pub used: u64,
    pub kind: i64,
}

/// Where a request for memory is served from.
#[derive(Clone, Copy, Debug, PartialEq, Eq)]
pub enum ArenaAlloc {
    /// At this byte offset from the start of the arena's block.
    InArena(u64),
    /// By a fresh block of this many bytes from the system allocator.
    Heap(u64),
    /// Nowhere: a fixed arena is out of room, which aborts the program.
    FixedExhausted,
}

/// The step in which an arena of the given kind hands out memory.
pub open spec fn kind_align(kind: i64) -> u64 {
    if kind == ARENA_KIND_POOL {
        64
    } else if kind == ARENA_KIND_PAGE {
        4096
    } else {
        8
    }
}

/// `n` rounded up to a multiple of `align`.
pub open spec fn round_up(n: u64, align: u64) -> int
    recommends
        align > 0,
{
    ((n + align - 1) / (align as int)) * align
}

/// The size of a fresh system block for a request of `n` bytes.
pub open spec fn heap_size(n: u64) -> u64 {
    if n == 0 {
        1
    } else {
        n
    }
}

/// A request of `n` bytes can be rounded up without leaving `u64`.
pub open spec fn request_fits(kind: i64, n: u64) -> bool {
    n + kind_align(kind) - 1 <= u64::MAX
}

/// What serving a request of `n` bytes does to an arena and where the
/// memory comes from.
pub open spec fn alloc_step(a: HshArena, n: u64) -> (HshArena, ArenaAlloc) {
    let size = round_up(n, kind_align(a.kind));
    if a.used + size <= a.cap {
        (HshArena { used: (a.used + size) as u64, ..a }, ArenaAlloc::InArena(a.used))
    } else if a.kind == ARENA_KIND_FIXED {
        (a, ArenaAlloc::FixedExhausted)
    } else if a.kind == ARENA_KIND_RING && size <= a.cap {
        (HshArena { used: size as u64, ..a }, ArenaAlloc::InArena(0))
    } else {
        (a, ArenaAlloc::Heap(heap_size(n)))
    }
}

/// The step of the given kind.
pub fn arena_align(kind: i64) -> (r: u64)
    ensures
        r == kind_align(kind),
{
    if kind == ARENA_KIND_POOL {
        64
    } else if kind == ARENA_KIND_PAGE {
        4096
    } else {
        8
    }
}

/// Rounds `n` up to a multiple of the kind's step with a mask.
fn round_to_step(n: u64, kind: i64) -> (r: u64)
    requires
        request_fits(kind, n),
    ensures
        r == round_up(n, kind_align(kind)),
        r >= n,
        r % kind_align(kind) == 0,
        r < n + kind_align(kind),
{
    let align = arena_align(kind);
    let x = n + (align - 1);
    let r = x & !(align - 1);
    if align == 8 {
        assert(x & !7u64 == x - x % 8) by (bit_vector);
    } else if align == 64 {
        assert(x & !63u64 == x - x % 64) by (bit_vector);
    } else {
        assert(x & !4095u64 == x - x % 4096) by (bit_vector);
    }
    assert((r as int) == ((x as int) / (align as int)) * (align as int)) by (nonlinear_arith)
        requires
            r == x - x % align,
            align > 0,
    ;
    assert((r as int) % (align as int) == 0) by (nonlinear_arith)
        requires
            (r as int) == ((x as int) / (align as int)) * (align as int),
            align > 0,
    ;
    assert(r >= n && r < n + align) by (nonlinear_arith)
        requires
            r == x - x % align,
            x == n + align - 1,
            align > 0,
    ;
    r
}

/// The heap block size for a request of `n` bytes.
fn heap_block(n: u64) -> (r: u64)
    ensures
        r == heap_size(n),
{
    if n == 0 {
        1
    } else {
        n
    }
}

impl HshArena {
    /// A fresh arena of the given kind; a capacity of 0 counts as 1.
    pub fn hsh_arena_new_kind(cap: u64, kind: i64) -> (r: HshArena)
        ensures
            r.cap == (if cap == 0 { 1 } else { cap }),
            r.used == 0,
            r.kind == kind,
    {
        let cap = if cap == 0 {
            1
        } else {
            cap
        };
        HshArena { cap, used: 0, kind }
    }

    /// A fresh general-purpose arena.
    pub fn hsh_arena_new(cap: u64) -> (r: HshArena)
        ensures
            r.cap == (if cap == 0 { 1 } else { cap }),
            r.used == 0,
            r.kind == ARENA_KIND_GENERAL,
    {
        HshArena::hsh_arena_new_kind(cap, ARENA_KIND_GENERAL)
    }

    /// Serves a request of `n` bytes: from the arena when the rounded size
    /// still fits, from its start again for a ring arena whose block can
    /// hold it, and otherwise from the heap (or nowhere, for a fixed arena).
    pub fn allocate(&mut self, n: u64) -> (r: ArenaAlloc)
        requires
            request_fits(old(self).kind, n),
        ensures
            (*final(self), r) == alloc_step(*old(self), n),
            r matches ArenaAlloc::InArena(off) ==> off + round_up(n, kind_align(old(self).kind))
                <= final(self).cap && final(self).used == off + round_up(
                n,
                kind_align(old(self).kind),
            ),
    {
        let size = round_to_step(n, self.kind);
        if size <= self.cap && self.used <= self.cap - size {
            let off = self.used;
            self.used = self.used + size;
            ArenaAlloc::InArena(off)
        } else if self.kind == ARENA_KIND_FIXED {
            ArenaAlloc::FixedExhausted
        } else if self.kind == ARENA_KIND_RING && size <= self.cap {
            self.used = size;
            ArenaAlloc::InArena(0)
        } else {
            ArenaAlloc::Heap(heap_block(n))
        }
    }
}

/// Serves a request of `n` bytes from the given arena, or from the heap
/// when there is none.
pub fn hsh_arena_alloc(a: &mut Option<HshArena>, n: u64) -> (r: ArenaAlloc)
    requires
        *old(a) matches Some(x) ==> request_fits(x.kind, n),
    ensures
        match *old(a) {
            None => *final(a) == *old(a) && r == ArenaAlloc::Heap(heap_size(n)),
            Some(x) => *final(a) == Some(alloc_step(x, n).0) && r == alloc_step(x, n).1,
        },
{
    match a {
        Some(arena) => arena.allocate(n),
        None => ArenaAlloc::Heap(heap_block(n)),
    }
}

/// The arena-aware allocator behind structs: from the current arena when
/// there is one, else from the heap.
pub fn hsh_alloc(current: &mut Option<HshArena>, n: usize) -> (r: ArenaAlloc)
    requires
        *old(current) matches Some(x) ==> request_fits(x.kind, n as u64),
    ensures
        match *old(current) {
            None => *final(current) == *old(current) && r == ArenaAlloc::Heap(
                heap_size(n as u64),
            ),
            Some(x) => *final(current) == Some(alloc_step(x, n as u64).0) && r == alloc_step(
                x,
                n as u64,
            ).1,
        },
{
    hsh_arena_alloc(current, n as u64)
}

/// The checkpoint of the current arena: its `used`, or -1 when there is none.
pub open spec fn checkpoint_of(current: Option<HshArena>) -> i64 {
    match current {
        Some(a) => a.used as i64,
        None => -1i64,
    }
}

/// The current arena after a rewind to `mark`.
pub open spec fn rewound(current: Option<HshArena>, mark: i64) -> Option<HshArena> {
    match current {
        Some(a) => if mark < 0 {
            current
        } else {
            Some(HshArena { used: mark as u64, ..a })
        },
        None => current,
    }
}

/// The current arena's `used` as a checkpoint, or -1 when there is none.
pub fn hsh_arena_checkpoint(current: &Option<HshArena>) -> (r: i64)
    ensures
        r == checkpoint_of(*current),
{
    match current {
        Some(a) => a.used as i64,
        None => -1,
    }
}

/// Sets the current arena's `used` back to `mark`; nothing happens without
/// a current arena or for a negative mark.
pub fn hsh_arena_rewind(current: &mut Option<HshArena>, mark: i64)
    ensures
        *final(current) == rewound(*old(current), mark),
{
    if mark >= 0 {
        match current {
            Some(a) => {
                a.used = mark as u64;
            },
            None => {},
        }
    }
}

/// Bytes handed out by the current arena, or 0 when there is none.
pub fn hsh_arena_used(current: &Option<HshArena>) -> (r: i64)
    ensures
        r == match *current {
            Some(a) => a.used as i64,
            None => 0i64,
        },
{
    match current {
        Some(a) => a.used as i64,
        None => 0,
    }
}

/// Capacity of the current arena, or 0 when there is none.
pub fn hsh_arena_capacity(current: &Option<HshArena>) -> (r: i64)
    ensures
        r == match *current {
            Some(a) => a.cap as i64,
            None => 0i64,
        },
{
    match current {
        Some(a) => a.cap as i64,
        None => 0,
    }
}

/// The stack of current arenas, as handles (0 stands for no arena).
pub struct ArenaStack {
    handles: Vec<usize>,
}

impl View for ArenaStack {
    type V = Seq<usize>;

    closed spec fn view(&self) -> Seq<usize> {
        self.handles@
    }
}

/// The handle on top of a stack of handles, or 0 when it is empty.
pub open spec fn top_handle(s: Seq<usize>) -> usize {
    if s.len() == 0 {
        0
    } else {
        s.last()
    }
}

impl ArenaStack {
    /// An empty stack.
    pub fn new() -> (r: ArenaStack)
        ensures
            r@ == Seq::<usize>::empty(),
    {
        ArenaStack { handles: Vec::new() }
    }

    /// Makes `handle` the current arena.
    pub fn hsh_arena_push_current(&mut self, handle: usize)
        ensures
            final(self)@ == old(self)@.push(handle),
    {
        self.handles.push(handle);
    }

    /// Removes the current arena and returns its handle, or 0 when the
    /// stack is empty.
    pub fn hsh_arena_pop_current(&mut self) -> (r: usize)
        ensures
            r == top_handle(old(self)@),
            final(self)@ == (if old(self)@.len() == 0 {
                old(self)@
            } else {
                old(self)@.drop_last()
            }),
    {
        match self.handles.pop() {
            Some(h) => h,
            None => 0,
        }
    }
}

/// The handle of the current arena, or 0 when there is none.
pub fn arena_current(stack: &ArenaStack) -> (r: usize)
    ensures
        r == top_handle(stack@),
{
    let n = stack.handles.len();
    if n == 0 {
        0
    } else {
        stack.handles[n - 1]
    }
}

/// Pushing an arena makes it current, and popping it again returns it and
/// leaves the stack as it was.
pub proof fn law_push_pop_current(s: Seq<usize>, handle: usize)
    ensures
        top_handle(s.push(handle)) == handle,
        s.push(handle).drop_last() == s,
{
    assert(s.push(handle).drop_last() =~= s);
}

/// Rewinding to a checkpoint taken of an arena gives back that arena, as
/// long as its `used` can be told as an `i64`.
pub proof fn law_rewind_to_checkpoint(current: Option<HshArena>)
    requires
        current matches Some(a) ==> a.used <= i64::MAX,
    ensures
        rewound(current, checkpoint_of(current)) == current,
{
}

/// A request that fits is served at the arena's current `used` offset with
/// a block of at least `n` bytes, and `used` moves to the end of that block,
/// so the next block starts after it.
pub proof fn law_arena_block_fresh(a: HshArena, n: u64)
    requires
        request_fits(a.kind, n),
        a.used + round_up(n, kind_align(a.kind)) <= a.cap,
    ensures
        alloc_step(a, n).1 == ArenaAlloc::InArena(a.used),
        alloc_step(a, n).0.used == a.used + round_up(n, kind_align(a.kind)),
        round_up(n, kind_align(a.kind)) >= n,
{
    let al = kind_align(a.kind);
    assert(round_up(n, al) >= n) by (nonlinear_arith)
        requires
            al > 0,
            round_up(n, al) == ((n + al - 1) / (al as int)) * al,
    ;
}

/// An arena whose `used` is a multiple of its step serves every block at a
/// multiple of the step and keeps `used` a multiple of it.
pub proof fn law_arena_keeps_alignment(a: HshArena, n: u64)
    requires
        request_fits(a.kind, n),
        a.used % kind_align(a.kind) == 0,
    ensures
        alloc_step(a, n).0.used % kind_align(a.kind) == 0,
        alloc_step(a, n).1 matches ArenaAlloc::InArena(off) ==> off % kind_align(a.kind) == 0,
{
    let al = kind_align(a.kind);
    let size = round_up(n, al);
    assert(size % (al as int) == 0) by (nonlinear_arith)
        requires
            al > 0,
            size == ((n + al - 1) / (al as int)) * al,
    ;
    vstd::arithmetic::div_mod::lemma_add_mod_noop(a.used as int, size, al as int);
    assert(0int % (al as int) == 0);
}

/// Only a ring arena ever hands out memory it handed out before: in any
/// other arena a request that does not fit in what is left is not served
/// from the arena and leaves it unchanged, and every block it does serve
/// starts where the previous ones ended (at the old `used`).
pub proof fn law_only_ring_reuses(a: HshArena, n: u64)
    requires
        request_fits(a.kind, n),
        a.kind != ARENA_KIND_RING,
    ensures
        alloc_step(a, n).1 matches ArenaAlloc::InArena(off) ==> off == a.used && a.used
            + round_up(n, kind_align(a.kind)) <= a.cap,
        a.used + round_up(n, kind_align(a.kind)) > a.cap ==> !(alloc_step(
            a,
            n,
        ).1 is InArena) && alloc_step(a, n).0 == a,
{
}

} // verus!
