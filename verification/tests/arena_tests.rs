use hsharp_runtime::arena::{
    arena_current, hsh_alloc, hsh_arena_alloc, hsh_arena_capacity, hsh_arena_checkpoint,
    hsh_arena_rewind, hsh_arena_used, ArenaAlloc, ArenaStack, HshArena, ARENA_KIND_FIXED,
    ARENA_KIND_GENERAL, ARENA_KIND_PAGE, ARENA_KIND_POOL, ARENA_KIND_RING,
};

#[test]
fn new_arena_counts_zero_capacity_as_one() {
    let a = HshArena::hsh_arena_new(0);
    assert_eq!(a.cap, 1);
    assert_eq!(a.used, 0);
    assert_eq!(a.kind, ARENA_KIND_GENERAL);
    let b = HshArena::hsh_arena_new_kind(100, ARENA_KIND_RING);
    assert_eq!(b.cap, 100);
    assert_eq!(b.kind, ARENA_KIND_RING);
}

#[test]
fn general_arena_hands_out_eight_byte_steps() {
    let mut a = HshArena::hsh_arena_new(64);
    assert_eq!(a.allocate(5), ArenaAlloc::InArena(0));
    assert_eq!(a.used, 8);
    assert_eq!(a.allocate(8), ArenaAlloc::InArena(8));
    assert_eq!(a.used, 16);
    assert_eq!(a.allocate(0), ArenaAlloc::InArena(16));
    assert_eq!(a.used, 16);
}

#[test]
fn pool_and_page_arenas_round_to_their_steps() {
    let mut pool = HshArena::hsh_arena_new_kind(1000, ARENA_KIND_POOL);
    assert_eq!(pool.allocate(1), ArenaAlloc::InArena(0));
    assert_eq!(pool.allocate(65), ArenaAlloc::InArena(64));
    assert_eq!(pool.used, 192);
    let mut page = HshArena::hsh_arena_new_kind(10000, ARENA_KIND_PAGE);
    assert_eq!(page.allocate(1), ArenaAlloc::InArena(0));
    assert_eq!(page.used, 4096);
    assert_eq!(page.allocate(4097), ArenaAlloc::Heap(4097));
    assert_eq!(page.used, 4096);
}

#[test]
fn full_general_arena_falls_back_to_the_heap() {
    let mut a = HshArena::hsh_arena_new(16);
    assert_eq!(a.allocate(16), ArenaAlloc::InArena(0));
    assert_eq!(a.allocate(1), ArenaAlloc::Heap(1));
    assert_eq!(a.allocate(0), ArenaAlloc::InArena(16));
    assert_eq!(a.used, 16);
}

#[test]
fn full_fixed_arena_is_exhausted() {
    let mut a = HshArena::hsh_arena_new_kind(16, ARENA_KIND_FIXED);
    assert_eq!(a.allocate(9), ArenaAlloc::InArena(0));
    assert_eq!(a.allocate(1), ArenaAlloc::FixedExhausted);
    assert_eq!(a.used, 16);
}

#[test]
fn ring_arena_starts_over() {
    let mut a = HshArena::hsh_arena_new_kind(24, ARENA_KIND_RING);
    assert_eq!(a.allocate(16), ArenaAlloc::InArena(0));
    assert_eq!(a.allocate(16), ArenaAlloc::InArena(0));
    assert_eq!(a.used, 16);
    assert_eq!(a.allocate(8), ArenaAlloc::InArena(16));
    assert_eq!(a.allocate(25), ArenaAlloc::Heap(25));
}

#[test]
fn null_arena_allocates_from_the_heap() {
    let mut none: Option<HshArena> = None;
    assert_eq!(hsh_arena_alloc(&mut none, 0), ArenaAlloc::Heap(1));
    assert_eq!(hsh_arena_alloc(&mut none, 10), ArenaAlloc::Heap(10));
    assert_eq!(hsh_alloc(&mut none, 3), ArenaAlloc::Heap(3));
    let mut some = Some(HshArena::hsh_arena_new(32));
    assert_eq!(hsh_alloc(&mut some, 3), ArenaAlloc::InArena(0));
    assert_eq!(some.unwrap().used, 8);
}

#[test]
fn checkpoint_and_rewind_restore_used() {
    let mut cur = Some(HshArena::hsh_arena_new(64));
    assert_eq!(hsh_arena_alloc(&mut cur, 8), ArenaAlloc::InArena(0));
    let mark = hsh_arena_checkpoint(&cur);
    assert_eq!(mark, 8);
    assert_eq!(hsh_arena_alloc(&mut cur, 20), ArenaAlloc::InArena(8));
    assert_eq!(hsh_arena_used(&cur), 32);
    hsh_arena_rewind(&mut cur, mark);
    assert_eq!(hsh_arena_used(&cur), 8);
    hsh_arena_rewind(&mut cur, -5);
    assert_eq!(hsh_arena_used(&cur), 8);
    assert_eq!(hsh_arena_capacity(&cur), 64);
}

#[test]
fn no_current_arena_reads_as_defaults() {
    let mut none: Option<HshArena> = None;
    assert_eq!(hsh_arena_checkpoint(&none), -1);
    assert_eq!(hsh_arena_used(&none), 0);
    assert_eq!(hsh_arena_capacity(&none), 0);
    hsh_arena_rewind(&mut none, 4);
    assert!(none.is_none());
}

#[test]
fn arena_stack_push_pop() {
    let mut s = ArenaStack::new();
    assert_eq!(arena_current(&s), 0);
    assert_eq!(s.hsh_arena_pop_current(), 0);
    s.hsh_arena_push_current(11);
    s.hsh_arena_push_current(22);
    assert_eq!(arena_current(&s), 22);
    assert_eq!(s.hsh_arena_pop_current(), 22);
    assert_eq!(arena_current(&s), 11);
    assert_eq!(s.hsh_arena_pop_current(), 11);
    assert_eq!(arena_current(&s), 0);
}

#[test]
fn aligned_arena_stays_aligned() {
    let mut pool = HshArena::hsh_arena_new_kind(4096, ARENA_KIND_POOL);
    for n in [1u64, 63, 64, 65, 130] {
        match pool.allocate(n) {
            ArenaAlloc::InArena(off) => assert_eq!(off % 64, 0),
            other => panic!("unexpected {:?}", other),
        }
        assert_eq!(pool.used % 64, 0);
    }
}
