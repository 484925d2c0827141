use frosty_engine::access::{Tagged, Tagged2};
use frosty_engine::allocator::Allocator;

type UniformDummy = Tagged2<10000, i32, i32>;

type NonUniformDummy = Tagged2<10001, i32, u8>;

/// A float component, kept as its bit pattern.
type Float64 = Tagged<13, u64>;

fn free_list_is_separated(alloc: &Allocator) -> bool {
    let chunks = alloc.chunks();
    let mut i = 0;
    while i + 1 < chunks.len() {
        let a = chunks.get(i).unwrap();
        let b = chunks.get(i + 1).unwrap();
        if a.start + a.len >= b.start {
            return false;
        }
        i += 1;
    }
    true
}

#[test]
fn allocate_primitive() {
    let mut alloc = Allocator::with_capacity(4 * 3);
    let data1 = 16;
    let data2: Float64 = Tagged(16.0f64.to_bits());
    let data3 = 16u32;
    let _ = alloc.allocate(data1).unwrap();
    let _ = alloc.allocate(data2).unwrap();
    let _ = alloc.allocate(data3).unwrap();
}

#[test]
fn allocate_uniform_struct() {
    let mut alloc = Allocator::with_capacity(std::mem::size_of::<(i32, i32)>());
    let dummy: UniformDummy = Tagged2(10, 10);
    alloc.allocate(dummy).unwrap();
}

#[test]
fn allocate_nonuniform_struct() {
    let mut alloc = Allocator::with_capacity(std::mem::size_of::<(i32, u8)>());
    let dummy: NonUniformDummy = Tagged2(10, 10);
    alloc.allocate(dummy).unwrap();
}

#[test]
fn access_primitive() {
    let mut alloc = Allocator::with_capacity(4 * 3);
    let data1 = 16;
    let data2 = 16u32;
    let data3: Float64 = Tagged(2.0f64.to_bits());
    let d1i = alloc.allocate(data1).unwrap();
    let d2i = alloc.allocate(data2).unwrap();
    let d3i = alloc.allocate(data3).unwrap();
    assert_eq!(alloc.read_value::<i32>(d1i.index()), 16);
    assert_eq!(alloc.read_value::<u32>(d2i.index()), 16);
    assert_eq!(f64::from_bits(alloc.read_value::<Float64>(d3i.index()).0), 2.0);
}

#[test]
fn round_trip_reads_back_the_value() {
    let mut alloc = Allocator::new();
    let h = alloc.allocate(-123456789i32).unwrap();
    let acc = alloc.get_access(&h, 1).expect("cell is free");
    assert_eq!(acc.as_ref(&alloc), -123456789);
    let big = alloc.allocate(0x0123_4567_89ab_cdefu64).unwrap();
    assert_eq!(alloc.read_value::<u64>(big.index()), 0x0123_4567_89ab_cdef);
}

#[test]
fn growth_preserves_handles() {
    let mut alloc = Allocator::with_capacity(8);
    let first = alloc.allocate(0xDEADBEEFu32).unwrap();
    let start_len = alloc.region_len();
    let mut grown = 0;
    let mut last_len = start_len;
    let mut k = 0u64;
    while grown < 2 {
        alloc.allocate(k).unwrap();
        k += 1;
        if alloc.region_len() > last_len {
            grown += 1;
            last_len = alloc.region_len();
        }
    }
    assert!(alloc.region_len() >= 4 * start_len);
    let acc = alloc.get_access(&first, 2).expect("first cell still live");
    assert_eq!(acc.as_ref(&alloc), 0xDEADBEEF);
}

#[test]
fn best_fit_reuses_freed_cell() {
    let mut alloc = Allocator::with_capacity(64);
    let a = alloc.allocate(1u32).unwrap();
    let _b = alloc.allocate(2u32).unwrap();
    let a_at = alloc.record(a.index()).unwrap().index;
    alloc.free(&a);
    assert!(!alloc.is_live(a.index()));
    let c = alloc.allocate(3u32).unwrap();
    assert_eq!(alloc.record(c.index()).unwrap().index, a_at);
    assert_eq!(alloc.read_value::<u32>(c.index()), 3);
}

#[test]
fn freed_cell_gives_no_access() {
    let mut alloc = Allocator::new();
    let h = alloc.allocate(5i32).unwrap();
    alloc.free(&h);
    assert!(alloc.get_access(&h, 0).is_none());
    assert!(alloc.get_access_mut(&h, 0).is_none());
    // A second free changes nothing.
    alloc.free(&h);
    assert!(free_list_is_separated(&alloc));
}

#[test]
fn free_list_stays_separated() {
    let mut alloc = Allocator::with_capacity(16);
    let mut hs = Vec::new();
    for i in 0..12u32 {
        hs.push(alloc.allocate(i).unwrap());
        assert!(free_list_is_separated(&alloc));
    }
    for h in hs.iter().step_by(2) {
        alloc.free(h);
        assert!(free_list_is_separated(&alloc));
    }
    for h in hs.iter().skip(1).step_by(2) {
        alloc.free(h);
        assert!(free_list_is_separated(&alloc));
    }
    // Everything came back and merged into one chunk.
    assert_eq!(alloc.chunks().len(), 1);
    let all = alloc.chunks().head().unwrap();
    assert_eq!(all.start, 0);
    assert_eq!(all.len, alloc.region_len());
}

#[test]
fn semaphore_in_arena() {
    let mut alloc = Allocator::new();
    let h = alloc.allocate(9u64).unwrap();
    let w = alloc.get_access_mut(&h, 2).expect("no one holds the cell");
    assert!(alloc.get_access(&h, 3).is_none());
    assert!(alloc.get_access_mut(&h, 4).is_none());
    w.set(&mut alloc, 10);
    let r = w.drop_mut(&mut alloc);
    assert_eq!(r.as_ref(&alloc), 10);
    // After the downgrade other readers come in; writers still wait.
    let r2 = alloc.get_access(&h, 3).expect("readers share the cell");
    assert!(alloc.get_access_mut(&h, 5).is_none());
    r.release(&mut alloc);
    r2.release(&mut alloc);
}

#[test]
fn handle_counts() {
    let mut alloc = Allocator::new();
    let h = alloc.allocate(1u32).unwrap();
    assert_eq!(alloc.record(h.index()).unwrap().active_handles, 1);
    let h2 = alloc.get_mut::<u32>(h.index()).unwrap();
    assert_eq!(alloc.record(h.index()).unwrap().active_handles, 2);
    alloc.release_handle(h2);
    assert_eq!(alloc.record(h.index()).unwrap().active_handles, 1);
    assert!(alloc.get_mut::<u32>(99).is_none());
    assert_eq!(alloc.record_count(), 1);
}

#[test]
fn pair_layouts_are_told_apart() {
    let mut alloc = Allocator::new();
    let h = alloc.allocate::<Tagged2<7, u32, i32>>(Tagged2(1, -1)).unwrap();
    assert_eq!(alloc.read_value::<Tagged2<7, u32, i32>>(h.index()), Tagged2(1, -1));
    // Another tag, another kind of tagged type, or a primitive type: each is another type.
    assert!(!alloc.holds_type::<Tagged2<8, u32, i32>>(h.index()));
    assert!(!alloc.holds_type::<Tagged<7, u64>>(h.index()));
    assert!(!alloc.holds_type::<u64>(h.index()));
    let p = alloc.allocate(5u32).unwrap();
    assert!(!alloc.holds_type::<Tagged<2, u32>>(p.index()));
    assert!(alloc.holds_type::<u32>(p.index()));
}
