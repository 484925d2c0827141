use frosty_engine::chunk::{Chunk, OrderedChunkList};

#[test]
fn get_size() {
    let mut ocl = OrderedChunkList::new();
    assert_eq!(0, ocl.recursive_get_size());
    ocl.add(Chunk { start: 0, len: 20 });
    assert_eq!(1, ocl.recursive_get_size());
    ocl.add(Chunk { start: 21, len: 10 });
    assert_eq!(2, ocl.recursive_get_size());
}

#[test]
fn push_head() {
    let mut ocl = OrderedChunkList::new();
    let chunk = Chunk { start: 0, len: 20 };
    ocl.add(chunk);
}

#[test]
fn push_multiple() {
    let mut ocl = OrderedChunkList::new();
    let c1 = Chunk { start: 0, len: 20 };
    let c2 = Chunk { start: 21, len: 10 };
    ocl.add(c1);
    ocl.add(c2);
    assert_eq!(2, ocl.len());
}

#[test]
fn get_sized() {
    let mut ocl = OrderedChunkList::new();
    let chunk = Chunk { start: 0, len: 20 };
    ocl.add(chunk);
    let c = ocl.get_best_fit(10).unwrap();
    assert_eq!(chunk, c);
}

#[test]
fn get_over_sized() {
    let mut ocl = OrderedChunkList::new();
    let chunk = Chunk { start: 0, len: 20 };
    ocl.add(chunk);
    let c = ocl.get_best_fit(30);
    assert_eq!(c, None);
}

#[test]
fn get_second_as_best() {
    let mut ocl = OrderedChunkList::new();
    let c1 = Chunk { start: 0, len: 20 };
    let c2 = Chunk { start: 21, len: 10 };
    ocl.add(c1);
    ocl.add(c2);
    let best_fit = ocl.get_best_fit(5).unwrap();
    assert_eq!(best_fit, c2);
}

#[test]
fn merge_right() {
    let mut ocl = OrderedChunkList::new();
    let c1 = Chunk { start: 0, len: 20 };
    let c2 = Chunk { start: 20, len: 10 };
    let expected = Chunk { start: 0, len: 30 };
    ocl.add(c1);
    ocl.add(c2);
    let first = ocl.head().unwrap();
    assert_eq!(expected, first);
    assert_eq!(ocl.len(), 1);
}

#[test]
fn pop_head_node() {
    let mut ocl = OrderedChunkList::new();
    ocl.add(Chunk { start: 0, len: 20 });
    assert_eq!(1, ocl.recursive_get_size());
    ocl.get_best_fit(5);
    assert_eq!(0, ocl.recursive_get_size());
}

#[test]
fn merge_left_and_both_sides() {
    let mut ocl = OrderedChunkList::new();
    ocl.add(Chunk { start: 10, len: 5 });
    ocl.add(Chunk { start: 30, len: 5 });
    // Touches the chunk after it only.
    ocl.add(Chunk { start: 25, len: 5 });
    assert_eq!(ocl.get(1), Some(Chunk { start: 25, len: 10 }));
    // Fills the gap: all three become one.
    ocl.add(Chunk { start: 15, len: 10 });
    assert_eq!(ocl.len(), 1);
    assert_eq!(ocl.head(), Some(Chunk { start: 10, len: 25 }));
}

#[test]
fn insert_before_head_keeps_order() {
    let mut ocl = OrderedChunkList::new();
    ocl.add(Chunk { start: 50, len: 5 });
    ocl.add(Chunk { start: 10, len: 5 });
    assert_eq!(ocl.head(), Some(Chunk { start: 10, len: 5 }));
    assert_eq!(ocl.get(1), Some(Chunk { start: 50, len: 5 }));
}

#[test]
fn best_fit_ties_take_lowest_start() {
    let mut ocl = OrderedChunkList::new();
    ocl.add(Chunk { start: 0, len: 8 });
    ocl.add(Chunk { start: 20, len: 8 });
    ocl.add(Chunk { start: 40, len: 30 });
    assert_eq!(ocl.get_best_fit(8), Some(Chunk { start: 0, len: 8 }));
    assert_eq!(ocl.get_best_fit(8), Some(Chunk { start: 20, len: 8 }));
    assert_eq!(ocl.get_best_fit(8), Some(Chunk { start: 40, len: 30 }));
    assert_eq!(ocl.get_best_fit(1), None);
}

#[test]
fn reduce_takes_prefix() {
    let mut c = Chunk { start: 4, len: 10 };
    c.reduce(3);
    assert_eq!(c, Chunk { start: 7, len: 7 });
}

#[test]
fn pop_index_removes_that_chunk() {
    let mut ocl = OrderedChunkList::new();
    ocl.add(Chunk { start: 0, len: 2 });
    ocl.add(Chunk { start: 5, len: 2 });
    ocl.add(Chunk { start: 10, len: 2 });
    assert_eq!(ocl.pop_index(1), Chunk { start: 5, len: 2 });
    assert_eq!(ocl.len(), 2);
    assert_eq!(ocl.get(1), Some(Chunk { start: 10, len: 2 }));
}
