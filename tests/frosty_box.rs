use frosty_engine::frosty_box::{BitMask, FrostyBox};

#[test]
fn write_flag_valid() {
    let proper_write_flag = u32::MAX / 2 + 1;
    assert_eq!(BitMask::WRITE_FLAG, proper_write_flag);
}

#[test]
fn lock_value_valid() {
    let proper_lock_value = 2u32.pow(15);
    assert_eq!(BitMask::LOCK_VALUE, proper_lock_value);
}

#[test]
fn generate_pend_flags() {
    // Thread t's pending-writer bit is bit 16 + t, for the 15 thread ids.
    for f in 0..15 {
        let expected_key = 2u32.pow(f + 16);
        assert_eq!(expected_key, BitMask::generate_pending_flag(f));
    }
}

#[test]
fn read_flags_are_low_bits() {
    for t in 0..15 {
        assert_eq!(BitMask::generate_read_flag(t), 1u32 << t);
    }
}

#[test]
fn read_attempt_blocked_by_writer() {
    let mut b = FrostyBox::new(7u32);
    assert!(b.get_access_mut(3));
    let held = b.semaphore.word;
    assert_eq!(held, BitMask::WRITE_FLAG | (1 << 19));
    // A reader sees the writer, takes its bit back and fails.
    assert!(!b.get_access(1));
    assert_eq!(b.semaphore.word, held);
    b.drop_write_access(3);
    assert_eq!(b.semaphore.word, 0);
    assert!(b.get_access(1));
    assert_eq!(b.semaphore.word, 1 << 1);
}

#[test]
fn writer_blocked_by_reader_keeps_pending() {
    let mut b = FrostyBox::new(1u32);
    assert!(b.get_access(2));
    // The writer fails, its pending bit stays, the writer flag goes away.
    assert!(!b.get_access_mut(4));
    assert_eq!(b.semaphore.word, (1 << 2) | (1 << 20));
    b.drop_read_access(2);
    assert!(b.get_access_mut(4));
    assert_eq!(b.semaphore.word, (1 << 20) | BitMask::WRITE_FLAG);
}

#[test]
fn higher_pending_writer_wins() {
    let mut m = BitMask::new(0);
    // Thread 9 waits to write: thread 5 must let it go first.
    m.word = 1 << (16 + 9);
    assert!(!m.try_write(5));
    assert_eq!(m.word, (1 << 25) | (1 << 21));
    // Thread 9 itself is not held back by the lower pending bit.
    assert!(m.try_write(9));
}

#[test]
fn downgrade_is_one_step() {
    let mut m = BitMask::new(0);
    assert!(m.try_write(6));
    m.downgrade(6);
    assert_eq!(m.word, 1 << 6);
    assert!(BitMask::read_granted(m.word));
    assert!(!BitMask::write_granted(m.word, 14));
}

#[test]
fn box_keeps_its_value() {
    let mut b = FrostyBox::new(41i32);
    assert_eq!(*b.get_ref(), 41);
    b.set_data(42);
    assert_eq!(*b.get_ref(), 42);
    *b.get_mut() += 1;
    assert_eq!(*b.get_ref(), 43);
    assert_eq!(b.semaphore.word, 0);
}
