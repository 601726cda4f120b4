use automaton_engine::{BufferState, DoubleBuffer};

#[test]
fn buffer_reads_first_and_writes_second() {
    let mut b = DoubleBuffer::new(1u32, 2u32);
    assert_eq!(*b.read(), 1);
    assert_eq!(*b.write(), 2);
    *b.write() = 5;
    assert_eq!(*b.read(), 1);
    b.finish_write();
    assert_eq!(*b.read(), 5);
    assert_eq!(*b.write(), 1);
}

#[test]
fn buffer_swapped_twice_is_unchanged() {
    let mut b = DoubleBuffer::new(vec![1u8], vec![2u8]);
    b.finish_write();
    b.finish_write();
    assert_eq!(b.read(), &vec![1u8]);
    assert_eq!(b.write(), &mut vec![2u8]);
}

#[test]
fn buffer_read_mut_changes_the_front() {
    let mut b = DoubleBuffer::new(10i64, 20i64);
    *b.read_mut() += 1;
    assert_eq!(*b.read(), 11);
    b.finish_write();
    assert_eq!(*b.read(), 20);
    assert_eq!(*b.write(), 11);
}

#[test]
fn buffer_state_compares() {
    assert_ne!(BufferState::Primary, BufferState::Secondary);
    assert_eq!(BufferState::Primary, BufferState::Primary);
}

#[test]
fn buffer_alternates_with_each_swap() {
    let mut b = DoubleBuffer::new('a', 'b');
    for k in 0..7 {
        let (front, back) = if k % 2 == 0 { ('a', 'b') } else { ('b', 'a') };
        assert_eq!(*b.read(), front);
        assert_eq!(*b.write(), back);
        b.finish_write();
    }
}
