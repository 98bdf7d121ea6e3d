use exhaustive::buffer::{SlotBuffer, concat_copy, generate, map_each};
use exhaustive::index::{combine_index, split_index};

#[test]
fn generate_fills_in_index_order() {
    let v = generate(5, |i: usize| i * 2);
    assert_eq!(v, vec![0, 2, 4, 6, 8]);
}

#[test]
fn generate_empty() {
    let v: Vec<usize> = generate(0, |i: usize| i);
    assert_eq!(v, Vec::<usize>::new());
}

#[test]
fn map_each_preserves_length_and_order() {
    let src = vec![1u32, 2, 3];
    let out = map_each(&src, |x: u32| x + 10);
    assert_eq!(out, vec![11, 12, 13]);
    assert_eq!(src, vec![1, 2, 3]);
}

#[test]
fn concat_lays_b_after_a() {
    let a = vec![1u8, 2];
    let b = vec![3u8, 4, 5];
    assert_eq!(exhaustive::buffer::concat(a, b), vec![1, 2, 3, 4, 5]);
}

#[test]
fn concat_copy_matches_concat() {
    let a = vec![1u8, 2];
    let b = vec![3u8, 4, 5];
    assert_eq!(concat_copy(&a, &b), vec![1, 2, 3, 4, 5]);
    assert_eq!(a.len(), 2);
    assert_eq!(b.len(), 3);
}

#[test]
fn slot_buffer_reinterpret() {
    let mut buf: SlotBuffer<u32> = SlotBuffer::new(3);
    assert_eq!(buf.len(), 3);
    assert!(!buf.is_complete());
    buf.write(1, 20);
    buf.write(0, 10);
    assert!(!buf.is_complete());
    buf.write(2, 30);
    assert!(buf.is_complete());
    assert_eq!(buf.reinterpret(), vec![10, 20, 30]);
}

#[test]
fn slot_buffer_empty_is_complete() {
    let buf: SlotBuffer<u32> = SlotBuffer::new(0);
    assert!(buf.is_complete());
    assert_eq!(buf.reinterpret(), Vec::<u32>::new());
}

#[test]
fn split_index_digits() {
    // 11 under radixes (2, 3, 4): 11 == 0*12 + 2*4 + 3.
    let lengths = vec![2, 3, 4];
    assert_eq!(split_index(11, &lengths), vec![0, 2, 3]);
    assert_eq!(split_index(0, &lengths), vec![0, 0, 0]);
    assert_eq!(split_index(23, &lengths), vec![1, 2, 3]);
}

#[test]
fn split_index_last_digit_fastest() {
    let lengths = vec![2, 2];
    assert_eq!(split_index(0, &lengths), vec![0, 0]);
    assert_eq!(split_index(1, &lengths), vec![0, 1]);
    assert_eq!(split_index(2, &lengths), vec![1, 0]);
    assert_eq!(split_index(3, &lengths), vec![1, 1]);
}

#[test]
fn combine_index_inverts_split_index() {
    let lengths = vec![3, 1, 5, 2];
    for i in 0..30 {
        let digits = split_index(i, &lengths);
        assert_eq!(combine_index(&digits, &lengths), Some(i));
    }
}

#[test]
fn split_index_inverts_combine_index() {
    let lengths = vec![2, 3];
    let digits = vec![1, 2];
    let i = combine_index(&digits, &lengths).unwrap();
    assert_eq!(i, 5);
    assert_eq!(split_index(i, &lengths), digits);
}

#[test]
fn combine_index_overflow_is_none() {
    let lengths = vec![usize::MAX, usize::MAX];
    let digits = vec![usize::MAX - 1, usize::MAX - 1];
    assert_eq!(combine_index(&digits, &lengths), None);
}

#[test]
fn combine_index_empty() {
    assert_eq!(combine_index(&vec![], &vec![]), Some(0));
}
