use ring_buffer::RingBuffer;
use ring_buffer::RING_SIZE;

#[test]
fn test_push() {
    let mut buf = RingBuffer::new();
    for i in 0..5 {
        buf.push(i);
    }
    assert_eq!(vec![0, 0, 1, 2, 3, 4], buf.get_all());
    assert_eq!(6, buf.len());
}

#[test]
fn test_push_overflow() {
    let mut buf = RingBuffer::new();
    let mut flag = false;
    for i in 0..12 {
        flag = buf.push(i);
    }
    assert_eq!(vec![2, 3, 4, 5, 6, 7, 8, 9, 10, 11], buf.get_all());
    assert_eq!(true, flag);
    assert_eq!(10, buf.len());

    let get_data = buf.get_all();
    let true_data = vec![2, 3, 4, 5, 6, 7, 8, 9, 10, 11];
    assert_eq!(get_data.len(), true_data.len());
    assert_eq!(vec![2, 3, 4, 5, 6, 7, 8, 9, 10, 11], get_data);
}

#[test]
fn test_append() {
    let mut buf = RingBuffer::new();

    buf.append(&mut vec![1, 2, 3, 4, 5, 6]);
    assert_eq!(buf.len(), 7);
    assert_eq!(vec![0, 1, 2, 3, 4, 5, 6], buf.get_all());
}

#[test]
fn test_shift_l() {
    let mut buf = RingBuffer::new();
    for i in 0..12 {
        buf.push(i);
    }
    buf.shift_l(4).unwrap();
    assert_eq!(vec![6, 7, 8, 9, 10, 11], buf.get_all());
    assert!(buf.shift_l(6).is_err());
}

#[test]
fn test_new_initial_state() {
    let buf = RingBuffer::new();
    assert_eq!(1, buf.len());
    assert_eq!(vec![0], buf.get_all());
    assert_eq!(Some(0), buf.read(0));
    assert_eq!(None, buf.read(1));
}

#[test]
fn test_clear_restores_initial_state() {
    let mut buf = RingBuffer::new();
    for i in 0..12 {
        buf.push(i);
    }
    buf.clear();
    assert_eq!(1, buf.len());
    assert_eq!(vec![0], buf.get_all());
    assert_eq!(Some(0), buf.read(0));
}

#[test]
fn test_len_always_in_range() {
    let mut buf = RingBuffer::new();
    assert!(1 <= buf.len() && buf.len() <= RING_SIZE);
    for i in 0..25 {
        buf.push(i);
        assert!(1 <= buf.len() && buf.len() <= RING_SIZE);
        assert_eq!(buf.get_all().len(), buf.len());
    }
    buf.shift_l(buf.len() - 1).unwrap();
    assert!(1 <= buf.len() && buf.len() <= RING_SIZE);
    assert_eq!(buf.get_all().len(), buf.len());
}

#[test]
fn test_push_below_capacity_never_overflows() {
    let mut buf = RingBuffer::new();
    for i in 0..8 {
        let flag = buf.push(100 + i);
        assert_eq!(false, flag);
    }
    assert_eq!(9, buf.len());
    assert_eq!(vec![0, 100, 101, 102, 103, 104, 105, 106, 107], buf.get_all());
}

#[test]
fn test_push_overflow_flag_boundary() {
    let mut buf = RingBuffer::new();
    for i in 0..9 {
        assert_eq!(false, buf.push(i));
    }
    assert_eq!(RING_SIZE, buf.len());
    assert_eq!(true, buf.push(9));
    assert_eq!(RING_SIZE, buf.len());
    assert_eq!(vec![0, 1, 2, 3, 4, 5, 6, 7, 8, 9], buf.get_all());
}

#[test]
fn test_append_empty_is_noop() {
    let mut buf = RingBuffer::new();
    buf.append(&mut vec![7, 8, 9]);
    let before_len = buf.len();
    let before_data = buf.get_all();
    let flag = buf.append(&mut vec![]);
    assert_eq!(false, flag);
    assert_eq!(before_len, buf.len());
    assert_eq!(before_data, buf.get_all());
}

#[test]
fn test_append_leaves_input_unchanged() {
    let mut buf = RingBuffer::new();
    let mut input = vec![1, 2, 3];
    buf.append(&mut input);
    assert_eq!(vec![1, 2, 3], input);
}

#[test]
fn test_append_overflow_flag_of_last_push() {
    let mut buf = RingBuffer::new();
    assert_eq!(false, buf.append(&mut vec![1, 2, 3, 4, 5, 6, 7, 8, 9]));
    assert_eq!(RING_SIZE, buf.len());
    assert_eq!(true, buf.append(&mut vec![10]));
    assert_eq!(vec![1, 2, 3, 4, 5, 6, 7, 8, 9, 10], buf.get_all());
}

#[test]
fn test_append_past_capacity_keeps_most_recent() {
    let mut buf = RingBuffer::new();
    let flag = buf.append(&mut vec![1, 2, 3, 4, 5, 6, 7, 8, 9, 10, 11, 12]);
    assert_eq!(true, flag);
    assert_eq!(RING_SIZE, buf.len());
    assert_eq!(vec![3, 4, 5, 6, 7, 8, 9, 10, 11, 12], buf.get_all());
}

#[test]
fn test_shift_boundary() {
    let mut buf = RingBuffer::new();
    buf.append(&mut vec![1, 2, 3, 4]);
    let len = buf.len();
    assert!(buf.shift_l(len).is_err());
    assert_eq!(len, buf.len());
    assert_eq!(vec![0, 1, 2, 3, 4], buf.get_all());
    assert!(buf.shift_l(0).is_ok());
    assert_eq!(vec![0, 1, 2, 3, 4], buf.get_all());
    assert!(buf.shift_l(len - 1).is_ok());
    assert_eq!(1, buf.len());
    assert_eq!(vec![4], buf.get_all());
}

#[test]
fn test_shift_error_value() {
    let mut buf = RingBuffer::new();
    assert_eq!(Err("Shift num is out of length."), buf.shift_l(1));
    assert_eq!(Err("Shift num is out of length."), buf.shift_l(100));
    assert_eq!(1, buf.len());
}

#[test]
fn test_shift_then_read() {
    let mut buf = RingBuffer::new();
    for i in 0..12 {
        buf.push(i);
    }
    let at_three = buf.read(3);
    buf.shift_l(3).unwrap();
    assert_eq!(at_three, buf.read(0));
}

#[test]
fn test_read_out_of_range() {
    let mut buf = RingBuffer::new();
    buf.append(&mut vec![5, 6]);
    assert_eq!(None, buf.read(3));
    assert_eq!(None, buf.read(RING_SIZE));
    assert_eq!(None, buf.read(usize::MAX));
}

#[test]
fn test_read_matches_get_all() {
    let mut buf = RingBuffer::new();
    for i in 0..12 {
        buf.push(i);
    }
    buf.shift_l(2).unwrap();
    buf.append(&mut vec![200, 201, 202]);
    let all = buf.get_all();
    assert_eq!(all.len(), buf.len());
    for i in 0..all.len() {
        assert_eq!(Some(all[i]), buf.read(i));
    }
    assert_eq!(None, buf.read(all.len()));
}

#[test]
fn test_wraparound_read_order() {
    let mut buf = RingBuffer::new();
    for i in 0..15 {
        buf.push(i);
    }
    assert_eq!(vec![5, 6, 7, 8, 9, 10, 11, 12, 13, 14], buf.get_all());
    assert_eq!(Some(5), buf.read(0));
    assert_eq!(Some(14), buf.read(9));
}
