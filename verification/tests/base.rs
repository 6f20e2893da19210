use rs_binary::base::{
    BinaryController, BinaryError, DefaultBinaryController, PointeredBinary,
};

#[test]
fn test_new_buffer_starts_at_zero() {
    let binary = PointeredBinary::new(vec![1, 2, 3]);
    assert_eq!(binary.get_pointer(), 0);
    assert_eq!(binary.get_data(), &[1, 2, 3]);
}

#[test]
fn test_read_advances_cursor() {
    let mut binary = PointeredBinary::new(vec![1, 2, 3, 4, 5]);
    assert_eq!(binary.read(2), Ok(vec![1, 2]));
    assert_eq!(binary.get_pointer(), 2);
    assert_eq!(binary.read(0), Ok(vec![]));
    assert_eq!(binary.get_pointer(), 2);
    assert_eq!(binary.read(3), Ok(vec![3, 4, 5]));
    assert_eq!(binary.get_pointer(), 5);
    assert_eq!(binary.read(0), Ok(vec![]));
    assert_eq!(binary.get_data(), &[1, 2, 3, 4, 5]);
}

#[test]
fn test_read_beyond_end_leaves_cursor() {
    let mut binary = PointeredBinary::new(vec![1, 2, 3, 4, 5]);
    assert_eq!(binary.read(2), Ok(vec![1, 2]));
    assert_eq!(binary.read(4), Err(BinaryError::OutOfData));
    assert_eq!(binary.get_pointer(), 2);
    assert_eq!(binary.read(usize::MAX), Err(BinaryError::OutOfData));
    assert_eq!(binary.get_pointer(), 2);
    assert_eq!(binary.read(2), Ok(vec![3, 4]));
    assert_eq!(binary.get_pointer(), 4);
}

#[test]
fn test_read_on_empty_buffer() {
    let mut binary = PointeredBinary::new(Vec::new());
    assert_eq!(binary.read(1), Err(BinaryError::OutOfData));
    assert_eq!(binary.read(0), Ok(vec![]));
    assert_eq!(binary.get_pointer(), 0);
}

#[test]
fn test_write_appends_and_ignores_cursor() {
    let mut binary = PointeredBinary::new(vec![1, 2]);
    assert_eq!(binary.read(1), Ok(vec![1]));
    binary.write(vec![3, 4]);
    binary.write(Vec::new());
    assert_eq!(binary.get_data(), &[1, 2, 3, 4]);
    assert_eq!(binary.get_pointer(), 1);
    assert_eq!(binary.read(3), Ok(vec![2, 3, 4]));
}

#[test]
fn test_set_pointer_moves_cursor() {
    let mut binary = PointeredBinary::new(vec![1, 2, 3]);
    binary.set_pointer(2);
    assert_eq!(binary.get_pointer(), 2);
    assert_eq!(binary.read(1), Ok(vec![3]));
    binary.set_pointer(0);
    assert_eq!(binary.read(3), Ok(vec![1, 2, 3]));
    binary.set_pointer(7);
    assert_eq!(binary.read(0), Err(BinaryError::OutOfData));
    assert_eq!(binary.read(1), Err(BinaryError::OutOfData));
    assert_eq!(binary.get_pointer(), 7);
    assert_eq!(binary.get_data(), &[1, 2, 3]);
}

#[test]
fn test_get_data_mut_changes_bytes() {
    let mut binary = PointeredBinary::new(vec![1, 2, 3]);
    assert_eq!(binary.read(1), Ok(vec![1]));
    binary.get_data_mut().push(4);
    binary.get_data_mut()[1] = 9;
    assert_eq!(binary.get_data(), &[1, 9, 3, 4]);
    assert_eq!(binary.get_pointer(), 1);
    assert_eq!(binary.read(3), Ok(vec![9, 3, 4]));
}

#[test]
fn test_default_controller_forwards() {
    let controller = DefaultBinaryController::<u16>::new();
    let encoded = controller.encode(&0x1234).unwrap();
    assert_eq!(encoded.get_data(), &[0x34, 0x12]);
    let mut binary = PointeredBinary::new(vec![0x34, 0x12, 0x56]);
    assert_eq!(controller.decode(&mut binary), Ok(0x1234));
    assert_eq!(binary.get_pointer(), 2);
    assert_eq!(controller.decode(&mut binary), Err(BinaryError::OutOfData));
    assert_eq!(binary.get_pointer(), 2);
}

#[test]
fn test_decode_beyond_end_is_out_of_data() {
    let controller = DefaultBinaryController::<u8>::new();
    let mut binary = PointeredBinary::new(vec![1, 2]);
    binary.set_pointer(3);
    assert_eq!(controller.decode(&mut binary), Err(BinaryError::OutOfData));
    assert_eq!(binary.get_pointer(), 3);
}
