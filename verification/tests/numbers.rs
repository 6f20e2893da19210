use rs_binary::base::{BinaryError, Codable, Decodable, Encodable, PointeredBinary};

fn round_trip<T: Codable + PartialEq + std::fmt::Debug>(value: T, width: usize) {
    let encoded = value.to_binary().unwrap();
    assert_eq!(encoded.get_data().len(), width);
    assert_eq!(encoded.get_pointer(), 0);
    let mut data = encoded.get_data().clone();
    data.push(0xAA);
    let mut binary = PointeredBinary::new(data);
    let decoded = T::from_binary(&mut binary).unwrap();
    assert_eq!(decoded, value);
    assert_eq!(binary.get_pointer(), width);
}

#[test]
fn test_u8_encodable() {
    let number: u8 = 0x12;
    let encoded = number.to_binary().unwrap();
    let data = encoded.get_data();
    assert_eq!(data, &[0x12]);
}

#[test]
fn test_u8_decodable() {
    let data = vec![0x12];
    let mut binary = PointeredBinary::new(data);
    let number = u8::from_binary(&mut binary).unwrap();
    assert_eq!(number, 0x12);
}

#[test]
fn test_u16_encodable() {
    let number: u16 = 0x1234;
    let encoded = number.to_binary().unwrap();
    let data = encoded.get_data();
    assert_eq!(data, &[0x34, 0x12]);
}

#[test]
fn test_u16_decodable() {
    let data = vec![0x34, 0x12];
    let mut binary = PointeredBinary::new(data);
    let number = u16::from_binary(&mut binary).unwrap();
    assert_eq!(number, 0x1234);
}

#[test]
fn test_i32_encodable() {
    let number: i32 = 0x12345678;
    let encoded = number.to_binary().unwrap();
    let data = encoded.get_data();
    assert_eq!(data, &[0x78, 0x56, 0x34, 0x12]);
}

#[test]
fn test_i32_decodable() {
    let data = vec![0x78, 0x56, 0x34, 0x12];
    let mut binary = PointeredBinary::new(data);
    let number = i32::from_binary(&mut binary).unwrap();
    assert_eq!(number, 0x12345678);
}

#[test]
fn test_f32_encodable() {
    let number: f32 = 3.14;
    let encoded = number.to_bits().to_binary().unwrap();
    let data = encoded.get_data();
    assert_eq!(data, &[0xc3, 0xf5, 0x48, 0x40]);
}

#[test]
fn test_f32_decodable() {
    let data = vec![0xc3, 0xf5, 0x48, 0x40];
    let mut binary = PointeredBinary::new(data);
    let number = f32::from_bits(u32::from_binary(&mut binary).unwrap());
    assert_eq!(number, 3.14);
}

#[test]
fn test_f64_encodable() {
    let number: f64 = 3.14;
    let encoded = number.to_bits().to_binary().unwrap();
    let data = encoded.get_data();
    assert_eq!(data, &[0x1f, 0x85, 0xeb, 0x51, 0xb8, 0x1e, 0x09, 0x40]);
}

#[test]
fn test_f64_decodable() {
    let data = vec![0x1f, 0x85, 0xeb, 0x51, 0xb8, 0x1e, 0x09, 0x40];
    let mut binary = PointeredBinary::new(data);
    let number = f64::from_bits(u64::from_binary(&mut binary).unwrap());
    assert_eq!(number, 3.14);
}

#[test]
fn test_negative_numbers_are_twos_complement() {
    assert_eq!((-1i8).to_binary().unwrap().get_data(), &[0xff]);
    assert_eq!((-2i16).to_binary().unwrap().get_data(), &[0xfe, 0xff]);
    assert_eq!((-2i32).to_binary().unwrap().get_data(), &[0xfe, 0xff, 0xff, 0xff]);
    assert_eq!(i32::MIN.to_binary().unwrap().get_data(), &[0x00, 0x00, 0x00, 0x80]);
    assert_eq!(
        (-2i64).to_binary().unwrap().get_data(),
        &[0xfe, 0xff, 0xff, 0xff, 0xff, 0xff, 0xff, 0xff]
    );
    assert_eq!(
        i64::MIN.to_binary().unwrap().get_data(),
        &[0x00, 0x00, 0x00, 0x00, 0x00, 0x00, 0x00, 0x80]
    );
    let mut binary = PointeredBinary::new(vec![0x00, 0x80, 0xff, 0xff, 0xff, 0x7f]);
    assert_eq!(i16::from_binary(&mut binary), Ok(i16::MIN));
    assert_eq!(i32::from_binary(&mut binary), Ok(0x7fff_ffff));
}

#[test]
fn test_wide_numbers_byte_order() {
    assert_eq!(0x1234_5678u32.to_binary().unwrap().get_data(), &[0x78, 0x56, 0x34, 0x12]);
    assert_eq!(
        0x0102_0304_0506_0708u64.to_binary().unwrap().get_data(),
        &[0x08, 0x07, 0x06, 0x05, 0x04, 0x03, 0x02, 0x01]
    );
    assert_eq!(
        0x0102usize.to_binary().unwrap().get_data(),
        &0x0102usize.to_le_bytes().to_vec()
    );
    let mut binary = PointeredBinary::new(vec![0x08, 0x07, 0x06, 0x05, 0x04, 0x03, 0x02, 0x01]);
    assert_eq!(u64::from_binary(&mut binary), Ok(0x0102_0304_0506_0708));
}

#[test]
fn test_number_round_trips() {
    round_trip(0u8, 1);
    round_trip(u8::MAX, 1);
    round_trip(u16::MAX, 2);
    round_trip(0xdead_beefu32, 4);
    round_trip(u32::MAX, 4);
    round_trip(u64::MAX, 8);
    round_trip(usize::MAX, std::mem::size_of::<usize>());
    round_trip(i8::MIN, 1);
    round_trip(i8::MAX, 1);
    round_trip(-1i8, 1);
    round_trip(i16::MIN, 2);
    round_trip(i16::MAX, 2);
    round_trip(i32::MIN, 4);
    round_trip(i32::MAX, 4);
    round_trip(-123_456i32, 4);
    round_trip(i64::MIN, 8);
    round_trip(i64::MAX, 8);
    round_trip(-1i64, 8);
}

#[test]
fn test_number_out_of_data() {
    let mut binary = PointeredBinary::new(vec![0x01, 0x02, 0x03]);
    assert_eq!(i32::from_binary(&mut binary), Err(BinaryError::OutOfData));
    assert_eq!(binary.get_pointer(), 0);
    assert_eq!(u64::from_binary(&mut binary), Err(BinaryError::OutOfData));
    assert_eq!(binary.get_pointer(), 0);
    assert_eq!(u16::from_binary(&mut binary), Ok(0x0201));
    assert_eq!(binary.get_pointer(), 2);
    assert_eq!(u16::from_binary(&mut binary), Err(BinaryError::OutOfData));
    assert_eq!(binary.get_pointer(), 2);
    assert_eq!(u8::from_binary(&mut binary), Ok(0x03));
    assert_eq!(u8::from_binary(&mut binary), Err(BinaryError::OutOfData));
    assert_eq!(binary.get_pointer(), 3);
}

#[test]
fn test_numbers_decode_in_call_order() {
    let mut binary = PointeredBinary::new(Vec::new());
    binary.write(7u8.to_binary().unwrap().get_data().clone());
    binary.write((-9i32).to_binary().unwrap().get_data().clone());
    binary.write(0xbeefu16.to_binary().unwrap().get_data().clone());
    assert_eq!(binary.get_data(), &[7, 0xf7, 0xff, 0xff, 0xff, 0xef, 0xbe]);
    assert_eq!(u8::from_binary(&mut binary), Ok(7));
    assert_eq!(i32::from_binary(&mut binary), Ok(-9));
    assert_eq!(u16::from_binary(&mut binary), Ok(0xbeef));
    assert_eq!(binary.get_pointer(), 7);
}
