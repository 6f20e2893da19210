use rs_binary::base::{
    BinaryController, BinaryError, Decodable, Encodable, PointeredBinary,
};
use rs_binary::string::{
    DynamicString, DynamicStringBinaryController, SizedStringBinaryController,
};

#[test]
fn test_dynamic_string_encodable() {
    let string = "Hello, World!".to_string();
    let dynamic_string: DynamicString<u8> = string.into();
    let encoded = dynamic_string.to_binary().unwrap();
    let data = encoded.get_data();
    assert_eq!(
        data,
        &[13, 72, 101, 108, 108, 111, 44, 32, 87, 111, 114, 108, 100, 33]
    );
}

#[test]
fn test_dynamic_string_decodable() {
    let data = vec![
        13, 72, 101, 108, 108, 111, 44, 32, 87, 111, 114, 108, 100, 33,
    ];
    let mut binary = PointeredBinary::new(data);
    let dynamic_string = DynamicString::<u8>::from_binary(&mut binary).unwrap();
    assert_eq!(dynamic_string.get_data(), "Hello, World!");
}

#[test]
fn test_dynamic_u16_string_encodable() {
    let string = "Hello, World!".to_string();
    let dynamic_string: DynamicString<u16> = string.into();
    let encoded = dynamic_string.to_binary().unwrap();
    let data = encoded.get_data();
    assert_eq!(
        data,
        &[13, 0, 72, 101, 108, 108, 111, 44, 32, 87, 111, 114, 108, 100, 33]
    );
}

#[test]
fn test_dynamic_u16_string_decodable() {
    let data = vec![
        13, 0, 72, 101, 108, 108, 111, 44, 32, 87, 111, 114, 108, 100, 33,
    ];
    let mut binary = PointeredBinary::new(data);
    let dynamic_string = DynamicString::<u16>::from_binary(&mut binary).unwrap();
    assert_eq!(dynamic_string.get_data(), "Hello, World!");
}

#[test]
fn test_dynamic_u8_string_binary_controller() {
    let string = "Hello, World!".to_string();
    let controller = DynamicStringBinaryController::<u8>::new();
    let encoded = controller.encode(&string.clone()).unwrap();
    let data = encoded.get_data();
    assert_eq!(
        data,
        &[13, 72, 101, 108, 108, 111, 44, 32, 87, 111, 114, 108, 100, 33]
    );
    let mut binary = PointeredBinary::new(encoded.get_data().clone());

    let decoded = controller.decode(&mut binary).unwrap();
    assert_eq!(decoded, string);
}

#[test]
fn test_dynamic_u16_string_binary_controller() {
    let string = "Hello, World!".to_string();
    let controller = DynamicStringBinaryController::<u16>::new();
    let encoded = controller.encode(&string.clone()).unwrap();
    let data: &Vec<u8> = encoded.get_data();
    assert_eq!(
        data,
        &[13, 0, 72, 101, 108, 108, 111, 44, 32, 87, 111, 114, 108, 100, 33]
    );
    let mut binary = PointeredBinary::new(encoded.get_data().clone());

    let decoded = controller.decode(&mut binary).unwrap();
    assert_eq!(decoded, string);
}

#[test]
fn test_sized_string_encodable() {
    let string = "Hello, World!".to_string();
    let controller = SizedStringBinaryController::new(20);
    let encoded = controller.encode(&string.clone()).unwrap();
    let data = encoded.get_data();
    assert_eq!(
        data,
        &[
            72, 101, 108, 108, 111, 44, 32, 87, 111, 114, 108, 100, 33, 0, 0, 0, 0, 0, 0, 0
        ]
    );
}

#[test]
fn test_sized_string_decodable() {
    let data = vec![
        72, 101, 108, 108, 111, 44, 32, 87, 111, 114, 108, 100, 33, 0, 0, 0, 0, 0, 0, 0,
    ];
    let mut binary = PointeredBinary::new(data);
    let controller = SizedStringBinaryController::new(20);
    let decoded = controller.decode(&mut binary).unwrap();
    assert_eq!(decoded, "Hello, World!");
}

#[test]
fn test_dynamic_string_empty() {
    let controller = DynamicStringBinaryController::<u16>::new();
    let encoded = controller.encode(&String::new()).unwrap();
    assert_eq!(encoded.get_data(), &[0, 0]);
    let mut binary = PointeredBinary::new(vec![0, 0, 65]);
    assert_eq!(controller.decode(&mut binary), Ok(String::new()));
    assert_eq!(binary.get_pointer(), 2);
}

#[test]
fn test_dynamic_string_one_character_per_byte() {
    let controller = DynamicStringBinaryController::<u8>::new();
    let mut binary = PointeredBinary::new(vec![3, 0x41, 0xe9, 0x00, 0x42]);
    assert_eq!(controller.decode(&mut binary), Ok("A\u{e9}\u{0}".to_string()));
    assert_eq!(binary.get_pointer(), 4);

    let encoded = controller.encode(&"\u{e9}".to_string()).unwrap();
    assert_eq!(encoded.get_data(), &[2, 0xc3, 0xa9]);
    let mut binary = PointeredBinary::new(encoded.get_data().clone());
    assert_eq!(controller.decode(&mut binary), Ok("\u{c3}\u{a9}".to_string()));
}

#[test]
fn test_dynamic_string_length_too_large_for_prefix() {
    let controller = DynamicStringBinaryController::<u8>::new();
    let longest = "a".repeat(255);
    let encoded = controller.encode(&longest).unwrap();
    assert_eq!(encoded.get_data().len(), 256);
    let mut binary = PointeredBinary::new(encoded.get_data().clone());
    assert_eq!(controller.decode(&mut binary), Ok(longest));
    let too_long = "a".repeat(256);
    assert_eq!(controller.encode(&too_long).err(), Some(BinaryError::EncodingRangeError));
    let dynamic_string: DynamicString<i8> = "a".repeat(128).into();
    assert_eq!(dynamic_string.to_binary().err(), Some(BinaryError::EncodingRangeError));
}

#[test]
fn test_dynamic_string_out_of_data_restores_cursor() {
    let controller = DynamicStringBinaryController::<u8>::new();
    let mut binary = PointeredBinary::new(vec![9, 5, 72, 101, 108]);
    assert_eq!(binary.read(1), Ok(vec![9]));
    assert_eq!(controller.decode(&mut binary), Err(BinaryError::OutOfData));
    assert_eq!(binary.get_pointer(), 1);
    let wide = DynamicStringBinaryController::<u32>::new();
    assert_eq!(wide.decode(&mut binary), Err(BinaryError::OutOfData));
    assert_eq!(binary.get_pointer(), 1);
    assert_eq!(binary.read(1), Ok(vec![5]));
}

#[test]
fn test_dynamic_string_negative_length() {
    let controller = DynamicStringBinaryController::<i16>::new();
    let mut binary = PointeredBinary::new(vec![0xff, 0xff, 65, 66]);
    assert_eq!(controller.decode(&mut binary), Err(BinaryError::EncodingRangeError));
    assert_eq!(binary.get_pointer(), 0);
}

#[test]
fn test_sized_string_round_trip() {
    let controller = SizedStringBinaryController::new(20);
    let string = "Hello, World!".to_string();
    let encoded = controller.encode(&string).unwrap();
    let mut data = encoded.get_data().clone();
    data.push(0x41);
    let mut binary = PointeredBinary::new(data);
    assert_eq!(controller.decode(&mut binary), Ok(string));
    assert_eq!(binary.get_pointer(), 20);
}

#[test]
fn test_sized_string_of_exact_length() {
    let controller = SizedStringBinaryController::new(5);
    let encoded = controller.encode(&"Hello".to_string()).unwrap();
    assert_eq!(encoded.get_data(), &[72, 101, 108, 108, 111]);
    let mut binary = PointeredBinary::new(vec![72, 101, 108, 108, 111, 33]);
    assert_eq!(controller.decode(&mut binary), Ok("Hello".to_string()));
    assert_eq!(binary.get_pointer(), 5);
}

#[test]
fn test_sized_string_truncates_silently() {
    let controller = SizedStringBinaryController::new(5);
    let encoded = controller.encode(&"Hello, World!".to_string()).unwrap();
    assert_eq!(encoded.get_data(), &[72, 101, 108, 108, 111]);
    let empty = SizedStringBinaryController::new(0);
    assert_eq!(empty.encode(&"Hello".to_string()).unwrap().get_data(), &Vec::<u8>::new());
    let mut binary = PointeredBinary::new(vec![1]);
    assert_eq!(empty.decode(&mut binary), Ok(String::new()));
    assert_eq!(binary.get_pointer(), 0);
}

#[test]
fn test_sized_string_stops_at_first_zero() {
    let controller = SizedStringBinaryController::new(6);
    let encoded = controller.encode(&"ab\u{0}cd".to_string()).unwrap();
    assert_eq!(encoded.get_data(), &[97, 98, 0, 99, 100, 0]);
    let mut binary = PointeredBinary::new(encoded.get_data().clone());
    assert_eq!(controller.decode(&mut binary), Ok("ab".to_string()));
    assert_eq!(binary.get_pointer(), 6);
    let mut zeros = PointeredBinary::new(vec![0, 0xff, 0xff, 0xff, 0xff, 0xff]);
    assert_eq!(controller.decode(&mut zeros), Ok(String::new()));
}

#[test]
fn test_sized_string_multi_byte_text() {
    let controller = SizedStringBinaryController::new(8);
    let string = "h\u{e9}\u{20ac}".to_string();
    let encoded = controller.encode(&string).unwrap();
    assert_eq!(encoded.get_data(), &[0x68, 0xc3, 0xa9, 0xe2, 0x82, 0xac, 0, 0]);
    let mut binary = PointeredBinary::new(encoded.get_data().clone());
    assert_eq!(controller.decode(&mut binary), Ok(string));
}

#[test]
fn test_sized_string_invalid_text() {
    let controller = SizedStringBinaryController::new(4);
    let mut binary = PointeredBinary::new(vec![7, 0x41, 0xff, 0x42, 0x00, 0x43]);
    assert_eq!(binary.read(1), Ok(vec![7]));
    assert_eq!(controller.decode(&mut binary), Err(BinaryError::InvalidText));
    assert_eq!(binary.get_pointer(), 1);

    let cut = SizedStringBinaryController::new(2);
    let encoded = cut.encode(&"a\u{20ac}".to_string()).unwrap();
    assert_eq!(encoded.get_data(), &[0x61, 0xe2]);
    let mut binary = PointeredBinary::new(encoded.get_data().clone());
    assert_eq!(cut.decode(&mut binary), Err(BinaryError::InvalidText));
    assert_eq!(binary.get_pointer(), 0);
}

#[test]
fn test_sized_string_out_of_data() {
    let controller = SizedStringBinaryController::new(4);
    let mut binary = PointeredBinary::new(vec![72, 105, 0]);
    assert_eq!(controller.decode(&mut binary), Err(BinaryError::OutOfData));
    assert_eq!(binary.get_pointer(), 0);
    let shorter = SizedStringBinaryController::new(3);
    assert_eq!(shorter.decode(&mut binary), Ok("Hi".to_string()));
    assert_eq!(binary.get_pointer(), 3);
}
