//! Fixed-width little-endian codecs of the integer types.
//!
//! A number is laid out as the bytes of its bit pattern, least significant
//! first; a signed number in two's complement. The width belongs to the type
//! and is never written.

use crate::base::{BinaryError, Codable, Decodable, Encodable, PointeredBinary};
use vstd::prelude::*;

verus! {

/// The number of values that `width` bytes can hold: 256 to the power `width`.
pub open spec fn radix(width: nat) -> nat
    decreases width,
{
    if width == 0 {
        1
    } else {
        256 * radix((width - 1) as nat)
    }
}

/// The `width` low-order base-256 digits of `value`, least significant first.
/// Division rounds down, so a negative `value` comes out in two's complement.
pub open spec fn le_bytes(value: int, width: nat) -> Seq<u8>
    decreases width,
{
    if width == 0 {
        Seq::empty()
    } else {
        seq![(value % 256) as u8] + le_bytes(value / 256, (width - 1) as nat)
    }
}

/// The number whose base-256 digits, least significant first, are `bytes`.
pub open spec fn le_value(bytes: Seq<u8>) -> nat
    decreases bytes.len(),
{
    if bytes.len() == 0 {
        0
    } else {
        bytes[0] as nat + 256 * le_value(bytes.drop_first())
    }
}

/// The number that `bytes` stand for in two's complement.
pub open spec fn le_signed(bytes: Seq<u8>) -> int {
    let value = le_value(bytes);
    if 2 * value >= radix(bytes.len()) {
        value - radix(bytes.len())
    } else {
        value as int
    }
}

/// The width in bytes of a `usize` on the machine at hand.
pub open spec fn usize_width() -> nat {
    (usize::BITS / 8) as nat
}

/// The radix of the widths that the integer types have.
pub proof fn lemma_radix_values()
    ensures
        radix(0) == 1,
        radix(1) == 0x100,
        radix(2) == 0x1_0000,
        radix(4) == 0x1_0000_0000,
        radix(8) == 0x1_0000_0000_0000_0000,
{
    reveal_with_fuel(radix, 9);
}

/// More bytes hold more values, and even no byte holds one.
pub proof fn lemma_radix_monotonic(small: nat, large: nat)
    requires
        small <= large,
    ensures
        0 < radix(small) <= radix(large),
    decreases large,
{
    if small < large {
        lemma_radix_monotonic(small, (large - 1) as nat);
    } else if small > 0 {
        lemma_radix_monotonic((small - 1) as nat, (large - 1) as nat);
    }
}

/// A number is laid out in exactly `width` bytes.
pub proof fn lemma_le_bytes_len(value: int, width: nat)
    ensures
        le_bytes(value, width).len() == width,
    decreases width,
{
    if width > 0 {
        lemma_le_bytes_len(value / 256, (width - 1) as nat);
    }
}

/// Every sequence of bytes stands for a number below the radix of its length.
pub proof fn lemma_le_value_bound(bytes: Seq<u8>)
    ensures
        le_value(bytes) < radix(bytes.len()),
    decreases bytes.len(),
{
    if bytes.len() > 0 {
        lemma_le_value_bound(bytes.drop_first());
    }
}

/// The digits of a number that fits in `width` bytes give the number back.
pub proof fn lemma_le_value_of_bytes(value: int, width: nat)
    requires
        0 <= value < radix(width),
    ensures
        le_value(le_bytes(value, width)) == value,
    decreases width,
{
    if width > 0 {
        let tail = le_bytes(value / 256, (width - 1) as nat);
        lemma_le_value_of_bytes(value / 256, (width - 1) as nat);
        assert(le_bytes(value, width).drop_first() =~= tail);
    }
}

/// Numbers that differ by the radix have the same digits: the bit pattern of
/// a negative number is that of the number plus the radix.
pub proof fn lemma_le_bytes_wraps(value: int, width: nat)
    ensures
        le_bytes(value + radix(width), width) == le_bytes(value, width),
    decreases width,
{
    if width > 0 {
        let rest = radix((width - 1) as nat);
        assert((value + 256 * rest) % 256 == value % 256);
        assert((value + 256 * rest) / 256 == value / 256 + rest);
        lemma_le_bytes_wraps(value / 256, (width - 1) as nat);
    }
}

/// The `width` low-order bytes of `pattern`, least significant first.
pub fn le_encode(pattern: u64, width: usize) -> (bytes: Vec<u8>)
    ensures
        bytes@ == le_bytes(pattern as int, width as nat),
{
    let mut bytes: Vec<u8> = Vec::new();
    let mut rest: u64 = pattern;
    let mut index: usize = 0;
    while index < width
        invariant
            index <= width,
            bytes@ + le_bytes(rest as int, (width - index) as nat) == le_bytes(
                pattern as int,
                width as nat,
            ),
        decreases width - index,
    {
        let ghost before = bytes@;
        let ghost tail = le_bytes(rest as int / 256, (width - index - 1) as nat);
        bytes.push((rest % 256) as u8);
        assert(bytes@ + tail =~= before + (seq![(rest % 256) as u8] + tail));
        rest = rest / 256;
        index += 1;
    }
    bytes
}

/// The number whose little-endian digits are `bytes`, of which there are at
/// most eight: more do not fit a `u64`.
pub fn le_decode(bytes: &Vec<u8>) -> (value: u64)
    requires
        bytes@.len() <= 8,
    ensures
        value == le_value(bytes@),
        value < radix(bytes@.len()),
{
    let mut value: u64 = 0;
    let mut index: usize = bytes.len();
    while index > 0
        invariant
            index <= bytes@.len() <= 8,
            value == le_value(bytes@.skip(index as int)),
        decreases index,
    {
        proof {
            let read = bytes@.skip(index as int);
            lemma_le_value_bound(read);
            lemma_radix_monotonic(read.len() + 1, 8);
            lemma_radix_values();
            assert(bytes@.skip(index - 1).drop_first() =~= read);
        }
        index -= 1;
        value = value * 256 + bytes[index] as u64;
    }
    proof {
        assert(bytes@.skip(0) =~= bytes@);
        lemma_le_value_bound(bytes@);
    }
    value
}

/// Reads `width` bytes at the cursor as one little-endian number.
fn read_le(data: &mut PointeredBinary, width: usize) -> (result: Result<u64, BinaryError>)
    requires
        width <= 8,
    ensures
        final(data)@ == old(data)@,
        old(data).cursor() + width <= old(data)@.len() ==> {
            &&& result is Ok
            &&& result->Ok_0 == le_value(old(data).remaining().take(width as int))
            &&& result->Ok_0 < radix(width as nat)
            &&& final(data).cursor() == old(data).cursor() + width
        },
        old(data).cursor() + width > old(data)@.len() ==> {
            &&& result == Err::<u64, BinaryError>(BinaryError::OutOfData)
            &&& final(data).cursor() == old(data).cursor()
        },
{
    match data.read(width) {
        Ok(bytes) => {
            assert(bytes@ =~= old(data).remaining().take(width as int));
            Ok(le_decode(&bytes))
        },
        Err(error) => Err(error),
    }
}

/// A number that fits in `width` bytes is read back from its digits, whatever
/// follows them.
pub proof fn lemma_unsigned_round_trip(value: int, width: nat, rest: Seq<u8>)
    requires
        0 <= value < radix(width),
    ensures
        le_bytes(value, width).len() == width,
        le_value((le_bytes(value, width) + rest).take(width as int)) == value,
{
    lemma_le_bytes_len(value, width);
    lemma_le_value_of_bytes(value, width);
    assert((le_bytes(value, width) + rest).take(width as int) =~= le_bytes(value, width));
}

/// A number within the two's complement range of `width` bytes is read back
/// from its digits, whatever follows them.
pub proof fn lemma_signed_round_trip(value: int, width: nat, rest: Seq<u8>)
    requires
        -radix(width) <= 2 * value < radix(width),
    ensures
        le_bytes(value, width).len() == width,
        le_signed((le_bytes(value, width) + rest).take(width as int)) == value,
{
    lemma_le_bytes_len(value, width);
    assert((le_bytes(value, width) + rest).take(width as int) =~= le_bytes(value, width));
    if value >= 0 {
        lemma_le_value_of_bytes(value, width);
    } else {
        lemma_le_bytes_wraps(value, width);
        lemma_le_value_of_bytes(value + radix(width), width);
    }
}

impl Encodable for u8 {
    open spec fn encoding(value: u8) -> Result<Seq<u8>, BinaryError> {
        Ok(le_bytes(value as int, 1))
    }

    fn to_binary(&self) -> (result: Result<PointeredBinary, BinaryError>) {
        Ok(PointeredBinary::new(le_encode(*self as u64, 1)))
    }
}

impl Decodable for u8 {
    open spec fn decoding(bytes: Seq<u8>) -> Result<(u8, nat), BinaryError> {
        if bytes.len() < 1 {
            Err(BinaryError::OutOfData)
        } else {
            Ok((le_value(bytes.take(1)) as u8, 1))
        }
    }

    fn from_binary(data: &mut PointeredBinary) -> (result: Result<Self, BinaryError>) {
        proof {
            lemma_radix_values();
        }
        match read_le(data, 1) {
            Ok(pattern) => Ok(pattern as u8),
            Err(error) => Err(error),
        }
    }
}

impl Codable for u8 {
    open spec fn representable(value: u8) -> bool {
        true
    }

    proof fn lemma_round_trip(value: u8, rest: Seq<u8>) {
        lemma_radix_values();
        lemma_unsigned_round_trip(value as int, 1, rest);
    }
}

impl Encodable for u16 {
    open spec fn encoding(value: u16) -> Result<Seq<u8>, BinaryError> {
        Ok(le_bytes(value as int, 2))
    }

    fn to_binary(&self) -> (result: Result<PointeredBinary, BinaryError>) {
        Ok(PointeredBinary::new(le_encode(*self as u64, 2)))
    }
}

impl Decodable for u16 {
    open spec fn decoding(bytes: Seq<u8>) -> Result<(u16, nat), BinaryError> {
        if bytes.len() < 2 {
            Err(BinaryError::OutOfData)
        } else {
            Ok((le_value(bytes.take(2)) as u16, 2))
        }
    }

    fn from_binary(data: &mut PointeredBinary) -> (result: Result<Self, BinaryError>) {
        proof {
            lemma_radix_values();
        }
        match read_le(data, 2) {
            Ok(pattern) => Ok(pattern as u16),
            Err(error) => Err(error),
        }
    }
}

impl Codable for u16 {
    open spec fn representable(value: u16) -> bool {
        true
    }

    proof fn lemma_round_trip(value: u16, rest: Seq<u8>) {
        lemma_radix_values();
        lemma_unsigned_round_trip(value as int, 2, rest);
    }
}

impl Encodable for u32 {
    open spec fn encoding(value: u32) -> Result<Seq<u8>, BinaryError> {
        Ok(le_bytes(value as int, 4))
    }

    fn to_binary(&self) -> (result: Result<PointeredBinary, BinaryError>) {
        Ok(PointeredBinary::new(le_encode(*self as u64, 4)))
    }
}

impl Decodable for u32 {
    open spec fn decoding(bytes: Seq<u8>) -> Result<(u32, nat), BinaryError> {
        if bytes.len() < 4 {
            Err(BinaryError::OutOfData)
        } else {
            Ok((le_value(bytes.take(4)) as u32, 4))
        }
    }

    fn from_binary(data: &mut PointeredBinary) -> (result: Result<Self, BinaryError>) {
        proof {
            lemma_radix_values();
        }
        match read_le(data, 4) {
            Ok(pattern) => Ok(pattern as u32),
            Err(error) => Err(error),
        }
    }
}

impl Codable for u32 {
    open spec fn representable(value: u32) -> bool {
        true
    }

    proof fn lemma_round_trip(value: u32, rest: Seq<u8>) {
        lemma_radix_values();
        lemma_unsigned_round_trip(value as int, 4, rest);
    }
}

impl Encodable for u64 {
    open spec fn encoding(value: u64) -> Result<Seq<u8>, BinaryError> {
        Ok(le_bytes(value as int, 8))
    }

    fn to_binary(&self) -> (result: Result<PointeredBinary, BinaryError>) {
        Ok(PointeredBinary::new(le_encode(*self, 8)))
    }
}

impl Decodable for u64 {
    open spec fn decoding(bytes: Seq<u8>) -> Result<(u64, nat), BinaryError> {
        if bytes.len() < 8 {
            Err(BinaryError::OutOfData)
        } else {
            Ok((le_value(bytes.take(8)) as u64, 8))
        }
    }

    fn from_binary(data: &mut PointeredBinary) -> (result: Result<Self, BinaryError>) {
        proof {
            lemma_radix_values();
        }
        match read_le(data, 8) {
            Ok(pattern) => Ok(pattern),
            Err(error) => Err(error),
        }
    }
}

impl Codable for u64 {
    open spec fn representable(value: u64) -> bool {
        true
    }

    proof fn lemma_round_trip(value: u64, rest: Seq<u8>) {
        lemma_radix_values();
        lemma_unsigned_round_trip(value as int, 8, rest);
    }
}

/// A `usize` holds exactly the numbers below the radix of its width.
pub proof fn lemma_usize_radix()
    ensures
        usize_width() == 4 || usize_width() == 8,
        radix(usize_width()) == usize::MAX + 1,
{
    lemma_radix_values();
}

impl Encodable for usize {
    open spec fn encoding(value: usize) -> Result<Seq<u8>, BinaryError> {
        Ok(le_bytes(value as int, usize_width()))
    }

    fn to_binary(&self) -> (result: Result<PointeredBinary, BinaryError>) {
        Ok(PointeredBinary::new(le_encode(*self as u64, (usize::BITS / 8) as usize)))
    }
}

impl Decodable for usize {
    open spec fn decoding(bytes: Seq<u8>) -> Result<(usize, nat), BinaryError> {
        if bytes.len() < usize_width() {
            Err(BinaryError::OutOfData)
        } else {
            Ok((le_value(bytes.take(usize_width() as int)) as usize, usize_width()))
        }
    }

    fn from_binary(data: &mut PointeredBinary) -> (result: Result<Self, BinaryError>) {
        proof {
            lemma_usize_radix();
        }
        match read_le(data, (usize::BITS / 8) as usize) {
            Ok(pattern) => Ok(pattern as usize),
            Err(error) => Err(error),
        }
    }
}

impl Codable for usize {
    open spec fn representable(value: usize) -> bool {
        true
    }

    proof fn lemma_round_trip(value: usize, rest: Seq<u8>) {
        lemma_usize_radix();
        lemma_unsigned_round_trip(value as int, usize_width(), rest);
    }
}

impl Encodable for i8 {
    open spec fn encoding(value: i8) -> Result<Seq<u8>, BinaryError> {
        Ok(le_bytes(value as int, 1))
    }

    fn to_binary(&self) -> (result: Result<PointeredBinary, BinaryError>) {
        let pattern: u64 = if *self >= 0 {
            *self as u64
        } else {
            (*self as i64 + 0x100) as u64
        };
        proof {
            lemma_radix_values();
            lemma_le_bytes_wraps(*self as int, 1);
        }
        Ok(PointeredBinary::new(le_encode(pattern, 1)))
    }
}

impl Decodable for i8 {
    open spec fn decoding(bytes: Seq<u8>) -> Result<(i8, nat), BinaryError> {
        if bytes.len() < 1 {
            Err(BinaryError::OutOfData)
        } else {
            Ok((le_signed(bytes.take(1)) as i8, 1))
        }
    }

    fn from_binary(data: &mut PointeredBinary) -> (result: Result<Self, BinaryError>) {
        proof {
            lemma_radix_values();
        }
        match read_le(data, 1) {
            Ok(pattern) => Ok(
                if pattern >= 0x80 {
                    (pattern as i64 - 0x100) as i8
                } else {
                    pattern as i8
                },
            ),
            Err(error) => Err(error),
        }
    }
}

impl Codable for i8 {
    open spec fn representable(value: i8) -> bool {
        true
    }

    proof fn lemma_round_trip(value: i8, rest: Seq<u8>) {
        lemma_radix_values();
        lemma_signed_round_trip(value as int, 1, rest);
    }
}

impl Encodable for i16 {
    open spec fn encoding(value: i16) -> Result<Seq<u8>, BinaryError> {
        Ok(le_bytes(value as int, 2))
    }

    fn to_binary(&self) -> (result: Result<PointeredBinary, BinaryError>) {
        let pattern: u64 = if *self >= 0 {
            *self as u64
        } else {
            (*self as i64 + 0x1_0000) as u64
        };
        proof {
            lemma_radix_values();
            lemma_le_bytes_wraps(*self as int, 2);
        }
        Ok(PointeredBinary::new(le_encode(pattern, 2)))
    }
}

impl Decodable for i16 {
    open spec fn decoding(bytes: Seq<u8>) -> Result<(i16, nat), BinaryError> {
        if bytes.len() < 2 {
            Err(BinaryError::OutOfData)
        } else {
            Ok((le_signed(bytes.take(2)) as i16, 2))
        }
    }

    fn from_binary(data: &mut PointeredBinary) -> (result: Result<Self, BinaryError>) {
        proof {
            lemma_radix_values();
        }
        match read_le(data, 2) {
            Ok(pattern) => Ok(
                if pattern >= 0x8000 {
                    (pattern as i64 - 0x1_0000) as i16
                } else {
                    pattern as i16
                },
            ),
            Err(error) => Err(error),
        }
    }
}

impl Codable for i16 {
    open spec fn representable(value: i16) -> bool {
        true
    }

    proof fn lemma_round_trip(value: i16, rest: Seq<u8>) {
        lemma_radix_values();
        lemma_signed_round_trip(value as int, 2, rest);
    }
}

impl Encodable for i32 {
    open spec fn encoding(value: i32) -> Result<Seq<u8>, BinaryError> {
        Ok(le_bytes(value as int, 4))
    }

    fn to_binary(&self) -> (result: Result<PointeredBinary, BinaryError>) {
        let pattern: u64 = if *self >= 0 {
            *self as u64
        } else {
            (*self as i64 + 0x1_0000_0000) as u64
        };
        proof {
            lemma_radix_values();
            lemma_le_bytes_wraps(*self as int, 4);
        }
        Ok(PointeredBinary::new(le_encode(pattern, 4)))
    }
}

impl Decodable for i32 {
    open spec fn decoding(bytes: Seq<u8>) -> Result<(i32, nat), BinaryError> {
        if bytes.len() < 4 {
            Err(BinaryError::OutOfData)
        } else {
            Ok((le_signed(bytes.take(4)) as i32, 4))
        }
    }

    fn from_binary(data: &mut PointeredBinary) -> (result: Result<Self, BinaryError>) {
        proof {
            lemma_radix_values();
        }
        match read_le(data, 4) {
            Ok(pattern) => Ok(
                if pattern >= 0x8000_0000 {
                    (pattern as i64 - 0x1_0000_0000) as i32
                } else {
                    pattern as i32
                },
            ),
            Err(error) => Err(error),
        }
    }
}

impl Codable for i32 {
    open spec fn representable(value: i32) -> bool {
        true
    }

    proof fn lemma_round_trip(value: i32, rest: Seq<u8>) {
        lemma_radix_values();
        lemma_signed_round_trip(value as int, 4, rest);
    }
}

impl Encodable for i64 {
    open spec fn encoding(value: i64) -> Result<Seq<u8>, BinaryError> {
        Ok(le_bytes(value as int, 8))
    }

    fn to_binary(&self) -> (result: Result<PointeredBinary, BinaryError>) {
        let pattern: u64 = if *self >= 0 {
            *self as u64
        } else {
            (*self - i64::MIN) as u64 + 0x8000_0000_0000_0000
        };
        proof {
            lemma_radix_values();
            lemma_le_bytes_wraps(*self as int, 8);
        }
        Ok(PointeredBinary::new(le_encode(pattern, 8)))
    }
}

impl Decodable for i64 {
    open spec fn decoding(bytes: Seq<u8>) -> Result<(i64, nat), BinaryError> {
        if bytes.len() < 8 {
            Err(BinaryError::OutOfData)
        } else {
            Ok((le_signed(bytes.take(8)) as i64, 8))
        }
    }

    fn from_binary(data: &mut PointeredBinary) -> (result: Result<Self, BinaryError>) {
        proof {
            lemma_radix_values();
        }
        match read_le(data, 8) {
            Ok(pattern) => Ok(
                if pattern >= 0x8000_0000_0000_0000 {
                    (pattern - 0x8000_0000_0000_0000) as i64 + i64::MIN
                } else {
                    pattern as i64
                },
            ),
            Err(error) => Err(error),
        }
    }
}

impl Codable for i64 {
    open spec fn representable(value: i64) -> bool {
        true
    }

    proof fn lemma_round_trip(value: i64, rest: Seq<u8>) {
        lemma_radix_values();
        lemma_signed_round_trip(value as int, 8, rest);
    }
}

} // verus!
