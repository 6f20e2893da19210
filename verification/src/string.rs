//! Controllers for text: one that writes the byte length in front of the
//! bytes, and one that fills a field of fixed length.
//!
//! Text goes out as its UTF-8 bytes. The length-prefixed form reads one
//! character per byte, so only text of single-byte characters comes back as
//! it went in. The fixed-length form cuts text that is too long without
//! complaint, pads short text with zero bytes, and on reading ends the text
//! at the first zero byte.

use crate::base::{
    BinaryController, BinaryError, Codable, Decodable, Encodable, PointeredBinary,
};
use crate::prefix::LengthPrefix;
use std::marker::PhantomData;
use vstd::prelude::*;
use vstd::slice::slice_to_vec;
use vstd::utf8::{
    decode_utf8, encode_utf8, encode_utf8_decode_utf8, encode_utf8_valid_utf8, is_ascii_chars,
    is_ascii_chars_encode_utf8, valid_utf8,
};

verus! {

/// `String::push` of std: the character is appended at the end of the text.
#[verifier::external_body]
fn push_char(text: &mut String, character: char)
    ensures
        final(text)@ == old(text)@.push(character),
{
    text.push(character);
}

/// `String::from_utf8` of std: a string with exactly these bytes where they
/// are valid UTF-8, and nothing where they are not.
#[verifier::external_body]
fn string_from_utf8(bytes: Vec<u8>) -> (result: Option<String>)
    ensures
        result is Some <==> valid_utf8(bytes@),
        result is Some ==> encode_utf8(result->Some_0@) == bytes@,
{
    match String::from_utf8(bytes) {
        Ok(text) => Some(text),
        Err(_) => None,
    }
}

/// The text that has one character for each of `bytes`, the character whose
/// code point is the byte.
pub open spec fn byte_text(bytes: Seq<u8>) -> Seq<char> {
    bytes.map_values(|byte: u8| byte as char)
}

/// The byte length of `text` as a `U`, then the UTF-8 bytes of `text`. A
/// length that `U` cannot hold is an `EncodingRangeError`.
pub open spec fn text_encoding<U: LengthPrefix>(text: Seq<char>) -> Result<Seq<u8>, BinaryError> {
    match U::of_length(encode_utf8(text).len()) {
        None => Err(BinaryError::EncodingRangeError),
        Some(count) => match U::encoding(count) {
            Err(error) => Err(error),
            Ok(head) => Ok(head + encode_utf8(text)),
        },
    }
}

/// What reading a length as a `U` and then that many bytes, one character
/// each, makes of `bytes`. A length that a `usize` cannot hold is an
/// `EncodingRangeError`; one that exceeds the bytes left is `OutOfData`.
pub open spec fn text_decoding<U: LengthPrefix>(bytes: Seq<u8>) -> Result<
    (Seq<char>, nat),
    BinaryError,
> {
    match U::decoding(bytes) {
        Err(error) => Err(error),
        Ok((prefix, width)) => match U::length_of(prefix) {
            None => Err(BinaryError::EncodingRangeError),
            Some(count) => if bytes.len() < width + count {
                Err(BinaryError::OutOfData)
            } else {
                Ok((byte_text(bytes.subrange(width as int, width + count)), (width + count) as nat))
            },
        },
    }
}

/// The text that a length of type `U` in front can carry and that comes back
/// as it went: its length fits `U` and a `usize`, and every character takes
/// one byte.
pub open spec fn text_representable<U: LengthPrefix>(text: Seq<char>) -> bool {
    &&& text.len() <= usize::MAX
    &&& U::of_length(text.len()) is Some
    &&& is_ascii_chars(text)
}

/// Text of single-byte characters whose length fits the prefix is read back
/// from its encoding, whatever follows it.
pub proof fn lemma_text_round_trip<U: LengthPrefix>(text: Seq<char>, rest: Seq<u8>)
    requires
        text_representable::<U>(text),
    ensures
        text_encoding::<U>(text) is Ok,
        text_decoding::<U>(text_encoding::<U>(text)->Ok_0 + rest) == Ok::<_, BinaryError>(
            (text, text_encoding::<U>(text)->Ok_0.len()),
        ),
{
    is_ascii_chars_encode_utf8(text);
    let body = encode_utf8(text);
    U::lemma_length_round_trip(text.len());
    let count = U::of_length(text.len())->Some_0;
    U::lemma_round_trip(count, body + rest);
    let head = U::encoding(count)->Ok_0;
    let whole = (head + body) + rest;
    assert(head + (body + rest) =~= whole);
    assert(whole.subrange(head.len() as int, (head.len() + text.len()) as int) =~= body);
    assert(byte_text(body) =~= text) by {
        assert forall|index: int| 0 <= index < text.len() implies byte_text(body)[index]
            == text[index] by {
            assert(body[index] == text[index] as u8);
        }
    }
}

/// Text that carries its own layout: the byte length as a `U`, then the
/// bytes.
pub struct DynamicString<U: LengthPrefix> {
    data: String,
    _marker: PhantomData<U>,
}

impl<U: LengthPrefix> View for DynamicString<U> {
    type V = Seq<char>;

    /// The characters of the text.
    closed spec fn view(&self) -> Seq<char> {
        self.data@
    }
}

impl<U: LengthPrefix> DeepView for DynamicString<U> {
    type V = Seq<char>;

    /// The characters of the text.
    closed spec fn deep_view(&self) -> Seq<char> {
        self.data@
    }
}

impl<U: LengthPrefix> DynamicString<U> {
    /// The text.
    pub fn get_data(&self) -> (data: &String)
        ensures
            data@ == self@,
            data@ == self.deep_view(),
    {
        &self.data
    }
}

impl<U: LengthPrefix> From<String> for DynamicString<U> {
    fn from(data: String) -> (result: Self)
        ensures
            result@ == data@,
            result.deep_view() == data@,
    {
        DynamicString { data, _marker: PhantomData }
    }
}

impl<U: LengthPrefix> vstd::std_specs::convert::FromSpecImpl<String> for DynamicString<U> {
    open spec fn obeys_from_spec() -> bool {
        true
    }

    closed spec fn from_spec(data: String) -> Self {
        DynamicString { data, _marker: PhantomData }
    }
}

impl<U: LengthPrefix> Encodable for DynamicString<U> {
    open spec fn encoding(value: Seq<char>) -> Result<Seq<u8>, BinaryError> {
        text_encoding::<U>(value)
    }

    fn to_binary(&self) -> (result: Result<PointeredBinary, BinaryError>) {
        let bytes = slice_to_vec(self.data.as_str().as_bytes());
        let length = match U::from_length(bytes.len()) {
            Some(length) => length,
            None => {
                return Err(BinaryError::EncodingRangeError);
            },
        };
        let mut binary = match length.to_binary() {
            Ok(binary) => binary,
            Err(error) => {
                return Err(error);
            },
        };
        binary.write(bytes);
        Ok(binary)
    }
}

impl<U: LengthPrefix> Decodable for DynamicString<U> {
    open spec fn decoding(bytes: Seq<u8>) -> Result<(Seq<char>, nat), BinaryError> {
        text_decoding::<U>(bytes)
    }

    fn from_binary(data: &mut PointeredBinary) -> (result: Result<Self, BinaryError>) {
        let start = data.get_pointer();
        let length = match U::from_binary(data) {
            Ok(length) => length,
            Err(error) => {
                return Err(error);
            },
        };
        let count = match length.to_length() {
            Some(count) => count,
            None => {
                data.set_pointer(start);
                return Err(BinaryError::EncodingRangeError);
            },
        };
        let ghost width = (data.cursor() - start) as nat;
        let bytes = match data.read(count) {
            Ok(bytes) => bytes,
            Err(error) => {
                data.set_pointer(start);
                return Err(error);
            },
        };
        proof {
            assert(bytes@ =~= old(data).remaining().subrange(width as int, width + count));
        }
        let mut string = String::new();
        let mut index: usize = 0;
        while index < bytes.len()
            invariant
                index <= bytes@.len(),
                string@ == byte_text(bytes@.take(index as int)),
            decreases bytes@.len() - index,
        {
            push_char(&mut string, bytes[index] as char);
            index += 1;
            proof {
                assert(string@ =~= byte_text(bytes@.take(index as int)));
            }
        }
        proof {
            assert(bytes@.take(index as int) =~= bytes@);
        }
        Ok(DynamicString { data: string, _marker: PhantomData })
    }
}

impl<U: LengthPrefix> Codable for DynamicString<U> {
    open spec fn representable(value: Seq<char>) -> bool {
        text_representable::<U>(value)
    }

    proof fn lemma_round_trip(value: Seq<char>, rest: Seq<u8>) {
        lemma_text_round_trip::<U>(value, rest);
    }
}

/// A controller that writes the byte length of the text, as a `U`, and then
/// the bytes of the text.
pub struct DynamicStringBinaryController<U: LengthPrefix> {
    _marker: PhantomData<U>,
}

impl<U: LengthPrefix> DynamicStringBinaryController<U> {
    pub fn new() -> Self {
        DynamicStringBinaryController { _marker: PhantomData }
    }
}

impl<U: LengthPrefix> BinaryController<String> for DynamicStringBinaryController<U> {
    open spec fn encoding(&self, value: Seq<char>) -> Result<Seq<u8>, BinaryError> {
        text_encoding::<U>(value)
    }

    open spec fn decoding(&self, bytes: Seq<u8>) -> Result<(Seq<char>, nat), BinaryError> {
        text_decoding::<U>(bytes)
    }

    open spec fn representable(&self, value: Seq<char>) -> bool {
        text_representable::<U>(value)
    }

    fn encode(&self, data: &String) -> (result: Result<PointeredBinary, BinaryError>) {
        let dynamic_string: DynamicString<U> = DynamicString::from(data.clone());
        dynamic_string.to_binary()
    }

    fn decode(&self, data: &mut PointeredBinary) -> (result: Result<String, BinaryError>) {
        match DynamicString::<U>::from_binary(data) {
            Ok(dynamic_string) => Ok(dynamic_string.data),
            Err(error) => Err(error),
        }
    }

    proof fn lemma_round_trip(&self, value: Seq<char>, rest: Seq<u8>) {
        lemma_text_round_trip::<U>(value, rest);
    }
}

/// `bytes` brought to exactly `length` bytes: cut off behind `length` where
/// there are more, filled up with zero bytes where there are fewer.
pub open spec fn padded(bytes: Seq<u8>, length: nat) -> Seq<u8> {
    if bytes.len() >= length {
        bytes.take(length as int)
    } else {
        bytes + Seq::new((length - bytes.len()) as nat, |index: int| 0u8)
    }
}

/// The number of bytes in `field` before its first zero byte, or the length
/// of `field` where it holds none.
pub open spec fn text_end(field: Seq<u8>) -> nat
    decreases field.len(),
{
    if field.len() == 0 || field[0] == 0 {
        0
    } else {
        1 + text_end(field.drop_first())
    }
}

/// No byte of `bytes` is zero.
pub open spec fn zero_free(bytes: Seq<u8>) -> bool {
    forall|index: int| 0 <= index < bytes.len() ==> #[trigger] bytes[index] != 0
}

/// The text of a field ends at `end` where no byte before `end` is zero and
/// `end` is a zero byte or the end of the field.
pub proof fn lemma_text_end(field: Seq<u8>, end: int)
    requires
        0 <= end <= field.len(),
        zero_free(field.take(end)),
        end == field.len() || field[end] == 0,
    ensures
        text_end(field) == end,
    decreases field.len(),
{
    if end > 0 {
        assert(field.take(end)[0] != 0);
        assert(field.drop_first().take(end - 1) =~= field.take(end).drop_first());
        lemma_text_end(field.drop_first(), end - 1);
    }
}

/// A controller for text in a field of fixed byte length.
pub struct SizedStringBinaryController {
    length: usize,
}

impl SizedStringBinaryController {
    /// The byte length of the field.
    pub closed spec fn field_length(&self) -> nat {
        self.length as nat
    }

    pub fn new(length: usize) -> (result: Self)
        ensures
            result.field_length() == length,
    {
        SizedStringBinaryController { length }
    }
}

impl BinaryController<String> for SizedStringBinaryController {
    /// The UTF-8 bytes of the text, cut or zero-padded to the field length.
    /// Text that is too long is cut without an error.
    open spec fn encoding(&self, value: Seq<char>) -> Result<Seq<u8>, BinaryError> {
        Ok(padded(encode_utf8(value), self.field_length()))
    }

    /// The text whose UTF-8 bytes stand in the field before its first zero
    /// byte. `InvalidText` where those bytes are not UTF-8.
    open spec fn decoding(&self, bytes: Seq<u8>) -> Result<(Seq<char>, nat), BinaryError> {
        if bytes.len() < self.field_length() {
            Err(BinaryError::OutOfData)
        } else {
            let field = bytes.take(self.field_length() as int);
            let raw = field.take(text_end(field) as int);
            if valid_utf8(raw) {
                Ok((decode_utf8(raw), self.field_length()))
            } else {
                Err(BinaryError::InvalidText)
            }
        }
    }

    /// Text whose bytes fit the field and hold no zero byte.
    open spec fn representable(&self, value: Seq<char>) -> bool {
        &&& encode_utf8(value).len() <= self.field_length()
        &&& zero_free(encode_utf8(value))
    }

    fn encode(&self, data: &String) -> (result: Result<PointeredBinary, BinaryError>) {
        let mut binary = PointeredBinary::new(Vec::new());
        let mut bytes: Vec<u8> = slice_to_vec(data.as_str().as_bytes());
        let ghost text = bytes@;
        bytes.resize(self.length, 0);
        proof {
            assert(bytes@ =~= padded(text, self.length as nat));
        }
        binary.write(bytes);
        Ok(binary)
    }

    fn decode(&self, data: &mut PointeredBinary) -> (result: Result<String, BinaryError>) {
        let start = data.get_pointer();
        let mut bytes = match data.read(self.length) {
            Ok(bytes) => bytes,
            Err(error) => {
                return Err(error);
            },
        };
        let ghost field = bytes@;
        proof {
            assert(field =~= old(data).remaining().take(self.length as int));
        }
        let mut length: usize = 0;
        while length < bytes.len() && bytes[length] != 0
            invariant
                length <= bytes@.len(),
                bytes@ == field,
                zero_free(field.take(length as int)),
            decreases bytes@.len() - length,
        {
            length += 1;
        }
        proof {
            lemma_text_end(field, length as int);
        }
        bytes.truncate(length);
        proof {
            assert(bytes@ =~= field.take(length as int));
        }
        match string_from_utf8(bytes) {
            Some(string) => {
                proof {
                    encode_utf8_decode_utf8(string@);
                }
                Ok(string)
            },
            None => {
                data.set_pointer(start);
                Err(BinaryError::InvalidText)
            },
        }
    }

    proof fn lemma_round_trip(&self, value: Seq<char>, rest: Seq<u8>) {
        let raw = encode_utf8(value);
        let whole = padded(raw, self.field_length()) + rest;
        let field = whole.take(self.field_length() as int);
        assert(field =~= padded(raw, self.field_length()));
        assert(field.take(raw.len() as int) =~= raw);
        lemma_text_end(field, raw.len() as int);
        encode_utf8_valid_utf8(value);
        encode_utf8_decode_utf8(value);
    }
}

} // verus!
