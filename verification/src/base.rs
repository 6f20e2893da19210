//! The byte buffer with its read cursor, and the traits through which values
//! are turned into bytes and back.

use vstd::prelude::*;

verus! {

/// Why an encode or decode call gave no result.
#[derive(Debug, Clone, Copy, PartialEq, Eq, Structural)]
pub enum BinaryError {
    /// A read asked for more bytes than remain after the cursor.
    OutOfData,
    /// A count or length does not fit: on encode into the prefix type, on
    /// decode into `usize`.
    EncodingRangeError,
    /// A fixed-count array was given fewer elements than its count.
    LengthMismatch,
    /// The bytes recovered by a decode are not valid UTF-8.
    InvalidText,
}

/// A growable sequence of bytes and a read cursor into it.
///
/// Reads consume forward from the cursor; writes append at the end and never
/// look at the cursor.
#[derive(Debug)]
pub struct PointeredBinary {
    data: Vec<u8>,
    pointer: usize,
}

impl View for PointeredBinary {
    type V = Seq<u8>;

    /// All the bytes of the buffer, read or not.
    closed spec fn view(&self) -> Seq<u8> {
        self.data@
    }
}

impl PointeredBinary {
    /// The offset of the next byte to be read.
    pub closed spec fn cursor(&self) -> nat {
        self.pointer as nat
    }

    /// The cursor lies within the bytes. `new`, `read` and `write` keep this;
    /// `set_pointer` and `get_data_mut` leave it to the caller.
    pub open spec fn well_formed(&self) -> bool {
        self.cursor() <= self@.len()
    }

    /// The bytes from the cursor to the end, on a well-formed buffer.
    pub open spec fn remaining(&self) -> Seq<u8> {
        self@.skip(self.cursor() as int)
    }

    /// A buffer over `data` with the cursor at its start.
    pub fn new(data: Vec<u8>) -> (binary: Self)
        ensures
            binary@ == data@,
            binary.cursor() == 0,
    {
        PointeredBinary { data, pointer: 0 }
    }

    /// The offset of the next byte to be read.
    pub fn get_pointer(&self) -> (pointer: usize)
        ensures
            pointer == self.cursor(),
    {
        self.pointer
    }

    /// Moves the cursor to `pointer`, which may lie anywhere: a later `read`
    /// from beyond the end fails with `OutOfData`.
    pub fn set_pointer(&mut self, pointer: usize)
        ensures
            final(self).cursor() == pointer,
            final(self)@ == old(self)@,
    {
        self.pointer = pointer;
    }

    /// All the bytes of the buffer, read or not.
    pub fn get_data(&self) -> (data: &Vec<u8>)
        ensures
            data@ == self@,
    {
        &self.data
    }

    /// Lends the bytes out for change; the cursor stays where it is, also
    /// where the caller takes bytes away in front of it.
    pub fn get_data_mut(&mut self) -> (data: &mut Vec<u8>)
        ensures
            data@ == old(self)@,
            final(self)@ == final(data)@,
            final(self).cursor() == old(self).cursor(),
    {
        &mut self.data
    }

    /// Takes the next `size` bytes and moves the cursor past them, or fails
    /// with `OutOfData` and changes nothing where fewer than `size` remain.
    pub fn read(&mut self, size: usize) -> (result: Result<Vec<u8>, BinaryError>)
        ensures
            final(self)@ == old(self)@,
            old(self).cursor() + size <= old(self)@.len() ==> {
                &&& result is Ok
                &&& result->Ok_0@ == old(self)@.subrange(
                    old(self).cursor() as int,
                    old(self).cursor() + size,
                )
                &&& final(self).cursor() == old(self).cursor() + size
            },
            old(self).cursor() + size > old(self)@.len() ==> {
                &&& result == Err::<Vec<u8>, BinaryError>(BinaryError::OutOfData)
                &&& final(self).cursor() == old(self).cursor()
            },
    {
        let length = self.data.len();
        if self.pointer > length || size > length - self.pointer {
            return Err(BinaryError::OutOfData);
        }
        let start = self.pointer;
        let mut data: Vec<u8> = Vec::new();
        let mut taken: usize = 0;
        while taken < size
            invariant
                taken <= size,
                start + size <= length,
                length == self.data@.len(),
                self.data@ == old(self).data@,
                self.pointer == start + taken,
                data@ == self.data@.subrange(start as int, start + taken),
            decreases size - taken,
        {
            data.push(self.data[self.pointer]);
            self.pointer += 1;
            taken += 1;
        }
        Ok(data)
    }

    /// Appends `data` after the last byte.
    pub fn write(&mut self, data: Vec<u8>)
        ensures
            final(self)@ == old(self)@ + data@,
            final(self).cursor() == old(self).cursor(),
    {
        let mut index: usize = 0;
        while index < data.len()
            invariant
                index <= data@.len(),
                self.data@ == old(self).data@ + data@.take(index as int),
                self.pointer == old(self).pointer,
            decreases data@.len() - index,
        {
            self.data.push(data[index]);
            index += 1;
        }
    }
}

/// An encode call returned what was expected of it: on success a buffer of
/// its own that holds exactly the expected bytes, its cursor at the start;
/// otherwise the expected error.
pub open spec fn produces(
    result: Result<PointeredBinary, BinaryError>,
    expected: Result<Seq<u8>, BinaryError>,
) -> bool {
    match expected {
        Ok(bytes) => result is Ok && result->Ok_0@ == bytes && result->Ok_0.cursor() == 0,
        Err(error) => result is Err && result->Err_0 == error,
    }
}

/// The model of what a decode call returned.
pub open spec fn decoded<T: DeepView>(result: Result<T, BinaryError>) -> Result<
    T::V,
    BinaryError,
> {
    match result {
        Ok(value) => Ok(value.deep_view()),
        Err(error) => Err(error),
    }
}

/// A decode call did what was expected of it. `expected` is what the format
/// makes of the bytes that remained: a value and the number of bytes it
/// occupies, or an error.
///
/// The bytes never change. On success the cursor has moved past exactly the
/// bytes of the value. On failure the cursor is where it was. A buffer whose
/// cursor lies beyond its end holds nothing to decode: `OutOfData`.
pub open spec fn consumes<V>(
    before: PointeredBinary,
    after: PointeredBinary,
    result: Result<V, BinaryError>,
    expected: Result<(V, nat), BinaryError>,
) -> bool {
    &&& after@ == before@
    &&& match (if before.well_formed() {
        expected
    } else {
        Err(BinaryError::OutOfData)
    }) {
        Ok((value, length)) => {
            &&& result == Ok::<V, BinaryError>(value)
            &&& after.cursor() == before.cursor() + length
            &&& after.well_formed()
        },
        Err(error) => {
            &&& result == Err::<V, BinaryError>(error)
            &&& after.cursor() == before.cursor()
        },
    }
}

/// A type that can produce its own encoded form.
pub trait Encodable: DeepView {
    /// The bytes that stand for `value`, or the reason it has none.
    spec fn encoding(value: <Self as DeepView>::V) -> Result<Seq<u8>, BinaryError>;

    /// Encodes `self` into a buffer of its own.
    fn to_binary(&self) -> (result: Result<PointeredBinary, BinaryError>)
        ensures
            produces(result, Self::encoding(self.deep_view())),
    ;
}

/// A type that can be read back from a buffer at its cursor.
pub trait Decodable: DeepView + Sized {
    /// What decoding makes of `bytes`: the value at their start and the number
    /// of bytes it occupies, or the reason there is none.
    spec fn decoding(bytes: Seq<u8>) -> Result<(<Self as DeepView>::V, nat), BinaryError>;

    /// Decodes one value at the cursor and moves the cursor past it.
    fn from_binary(data: &mut PointeredBinary) -> (result: Result<Self, BinaryError>)
        ensures
            consumes(
                *old(data),
                *final(data),
                decoded(result),
                Self::decoding(old(data).remaining()),
            ),
    ;
}

/// A type whose two directions agree: what it encodes, it decodes again.
pub trait Codable: Encodable + Decodable {
    /// The values within the bounds of the format.
    spec fn representable(value: <Self as DeepView>::V) -> bool;

    /// Decoding the encoding of a representable value gives the value back and
    /// consumes exactly the bytes of the encoding, whatever follows them.
    proof fn lemma_round_trip(value: <Self as DeepView>::V, rest: Seq<u8>)
        requires
            Self::representable(value),
        ensures
            Self::encoding(value) is Ok,
            Self::decoding(Self::encoding(value)->Ok_0 + rest) == Ok::<_, BinaryError>(
                (value, Self::encoding(value)->Ok_0.len()),
            ),
    ;
}

/// A way of laying values of `T` out in bytes that is chosen apart from `T`
/// itself: one type may have several.
pub trait BinaryController<T: DeepView> {
    /// The bytes that stand for `value` under this controller, or the reason
    /// it has none.
    spec fn encoding(&self, value: T::V) -> Result<Seq<u8>, BinaryError>;

    /// What decoding makes of `bytes`: the value at their start and the number
    /// of bytes it occupies, or the reason there is none.
    spec fn decoding(&self, bytes: Seq<u8>) -> Result<(T::V, nat), BinaryError>;

    /// The values within the bounds of the format.
    spec fn representable(&self, value: T::V) -> bool;

    /// Encodes `data` into a buffer of its own.
    fn encode(&self, data: &T) -> (result: Result<PointeredBinary, BinaryError>)
        ensures
            produces(result, self.encoding(data.deep_view())),
    ;

    /// Decodes one value at the cursor and moves the cursor past it.
    fn decode(&self, data: &mut PointeredBinary) -> (result: Result<T, BinaryError>)
        ensures
            consumes(
                *old(data),
                *final(data),
                decoded(result),
                self.decoding(old(data).remaining()),
            ),
    ;

    /// Decoding the encoding of a representable value gives the value back and
    /// consumes exactly the bytes of the encoding, whatever follows them.
    proof fn lemma_round_trip(&self, value: T::V, rest: Seq<u8>)
        requires
            self.representable(value),
        ensures
            self.encoding(value) is Ok,
            self.decoding(self.encoding(value)->Ok_0 + rest) == Ok::<_, BinaryError>(
                (value, self.encoding(value)->Ok_0.len()),
            ),
    ;
}

/// The controller that lays a value out as the value's own codec does.
pub struct DefaultBinaryController<T: Codable> {
    _marker: std::marker::PhantomData<T>,
}

impl<T: Codable> DefaultBinaryController<T> {
    /// The one value of this type.
    pub closed spec fn spec_new() -> Self {
        DefaultBinaryController { _marker: std::marker::PhantomData }
    }

    #[verifier::when_used_as_spec(spec_new)]
    pub fn new() -> (result: Self)
        ensures
            result == Self::spec_new(),
    {
        DefaultBinaryController { _marker: std::marker::PhantomData }
    }
}

impl<T: Codable> BinaryController<T> for DefaultBinaryController<T> {
    open spec fn encoding(&self, value: T::V) -> Result<Seq<u8>, BinaryError> {
        T::encoding(value)
    }

    open spec fn decoding(&self, bytes: Seq<u8>) -> Result<(T::V, nat), BinaryError> {
        T::decoding(bytes)
    }

    open spec fn representable(&self, value: T::V) -> bool {
        T::representable(value)
    }

    fn encode(&self, data: &T) -> (result: Result<PointeredBinary, BinaryError>) {
        data.to_binary()
    }

    fn decode(&self, data: &mut PointeredBinary) -> (result: Result<T, BinaryError>) {
        T::from_binary(data)
    }

    proof fn lemma_round_trip(&self, value: T::V, rest: Seq<u8>) {
        T::lemma_round_trip(value, rest);
    }
}

/// Encoding a representable value and then decoding the buffer that came
/// out gives the value back, with the cursor at the end of the buffer.
///
/// `encoded` stands for what `to_binary` returned, `result` and `after` for
/// what `from_binary` then returned and left of the buffer.
pub proof fn lemma_from_binary_of_to_binary<T: Codable>(
    value: <T as DeepView>::V,
    encoded: Result<PointeredBinary, BinaryError>,
    after: PointeredBinary,
    result: Result<<T as DeepView>::V, BinaryError>,
)
    requires
        T::representable(value),
        produces(encoded, T::encoding(value)),
        encoded is Ok ==> consumes(
            encoded->Ok_0,
            after,
            result,
            T::decoding(encoded->Ok_0.remaining()),
        ),
    ensures
        encoded is Ok,
        result == Ok::<<T as DeepView>::V, BinaryError>(value),
        after.cursor() == after@.len(),
{
    T::lemma_round_trip(value, Seq::empty());
    let bytes = T::encoding(value)->Ok_0;
    assert(encoded->Ok_0.remaining() =~= bytes + Seq::<u8>::empty());
}

/// Encoding a representable value under a controller and then decoding the
/// buffer that came out under the same controller gives the value back, with
/// the cursor at the end of the buffer.
///
/// `encoded` stands for what `encode` returned, `result` and `after` for what
/// `decode` then returned and left of the buffer.
pub proof fn lemma_decode_of_encode<T: DeepView, BC: BinaryController<T>>(
    controller: BC,
    value: T::V,
    encoded: Result<PointeredBinary, BinaryError>,
    after: PointeredBinary,
    result: Result<T::V, BinaryError>,
)
    requires
        controller.representable(value),
        produces(encoded, controller.encoding(value)),
        encoded is Ok ==> consumes(
            encoded->Ok_0,
            after,
            result,
            controller.decoding(encoded->Ok_0.remaining()),
        ),
    ensures
        encoded is Ok,
        result == Ok::<T::V, BinaryError>(value),
        after.cursor() == after@.len(),
{
    controller.lemma_round_trip(value, Seq::empty());
    let bytes = controller.encoding(value)->Ok_0;
    assert(encoded->Ok_0.remaining() =~= bytes + Seq::<u8>::empty());
}

} // verus!
