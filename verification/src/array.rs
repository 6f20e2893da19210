//! Controllers for homogeneous sequences: one that writes the count in front
//! of the elements, and one whose count is fixed ahead of time.

use crate::base::{
    BinaryController, BinaryError, Codable, Decodable, DefaultBinaryController, Encodable,
    PointeredBinary,
};
use crate::prefix::LengthPrefix;
use std::marker::PhantomData;
use vstd::prelude::*;

verus! {

/// The encodings of `values` under `controller`, one after another with
/// nothing between them. The error of the first value that has no encoding
/// is the error of the whole.
pub open spec fn elements_encoding<T: DeepView, BC: BinaryController<T>>(
    controller: BC,
    values: Seq<T::V>,
) -> Result<Seq<u8>, BinaryError>
    decreases values.len(),
{
    if values.len() == 0 {
        Ok(Seq::empty())
    } else {
        match elements_encoding(controller, values.drop_last()) {
            Err(error) => Err(error),
            Ok(front) => match controller.encoding(values.last()) {
                Err(error) => Err(error),
                Ok(last) => Ok(front + last),
            },
        }
    }
}

/// What decoding `count` values in a row under `controller` makes of `bytes`:
/// the values in order and the number of bytes they occupy together. The
/// error of the first value that cannot be decoded is the error of the whole.
pub open spec fn elements_decoding<T: DeepView, BC: BinaryController<T>>(
    controller: BC,
    bytes: Seq<u8>,
    count: nat,
) -> Result<(Seq<T::V>, nat), BinaryError>
    decreases count,
{
    if count == 0 {
        Ok((Seq::empty(), 0))
    } else {
        match elements_decoding(controller, bytes, (count - 1) as nat) {
            Err(error) => Err(error),
            Ok((front, used)) => match controller.decoding(bytes.skip(used as int)) {
                Err(error) => Err(error),
                Ok((last, length)) => Ok((front.push(last), used + length)),
            },
        }
    }
}

/// Every one of `values` is within the bounds of `controller`.
pub open spec fn elements_representable<T: DeepView, BC: BinaryController<T>>(
    controller: BC,
    values: Seq<T::V>,
) -> bool {
    forall|index: int| 0 <= index < values.len() ==> controller.representable(#[trigger] values[index])
}

/// Once a front part of `values` has no encoding, the whole has none, for
/// the same reason.
pub proof fn lemma_elements_encoding_error<T: DeepView, BC: BinaryController<T>>(
    controller: BC,
    values: Seq<T::V>,
    front: int,
)
    requires
        0 <= front <= values.len(),
        elements_encoding(controller, values.take(front)) is Err,
    ensures
        elements_encoding(controller, values) == elements_encoding(controller, values.take(front)),
    decreases values.len() - front,
{
    if front == values.len() {
        assert(values.take(front) =~= values);
    } else {
        assert(values.take(front + 1).drop_last() =~= values.take(front));
        lemma_elements_encoding_error(controller, values, front + 1);
    }
}

/// Once the first `front` values cannot be decoded, no greater count can,
/// for the same reason.
pub proof fn lemma_elements_decoding_error<T: DeepView, BC: BinaryController<T>>(
    controller: BC,
    bytes: Seq<u8>,
    front: nat,
    count: nat,
)
    requires
        front <= count,
        elements_decoding(controller, bytes, front) is Err,
    ensures
        elements_decoding(controller, bytes, count) == elements_decoding(controller, bytes, front),
    decreases count,
{
    if front < count {
        lemma_elements_decoding_error(controller, bytes, front, (count - 1) as nat);
    }
}

/// Values that are each within the bounds of `controller` are read back, in
/// order, from their encodings laid end to end, whatever follows them.
pub proof fn lemma_elements_round_trip<T: DeepView, BC: BinaryController<T>>(
    controller: BC,
    values: Seq<T::V>,
    rest: Seq<u8>,
)
    requires
        elements_representable(controller, values),
    ensures
        elements_encoding(controller, values) is Ok,
        elements_decoding(
            controller,
            elements_encoding(controller, values)->Ok_0 + rest,
            values.len(),
        ) == Ok::<_, BinaryError>((values, elements_encoding(controller, values)->Ok_0.len())),
    decreases values.len(),
{
    if values.len() > 0 {
        let front = values.drop_last();
        let last = values.last();
        controller.lemma_round_trip(last, rest);
        let tail = controller.encoding(last)->Ok_0;
        lemma_elements_round_trip(controller, front, tail + rest);
        let head = elements_encoding(controller, front)->Ok_0;
        assert(head + (tail + rest) =~= (head + tail) + rest);
        assert(((head + tail) + rest).skip(head.len() as int) =~= tail + rest);
        assert(front.push(last) =~= values);
    } else {
        assert(values =~= Seq::empty());
    }
}

/// The count of `values` as a `U`, then the encodings of `values` in order.
/// A count that `U` cannot hold is an `EncodingRangeError`.
pub open spec fn counted_encoding<T: DeepView, BC: BinaryController<T>, U: LengthPrefix>(
    controller: BC,
    values: Seq<T::V>,
) -> Result<Seq<u8>, BinaryError> {
    match U::of_length(values.len()) {
        None => Err(BinaryError::EncodingRangeError),
        Some(count) => match U::encoding(count) {
            Err(error) => Err(error),
            Ok(head) => match elements_encoding(controller, values) {
                Err(error) => Err(error),
                Ok(body) => Ok(head + body),
            },
        },
    }
}

/// What reading a count as a `U` and then that many values makes of `bytes`.
/// A count that a `usize` cannot hold is an `EncodingRangeError`.
pub open spec fn counted_decoding<T: DeepView, BC: BinaryController<T>, U: LengthPrefix>(
    controller: BC,
    bytes: Seq<u8>,
) -> Result<(Seq<T::V>, nat), BinaryError> {
    match U::decoding(bytes) {
        Err(error) => Err(error),
        Ok((prefix, width)) => match U::length_of(prefix) {
            None => Err(BinaryError::EncodingRangeError),
            Some(count) => match elements_decoding(
                controller,
                bytes.skip(width as int),
                count as nat,
            ) {
                Err(error) => Err(error),
                Ok((values, used)) => Ok((values, width + used)),
            },
        },
    }
}

/// The sequences that a count of type `U` in front can carry: the count fits
/// `U` and a `usize`, and every value is within the bounds of `controller`.
pub open spec fn counted_representable<T: DeepView, BC: BinaryController<T>, U: LengthPrefix>(
    controller: BC,
    values: Seq<T::V>,
) -> bool {
    &&& values.len() <= usize::MAX
    &&& U::of_length(values.len()) is Some
    &&& elements_representable(controller, values)
}

/// A sequence that its count can carry is read back from its encoding,
/// whatever follows it.
pub proof fn lemma_counted_round_trip<T: DeepView, BC: BinaryController<T>, U: LengthPrefix>(
    controller: BC,
    values: Seq<T::V>,
    rest: Seq<u8>,
)
    requires
        counted_representable::<T, BC, U>(controller, values),
    ensures
        counted_encoding::<T, BC, U>(controller, values) is Ok,
        counted_decoding::<T, BC, U>(
            controller,
            counted_encoding::<T, BC, U>(controller, values)->Ok_0 + rest,
        ) == Ok::<_, BinaryError>(
            (values, counted_encoding::<T, BC, U>(controller, values)->Ok_0.len()),
        ),
{
    U::lemma_length_round_trip(values.len());
    let count = U::of_length(values.len())->Some_0;
    lemma_elements_round_trip(controller, values, rest);
    let body = elements_encoding(controller, values)->Ok_0;
    U::lemma_round_trip(count, body + rest);
    let head = U::encoding(count)->Ok_0;
    assert(head + (body + rest) =~= (head + body) + rest);
    assert(((head + body) + rest).skip(head.len() as int) =~= body + rest);
}

/// A sequence without values is laid out as the encoding of the count zero
/// alone, and is read back from it as the empty sequence.
pub proof fn lemma_counted_empty<T: DeepView, BC: BinaryController<T>, U: LengthPrefix>(
    controller: BC,
    rest: Seq<u8>,
)
    requires
        U::of_length(0) is Some,
    ensures
        counted_encoding::<T, BC, U>(controller, Seq::empty()) == U::encoding(
            U::of_length(0)->Some_0,
        ),
        counted_decoding::<T, BC, U>(
            controller,
            U::encoding(U::of_length(0)->Some_0)->Ok_0 + rest,
        ) == Ok::<_, BinaryError>(
            (Seq::<T::V>::empty(), U::encoding(U::of_length(0)->Some_0)->Ok_0.len()),
        ),
{
    let values = Seq::<T::V>::empty();
    lemma_counted_round_trip::<T, BC, U>(controller, values, rest);
    let head = U::encoding(U::of_length(0)->Some_0)->Ok_0;
    assert(head + Seq::<u8>::empty() =~= head);
}

/// A controller that writes the number of elements, as a `U`, and then the
/// elements in order, each as `BC` lays it out.
pub struct DynamicArrayBinaryController<T: DeepView, BC: BinaryController<T>, U: LengthPrefix> {
    _marker1: PhantomData<T>,
    _marker2: PhantomData<U>,
    controller: BC,
}

impl<T: DeepView, BC: BinaryController<T>, U: LengthPrefix> DynamicArrayBinaryController<T, BC, U> {
    /// The controller of the elements.
    pub closed spec fn element_controller(&self) -> BC {
        self.controller
    }

    pub fn new(controller: BC) -> (result: Self)
        ensures
            result.element_controller() == controller,
    {
        DynamicArrayBinaryController { _marker1: PhantomData, _marker2: PhantomData, controller }
    }
}

impl<T: DeepView, BC: BinaryController<T>, U: LengthPrefix> BinaryController<
    Vec<T>,
> for DynamicArrayBinaryController<T, BC, U> {
    open spec fn encoding(&self, value: Seq<T::V>) -> Result<Seq<u8>, BinaryError> {
        counted_encoding::<T, BC, U>(self.element_controller(), value)
    }

    open spec fn decoding(&self, bytes: Seq<u8>) -> Result<(Seq<T::V>, nat), BinaryError> {
        counted_decoding::<T, BC, U>(self.element_controller(), bytes)
    }

    open spec fn representable(&self, value: Seq<T::V>) -> bool {
        counted_representable::<T, BC, U>(self.element_controller(), value)
    }

    fn encode(&self, data: &Vec<T>) -> (result: Result<PointeredBinary, BinaryError>) {
        let mut binary = PointeredBinary::new(Vec::new());
        let length = match U::from_length(data.len()) {
            Some(length) => length,
            None => {
                return Err(BinaryError::EncodingRangeError);
            },
        };
        let head = match length.to_binary() {
            Ok(head) => head,
            Err(error) => {
                return Err(error);
            },
        };
        binary.write(head.get_data().clone());
        let ghost values = data.deep_view();
        let mut index: usize = 0;
        while index < data.len()
            invariant
                index <= data@.len(),
                values == data.deep_view(),
                U::of_length(values.len()) == Some(length.deep_view()),
                U::encoding(length.deep_view()) == Ok::<_, BinaryError>(head@),
                binary.cursor() == 0,
                elements_encoding(self.controller, values.take(index as int)) is Ok,
                binary@ == head@ + elements_encoding(
                    self.controller,
                    values.take(index as int),
                )->Ok_0,
            decreases data@.len() - index,
        {
            proof {
                assert(values.take(index + 1).drop_last() =~= values.take(index as int));
                assert(values.take(index + 1).last() == data@[index as int].deep_view());
            }
            match self.controller.encode(&data[index]) {
                Ok(item) => {
                    binary.write(item.get_data().clone());
                },
                Err(error) => {
                    proof {
                        assert(elements_encoding(self.controller, values.take(index + 1)) is Err);
                        lemma_elements_encoding_error(self.controller, values, index + 1);
                    }
                    return Err(error);
                },
            }
            index += 1;
        }
        proof {
            assert(values.take(index as int) =~= values);
        }
        Ok(binary)
    }

    fn decode(&self, data: &mut PointeredBinary) -> (result: Result<Vec<T>, BinaryError>) {
        let start = data.get_pointer();
        let length = match U::from_binary(data) {
            Ok(length) => length,
            Err(error) => {
                return Err(error);
            },
        };
        let count = match length.to_length() {
            Some(count) => count,
            None => {
                data.set_pointer(start);
                return Err(BinaryError::EncodingRangeError);
            },
        };
        let ghost bytes = old(data).remaining();
        let ghost width = (data.cursor() - start) as nat;
        let ghost body = bytes.skip(width as int);
        let mut array: Vec<T> = Vec::new();
        let mut index: usize = 0;
        proof {
            assert(array.deep_view() =~= Seq::empty());
        }
        while index < count
            invariant
                index <= count,
                U::decoding(bytes) == Ok::<_, BinaryError>((length.deep_view(), width)),
                U::length_of(length.deep_view()) == Some(count),
                data@ == old(data)@,
                old(data).well_formed(),
                data.well_formed(),
                start == old(data).cursor(),
                bytes == old(data).remaining(),
                body == bytes.skip(width as int),
                start + width <= data.cursor(),
                elements_decoding(self.controller, body, index as nat) == Ok::<_, BinaryError>(
                    (array.deep_view(), (data.cursor() - start - width) as nat),
                ),
            decreases count - index,
        {
            let ghost front = array.deep_view();
            let ghost used = (data.cursor() - start - width) as nat;
            proof {
                assert(data.remaining() =~= body.skip(used as int));
            }
            match self.controller.decode(data) {
                Ok(item) => {
                    array.push(item);
                    proof {
                        assert(array.deep_view() =~= front.push(item.deep_view()));
                    }
                },
                Err(error) => {
                    proof {
                        assert(self.controller.decoding(body.skip(used as int)) is Err);
                        assert(elements_decoding(self.controller, body, index as nat + 1) is Err);
                        lemma_elements_decoding_error(
                            self.controller,
                            body,
                            index as nat + 1,
                            count as nat,
                        );
                    }
                    data.set_pointer(start);
                    return Err(error);
                },
            }
            index += 1;
        }
        Ok(array)
    }

    proof fn lemma_round_trip(&self, value: Seq<T::V>, rest: Seq<u8>) {
        lemma_counted_round_trip::<T, BC, U>(self.controller, value, rest);
    }
}

/// A sequence that carries its own layout: the count as a `U`, then the
/// elements, each by its own codec.
pub struct DynamicArray<T: Codable, U: LengthPrefix> {
    data: Vec<T>,
    _marker: PhantomData<U>,
}

impl<T: Codable, U: LengthPrefix> View for DynamicArray<T, U> {
    type V = Seq<T>;

    /// The elements in order.
    closed spec fn view(&self) -> Seq<T> {
        self.data@
    }
}

impl<T: Codable, U: LengthPrefix> DeepView for DynamicArray<T, U> {
    type V = Seq<<T as DeepView>::V>;

    /// The models of the elements in order.
    closed spec fn deep_view(&self) -> Seq<<T as DeepView>::V> {
        self.data.deep_view()
    }
}

impl<T: Codable, U: LengthPrefix> DynamicArray<T, U> {
    /// The elements in order.
    pub fn get_data(&self) -> (data: &Vec<T>)
        ensures
            data@ == self@,
            data.deep_view() == self.deep_view(),
    {
        &self.data
    }
}

impl<T: Codable, U: LengthPrefix> From<Vec<T>> for DynamicArray<T, U> {
    fn from(data: Vec<T>) -> (result: Self)
        ensures
            result@ == data@,
            result.deep_view() == data.deep_view(),
    {
        DynamicArray { data, _marker: PhantomData }
    }
}

impl<T: Codable, U: LengthPrefix> vstd::std_specs::convert::FromSpecImpl<Vec<T>> for DynamicArray<T, U> {
    open spec fn obeys_from_spec() -> bool {
        true
    }

    closed spec fn from_spec(data: Vec<T>) -> Self {
        DynamicArray { data, _marker: PhantomData }
    }
}

impl<T: Codable, U: LengthPrefix> Encodable for DynamicArray<T, U> {
    open spec fn encoding(value: Seq<<T as DeepView>::V>) -> Result<Seq<u8>, BinaryError> {
        counted_encoding::<T, DefaultBinaryController<T>, U>(DefaultBinaryController::new(), value)
    }

    fn to_binary(&self) -> (result: Result<PointeredBinary, BinaryError>) {
        let controller = DefaultBinaryController::<T>::new();
        let binary_controller = DynamicArrayBinaryController::<T, _, U>::new(controller);
        binary_controller.encode(&self.data)
    }
}

impl<T: Codable, U: LengthPrefix> Decodable for DynamicArray<T, U> {
    open spec fn decoding(bytes: Seq<u8>) -> Result<(Seq<<T as DeepView>::V>, nat), BinaryError> {
        counted_decoding::<T, DefaultBinaryController<T>, U>(DefaultBinaryController::new(), bytes)
    }

    fn from_binary(data: &mut PointeredBinary) -> (result: Result<Self, BinaryError>) {
        let controller = DefaultBinaryController::<T>::new();
        let binary_controller = DynamicArrayBinaryController::<T, _, U>::new(controller);
        match binary_controller.decode(data) {
            Ok(vec) => Ok(DynamicArray { data: vec, _marker: PhantomData }),
            Err(error) => Err(error),
        }
    }
}

impl<T: Codable, U: LengthPrefix> Codable for DynamicArray<T, U> {
    open spec fn representable(value: Seq<<T as DeepView>::V>) -> bool {
        counted_representable::<T, DefaultBinaryController<T>, U>(
            DefaultBinaryController::new(),
            value,
        )
    }

    proof fn lemma_round_trip(value: Seq<<T as DeepView>::V>, rest: Seq<u8>) {
        lemma_counted_round_trip::<T, DefaultBinaryController<T>, U>(
            DefaultBinaryController::new(),
            value,
            rest,
        );
    }
}

/// A controller for sequences of a count fixed ahead of time. No count is
/// written or read: only the elements in order, each as `BC` lays it out.
pub struct SizedArrayBinaryController<T: DeepView, BC: BinaryController<T>> {
    _marker1: PhantomData<T>,
    controller: BC,
    length: usize,
}

impl<T: DeepView, BC: BinaryController<T>> SizedArrayBinaryController<T, BC> {
    /// The controller of the elements.
    pub closed spec fn element_controller(&self) -> BC {
        self.controller
    }

    /// The number of elements that are written and read.
    pub closed spec fn count(&self) -> nat {
        self.length as nat
    }

    pub fn new(controller: BC, length: usize) -> (result: Self)
        ensures
            result.element_controller() == controller,
            result.count() == length,
    {
        SizedArrayBinaryController { _marker1: PhantomData, controller: controller, length: length }
    }
}

impl<T: DeepView, BC: BinaryController<T>> BinaryController<Vec<T>> for SizedArrayBinaryController<
    T,
    BC,
> {
    /// The encodings of the first `count` values, each in its own position.
    /// Values beyond the count are left out; fewer values than the count are
    /// a `LengthMismatch`.
    open spec fn encoding(&self, value: Seq<T::V>) -> Result<Seq<u8>, BinaryError> {
        if value.len() < self.count() {
            Err(BinaryError::LengthMismatch)
        } else {
            elements_encoding(self.element_controller(), value.take(self.count() as int))
        }
    }

    open spec fn decoding(&self, bytes: Seq<u8>) -> Result<(Seq<T::V>, nat), BinaryError> {
        elements_decoding(self.element_controller(), bytes, self.count())
    }

    /// Exactly `count` values, each within the bounds of the element
    /// controller.
    open spec fn representable(&self, value: Seq<T::V>) -> bool {
        &&& value.len() == self.count()
        &&& elements_representable(self.element_controller(), value)
    }

    fn encode(&self, data: &Vec<T>) -> (result: Result<PointeredBinary, BinaryError>) {
        let mut binary = PointeredBinary::new(Vec::new());
        if data.len() < self.length {
            return Err(BinaryError::LengthMismatch);
        }
        let ghost values = data.deep_view().take(self.length as int);
        let mut index: usize = 0;
        while index < self.length
            invariant
                index <= self.length <= data@.len(),
                values == data.deep_view().take(self.length as int),
                binary.cursor() == 0,
                elements_encoding(self.controller, values.take(index as int)) == Ok::<
                    _,
                    BinaryError,
                >(binary@),
            decreases self.length - index,
        {
            proof {
                assert(values.take(index + 1).drop_last() =~= values.take(index as int));
                assert(values.take(index + 1).last() == data@[index as int].deep_view());
            }
            match self.controller.encode(&data[index]) {
                Ok(item) => {
                    binary.write(item.get_data().clone());
                },
                Err(error) => {
                    proof {
                        assert(elements_encoding(self.controller, values.take(index + 1)) is Err);
                        lemma_elements_encoding_error(self.controller, values, index + 1);
                    }
                    return Err(error);
                },
            }
            index += 1;
        }
        proof {
            assert(values.take(index as int) =~= values);
        }
        Ok(binary)
    }

    fn decode(&self, data: &mut PointeredBinary) -> (result: Result<Vec<T>, BinaryError>) {
        let start = data.get_pointer();
        if start > data.get_data().len() {
            return Err(BinaryError::OutOfData);
        }
        let ghost bytes = old(data).remaining();
        let mut array: Vec<T> = Vec::new();
        let mut index: usize = 0;
        proof {
            assert(array.deep_view() =~= Seq::empty());
        }
        while index < self.length
            invariant
                index <= self.length,
                data@ == old(data)@,
                old(data).well_formed(),
                data.well_formed(),
                start == old(data).cursor(),
                bytes == old(data).remaining(),
                start <= data.cursor(),
                elements_decoding(self.controller, bytes, index as nat) == Ok::<_, BinaryError>(
                    (array.deep_view(), (data.cursor() - start) as nat),
                ),
            decreases self.length - index,
        {
            let ghost front = array.deep_view();
            let ghost used = (data.cursor() - start) as nat;
            proof {
                assert(data.remaining() =~= bytes.skip(used as int));
            }
            match self.controller.decode(data) {
                Ok(item) => {
                    array.push(item);
                    proof {
                        assert(array.deep_view() =~= front.push(item.deep_view()));
                    }
                },
                Err(error) => {
                    proof {
                        assert(self.controller.decoding(bytes.skip(used as int)) is Err);
                        assert(elements_decoding(self.controller, bytes, index as nat + 1) is Err);
                        lemma_elements_decoding_error(
                            self.controller,
                            bytes,
                            index as nat + 1,
                            self.length as nat,
                        );
                    }
                    data.set_pointer(start);
                    return Err(error);
                },
            }
            index += 1;
        }
        Ok(array)
    }

    proof fn lemma_round_trip(&self, value: Seq<T::V>, rest: Seq<u8>) {
        assert(value.take(self.count() as int) =~= value);
        lemma_elements_round_trip(self.controller, value, rest);
    }
}

} // verus!
