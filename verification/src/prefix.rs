//! The integer types that can stand in front of a sequence as its length.
//!
//! The conversions between a length and a prefix value are those of the
//! `num-traits` crate, `FromPrimitive::from_usize` and `ToPrimitive::to_usize`.
//! They are taken on trust, each with the range check that its source makes.

use crate::base::Codable;
use num_traits::{FromPrimitive, ToPrimitive};
use vstd::prelude::*;

verus! {

/// `num_traits::FromPrimitive::from_usize` for `u8`: the number itself where a
/// `u8` can hold it, else `None`.
pub assume_specification[ <u8 as FromPrimitive>::from_usize ](n: usize) -> (result: Option<u8>)
    ensures
        result == (if n <= u8::MAX {
            Some(n as u8)
        } else {
            None
        }),
;

/// `num_traits::ToPrimitive::to_usize` for `u8`: the number itself where a
/// `usize` can hold it, else `None`.
pub assume_specification[ <u8 as ToPrimitive>::to_usize ](value: &u8) -> (result: Option<usize>)
    ensures
        result == (if 0 <= *value <= usize::MAX {
            Some(*value as usize)
        } else {
            None
        }),
;

/// `num_traits::FromPrimitive::from_usize` for `u16`: the number itself where a
/// `u16` can hold it, else `None`.
pub assume_specification[ <u16 as FromPrimitive>::from_usize ](n: usize) -> (result: Option<u16>)
    ensures
        result == (if n <= u16::MAX {
            Some(n as u16)
        } else {
            None
        }),
;

/// `num_traits::ToPrimitive::to_usize` for `u16`: the number itself where a
/// `usize` can hold it, else `None`.
pub assume_specification[ <u16 as ToPrimitive>::to_usize ](value: &u16) -> (result: Option<usize>)
    ensures
        result == (if 0 <= *value <= usize::MAX {
            Some(*value as usize)
        } else {
            None
        }),
;

/// `num_traits::FromPrimitive::from_usize` for `u32`: the number itself where a
/// `u32` can hold it, else `None`.
pub assume_specification[ <u32 as FromPrimitive>::from_usize ](n: usize) -> (result: Option<u32>)
    ensures
        result == (if n <= u32::MAX {
            Some(n as u32)
        } else {
            None
        }),
;

/// `num_traits::ToPrimitive::to_usize` for `u32`: the number itself where a
/// `usize` can hold it, else `None`.
pub assume_specification[ <u32 as ToPrimitive>::to_usize ](value: &u32) -> (result: Option<usize>)
    ensures
        result == (if 0 <= *value <= usize::MAX {
            Some(*value as usize)
        } else {
            None
        }),
;

/// `num_traits::FromPrimitive::from_usize` for `u64`: the number itself where a
/// `u64` can hold it, else `None`.
pub assume_specification[ <u64 as FromPrimitive>::from_usize ](n: usize) -> (result: Option<u64>)
    ensures
        result == (if n <= u64::MAX {
            Some(n as u64)
        } else {
            None
        }),
;

/// `num_traits::ToPrimitive::to_usize` for `u64`: the number itself where a
/// `usize` can hold it, else `None`.
pub assume_specification[ <u64 as ToPrimitive>::to_usize ](value: &u64) -> (result: Option<usize>)
    ensures
        result == (if 0 <= *value <= usize::MAX {
            Some(*value as usize)
        } else {
            None
        }),
;

/// `num_traits::FromPrimitive::from_usize` for `usize`: the number itself where a
/// `usize` can hold it, else `None`.
pub assume_specification[ <usize as FromPrimitive>::from_usize ](n: usize) -> (result: Option<usize>)
    ensures
        result == (if n <= usize::MAX {
            Some(n as usize)
        } else {
            None
        }),
;

/// `num_traits::ToPrimitive::to_usize` for `usize`: the number itself where a
/// `usize` can hold it, else `None`.
pub assume_specification[ <usize as ToPrimitive>::to_usize ](value: &usize) -> (result: Option<usize>)
    ensures
        result == (if 0 <= *value <= usize::MAX {
            Some(*value as usize)
        } else {
            None
        }),
;

/// `num_traits::FromPrimitive::from_usize` for `i8`: the number itself where a
/// `i8` can hold it, else `None`.
pub assume_specification[ <i8 as FromPrimitive>::from_usize ](n: usize) -> (result: Option<i8>)
    ensures
        result == (if n <= i8::MAX {
            Some(n as i8)
        } else {
            None
        }),
;

/// `num_traits::ToPrimitive::to_usize` for `i8`: the number itself where a
/// `usize` can hold it, else `None`.
pub assume_specification[ <i8 as ToPrimitive>::to_usize ](value: &i8) -> (result: Option<usize>)
    ensures
        result == (if 0 <= *value <= usize::MAX {
            Some(*value as usize)
        } else {
            None
        }),
;

/// `num_traits::FromPrimitive::from_usize` for `i16`: the number itself where a
/// `i16` can hold it, else `None`.
pub assume_specification[ <i16 as FromPrimitive>::from_usize ](n: usize) -> (result: Option<i16>)
    ensures
        result == (if n <= i16::MAX {
            Some(n as i16)
        } else {
            None
        }),
;

/// `num_traits::ToPrimitive::to_usize` for `i16`: the number itself where a
/// `usize` can hold it, else `None`.
pub assume_specification[ <i16 as ToPrimitive>::to_usize ](value: &i16) -> (result: Option<usize>)
    ensures
        result == (if 0 <= *value <= usize::MAX {
            Some(*value as usize)
        } else {
            None
        }),
;

/// `num_traits::FromPrimitive::from_usize` for `i32`: the number itself where a
/// `i32` can hold it, else `None`.
pub assume_specification[ <i32 as FromPrimitive>::from_usize ](n: usize) -> (result: Option<i32>)
    ensures
        result == (if n <= i32::MAX {
            Some(n as i32)
        } else {
            None
        }),
;

/// `num_traits::ToPrimitive::to_usize` for `i32`: the number itself where a
/// `usize` can hold it, else `None`.
pub assume_specification[ <i32 as ToPrimitive>::to_usize ](value: &i32) -> (result: Option<usize>)
    ensures
        result == (if 0 <= *value <= usize::MAX {
            Some(*value as usize)
        } else {
            None
        }),
;

/// `num_traits::FromPrimitive::from_usize` for `i64`: the number itself where a
/// `i64` can hold it, else `None`.
pub assume_specification[ <i64 as FromPrimitive>::from_usize ](n: usize) -> (result: Option<i64>)
    ensures
        result == (if n <= i64::MAX {
            Some(n as i64)
        } else {
            None
        }),
;

/// `num_traits::ToPrimitive::to_usize` for `i64`: the number itself where a
/// `usize` can hold it, else `None`.
pub assume_specification[ <i64 as ToPrimitive>::to_usize ](value: &i64) -> (result: Option<usize>)
    ensures
        result == (if 0 <= *value <= usize::MAX {
            Some(*value as usize)
        } else {
            None
        }),
;

/// An integer codec that can hold the length of a sequence.
pub trait LengthPrefix: Codable {
    /// The prefix value that stands for `length`, where the type has one.
    spec fn of_length(length: nat) -> Option<<Self as DeepView>::V>;

    /// The length that `value` stands for, where a `usize` can hold it.
    spec fn length_of(value: <Self as DeepView>::V) -> Option<usize>;

    /// The prefix value that stands for `length`, or `None` where the type
    /// cannot hold it.
    fn from_length(length: usize) -> (result: Option<Self>)
        ensures
            result.deep_view() == Self::of_length(length as nat),
    ;

    /// The length that this prefix value stands for, or `None` where it is
    /// negative or beyond a `usize`.
    fn to_length(&self) -> (result: Option<usize>)
        ensures
            result == Self::length_of(self.deep_view()),
    ;

    /// The prefix value of a length that a `usize` holds is representable
    /// and stands for that length.
    proof fn lemma_length_round_trip(length: nat)
        requires
            Self::of_length(length) is Some,
            length <= usize::MAX,
        ensures
            Self::representable(Self::of_length(length)->Some_0),
            Self::length_of(Self::of_length(length)->Some_0) == Some(length as usize),
    ;
}

impl LengthPrefix for u8 {
    open spec fn of_length(length: nat) -> Option<u8> {
        if length <= u8::MAX {
            Some(length as u8)
        } else {
            None
        }
    }

    open spec fn length_of(value: u8) -> Option<usize> {
        if 0 <= value <= usize::MAX {
            Some(value as usize)
        } else {
            None
        }
    }

    fn from_length(length: usize) -> (result: Option<Self>) {
        <u8 as FromPrimitive>::from_usize(length)
    }

    fn to_length(&self) -> (result: Option<usize>) {
        self.to_usize()
    }

    proof fn lemma_length_round_trip(length: nat) {
    }
}

impl LengthPrefix for u16 {
    open spec fn of_length(length: nat) -> Option<u16> {
        if length <= u16::MAX {
            Some(length as u16)
        } else {
            None
        }
    }

    open spec fn length_of(value: u16) -> Option<usize> {
        if 0 <= value <= usize::MAX {
            Some(value as usize)
        } else {
            None
        }
    }

    fn from_length(length: usize) -> (result: Option<Self>) {
        <u16 as FromPrimitive>::from_usize(length)
    }

    fn to_length(&self) -> (result: Option<usize>) {
        self.to_usize()
    }

    proof fn lemma_length_round_trip(length: nat) {
    }
}

impl LengthPrefix for u32 {
    open spec fn of_length(length: nat) -> Option<u32> {
        if length <= u32::MAX {
            Some(length as u32)
        } else {
            None
        }
    }

    open spec fn length_of(value: u32) -> Option<usize> {
        if 0 <= value <= usize::MAX {
            Some(value as usize)
        } else {
            None
        }
    }

    fn from_length(length: usize) -> (result: Option<Self>) {
        <u32 as FromPrimitive>::from_usize(length)
    }

    fn to_length(&self) -> (result: Option<usize>) {
        self.to_usize()
    }

    proof fn lemma_length_round_trip(length: nat) {
    }
}

impl LengthPrefix for u64 {
    open spec fn of_length(length: nat) -> Option<u64> {
        if length <= u64::MAX {
            Some(length as u64)
        } else {
            None
        }
    }

    open spec fn length_of(value: u64) -> Option<usize> {
        if 0 <= value <= usize::MAX {
            Some(value as usize)
        } else {
            None
        }
    }

    fn from_length(length: usize) -> (result: Option<Self>) {
        <u64 as FromPrimitive>::from_usize(length)
    }

    fn to_length(&self) -> (result: Option<usize>) {
        self.to_usize()
    }

    proof fn lemma_length_round_trip(length: nat) {
    }
}

impl LengthPrefix for usize {
    open spec fn of_length(length: nat) -> Option<usize> {
        if length <= usize::MAX {
            Some(length as usize)
        } else {
            None
        }
    }

    open spec fn length_of(value: usize) -> Option<usize> {
        if 0 <= value <= usize::MAX {
            Some(value as usize)
        } else {
            None
        }
    }

    fn from_length(length: usize) -> (result: Option<Self>) {
        <usize as FromPrimitive>::from_usize(length)
    }

    fn to_length(&self) -> (result: Option<usize>) {
        self.to_usize()
    }

    proof fn lemma_length_round_trip(length: nat) {
    }
}

impl LengthPrefix for i8 {
    open spec fn of_length(length: nat) -> Option<i8> {
        if length <= i8::MAX {
            Some(length as i8)
        } else {
            None
        }
    }

    open spec fn length_of(value: i8) -> Option<usize> {
        if 0 <= value <= usize::MAX {
            Some(value as usize)
        } else {
            None
        }
    }

    fn from_length(length: usize) -> (result: Option<Self>) {
        <i8 as FromPrimitive>::from_usize(length)
    }

    fn to_length(&self) -> (result: Option<usize>) {
        self.to_usize()
    }

    proof fn lemma_length_round_trip(length: nat) {
    }
}

impl LengthPrefix for i16 {
    open spec fn of_length(length: nat) -> Option<i16> {
        if length <= i16::MAX {
            Some(length as i16)
        } else {
            None
        }
    }

    open spec fn length_of(value: i16) -> Option<usize> {
        if 0 <= value <= usize::MAX {
            Some(value as usize)
        } else {
            None
        }
    }

    fn from_length(length: usize) -> (result: Option<Self>) {
        <i16 as FromPrimitive>::from_usize(length)
    }

    fn to_length(&self) -> (result: Option<usize>) {
        self.to_usize()
    }

    proof fn lemma_length_round_trip(length: nat) {
    }
}

impl LengthPrefix for i32 {
    open spec fn of_length(length: nat) -> Option<i32> {
        if length <= i32::MAX {
            Some(length as i32)
        } else {
            None
        }
    }

    open spec fn length_of(value: i32) -> Option<usize> {
        if 0 <= value <= usize::MAX {
            Some(value as usize)
        } else {
            None
        }
    }

    fn from_length(length: usize) -> (result: Option<Self>) {
        <i32 as FromPrimitive>::from_usize(length)
    }

    fn to_length(&self) -> (result: Option<usize>) {
        self.to_usize()
    }

    proof fn lemma_length_round_trip(length: nat) {
    }
}

impl LengthPrefix for i64 {
    open spec fn of_length(length: nat) -> Option<i64> {
        if length <= i64::MAX {
            Some(length as i64)
        } else {
            None
        }
    }

    open spec fn length_of(value: i64) -> Option<usize> {
        if 0 <= value <= usize::MAX {
            Some(value as usize)
        } else {
            None
        }
    }

    fn from_length(length: usize) -> (result: Option<Self>) {
        <i64 as FromPrimitive>::from_usize(length)
    }

    fn to_length(&self) -> (result: Option<usize>) {
        self.to_usize()
    }

    proof fn lemma_length_round_trip(length: nat) {
    }
}

} // verus!
