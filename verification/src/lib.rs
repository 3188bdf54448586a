//! A value model and wire codec for the RESP3 serialization protocol.
//!
//! The library defines the closed set of protocol value variants
//! ([`RespFrame`]) together with a pure, verified codec between frames and
//! their exact byte-level wire representation: [`RespEncode::encode`] and
//! [`decode`].

pub mod decode;
pub mod encode;
pub mod frame;
pub mod map;
pub mod numbers;
pub mod order;
pub mod props;

pub use frame::{
    BlukString, FrameView, RespArray, RespDouble, RespFrame, RespMap,
    RespNull, RespNullArray, RespNullBlukString, RespSet, SimpleError,
    SimpleString,
};
pub use decode::{decode, ParseError, RespDecode};
pub use encode::RespEncode;
pub use order::lex_lt;

use vstd::prelude::*;

verus! {

/// The two-byte line terminator used throughout the protocol.
pub open spec fn crlf() -> Seq<u8> {
    seq![13u8, 10u8]
}

} // verus!
