pub mod de;
pub mod descriptor;
pub mod error;
pub mod field;
pub mod info;
pub mod parse;
pub mod plugin;
pub mod process;
pub mod ser;
pub mod value;
pub mod wire;

pub use de::from_vec;
pub use ser::serialized_size;
pub use ser::to_vec;

use vstd::prelude::*;
use crate::error::{Error, ErrorModel};
use crate::info::{MessageInfo, wf_message_info};
use crate::ser::{spec_encode, RECURSION_LIMIT};
use crate::value::Value;

verus! {

#[verifier::external_type_specification]
#[verifier::external_body]
pub struct ExBytes(bytes::Bytes);

#[verifier::external_type_specification]
#[verifier::external_body]
pub struct ExBytesMut(bytes::BytesMut);

/// The bytes a shared buffer holds.
pub uninterp spec fn bytes_view(b: &bytes::Bytes) -> Seq<u8>;

/// The bytes a mutable buffer holds.
pub uninterp spec fn bytes_mut_view(b: &bytes::BytesMut) -> Seq<u8>;

/// Relies on bytes::Bytes::From<Vec<u8>>: the shared buffer holds exactly
/// the vector's bytes, taking the allocation over without copying.
#[verifier::external_body]
fn bytes_from_vec(v: Vec<u8>) -> (r: bytes::Bytes)
    ensures
        bytes_view(&r) == v@,
{
    bytes::Bytes::from(v)
}

/// Relies on bytes::BytesMut::From<&[u8]>: the mutable buffer holds a
/// copy of the slice's bytes.
#[verifier::external_body]
fn bytes_mut_from_slice(v: &[u8]) -> (r: bytes::BytesMut)
    ensures
        bytes_mut_view(&r) == v@,
{
    bytes::BytesMut::from(v)
}

/// Encodes a message value into a shared byte buffer.
pub fn to_bytes(value: &Value, info: &MessageInfo) -> (r: Result<bytes::Bytes, Error>)
    requires
        wf_message_info(*info),
    ensures
        match r {
            Ok(b) => spec_encode(value@, *info, RECURSION_LIMIT as nat) == Ok::<Seq<u8>, ErrorModel>(
                bytes_view(&b),
            ),
            Err(e) => spec_encode(value@, *info, RECURSION_LIMIT as nat) == Err::<
                Seq<u8>,
                ErrorModel,
            >(e@),
        },
{
    match ser::to_vec(value, info) {
        Ok(v) => Ok(bytes_from_vec(v)),
        Err(e) => Err(e),
    }
}

/// Encodes a message value into a mutable byte buffer.
pub fn to_bytes_mut(value: &Value, info: &MessageInfo) -> (r: Result<bytes::BytesMut, Error>)
    requires
        wf_message_info(*info),
    ensures
        match r {
            Ok(b) => spec_encode(value@, *info, RECURSION_LIMIT as nat) == Ok::<Seq<u8>, ErrorModel>(
                bytes_mut_view(&b),
            ),
            Err(e) => spec_encode(value@, *info, RECURSION_LIMIT as nat) == Err::<
                Seq<u8>,
                ErrorModel,
            >(e@),
        },
{
    match ser::to_vec(value, info) {
        Ok(v) => Ok(bytes_mut_from_slice(v.as_slice())),
        Err(e) => Err(e),
    }
}

} // verus!
