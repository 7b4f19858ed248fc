//! ASN.1 value notation (ITU-T X.680 clause 17).
pub mod de;
pub mod enc;


use vstd::prelude::*;

use crate::avn::de::{avn_decode_text, Decoder};
use crate::avn::enc::{avn_text, Encoder};
use crate::model::{AsnType, Codec, DecodeError, EncodeError, ErrorModel, Value, ValueModel};

verus! {

/// Encodes a value as ASN.1 value notation.
///
/// Every value has a value-notation form, so this never fails.
pub fn encode(value: &Value) -> (r: Result<String, EncodeError>)
    ensures
        r matches Ok(s) && s@ == avn_text(value@),
{
    let mut encoder = Encoder::new();
    proof {
        crate::avn::enc::lemma_avn_writable(value@);
    }
    let res = encoder.encode_value(value);
    match res {
        Ok(()) => Ok(encoder.to_string()),
        Err(e) => Err(e),
    }
}

/// Decodes ASN.1 value notation as a value of the given type.
pub fn decode(input: &str, ty: &AsnType) -> (r: Result<Value, DecodeError>)
    ensures
        r matches Err(e) ==> e.codec == Codec::Avn,
        match r {
            Ok(v) => avn_decode_text(input@, ty@) == Ok::<ValueModel, ErrorModel>(v@),
            Err(e) => avn_decode_text(input@, ty@) == Err::<ValueModel, ErrorModel>(e@),
        },
{
    let mut decoder = Decoder::new(input)?;
    decoder.decode_value(ty)
}

} // verus!
