//! Generic String Encoding Rules (RFC 3641).
pub mod de;

use vstd::prelude::*;

use crate::avn::enc::{notation_text, writable, Encoder};
use crate::gser::de::{gser_decode_text, Decoder};
use crate::model::{
    AsnType, Codec, DecodeError, EncodeError, EncodeErrorKind, ErrorModel, Value, ValueModel,
};

verus! {

/// Encodes a value as GSER text.
///
/// Fails exactly on a value that GSER cannot write: a REAL given as a
/// (mantissa, base, exponent) tuple, anywhere inside the value.
pub fn encode(value: &Value) -> (r: Result<String, EncodeError>)
    ensures
        writable(Codec::Gser, value@) ==> (r matches Ok(s) && s@ == notation_text(
            Codec::Gser,
            value@,
        )),
        !writable(Codec::Gser, value@) ==> (r matches Err(e) && e.codec == Codec::Gser && e.kind
            == EncodeErrorKind::RealEncodingFailed),
{
    let mut encoder = Encoder::new_gser();
    let res = encoder.encode_value(value);
    match res {
        Ok(()) => Ok(encoder.to_string()),
        Err(e) => Err(e),
    }
}

/// Decodes GSER text as a value of the given type.
pub fn decode(input: &str, ty: &AsnType) -> (r: Result<Value, DecodeError>)
    ensures
        r matches Err(e) ==> e.codec == Codec::Gser,
        match r {
            Ok(v) => gser_decode_text(input@, ty@) == Ok::<ValueModel, ErrorModel>(v@),
            Err(e) => gser_decode_text(input@, ty@) == Err::<ValueModel, ErrorModel>(e@),
        },
{
    let mut decoder = Decoder::new(input)?;
    decoder.decode_value(ty)
}

} // verus!
