//! Verified codecs for two text notations of ASN.1 values: ASN.1 value
//! notation (X.680 clause 17) and the Generic String Encoding Rules (RFC 3641).
pub mod model;
pub mod text;
pub mod avn;
pub mod gser;
pub mod laws;

use vstd::prelude::*;

verus! {
} // verus!
