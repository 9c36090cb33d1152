//! Credential validation.
//!
//! A login's credential string travels as an HTTP header value, so the
//! bridge rejects, before anything is enqueued, exactly the strings the
//! header parser rejects.  The check itself is the outside parser's; its
//! acceptance rule is stated here over the string's bytes.

use vstd::prelude::*;
use vstd::string::StringSliceAdditionalSpecFns;

verus! {

/// A byte a header value may carry: the horizontal tab, or anything from
/// 32 up except delete.
pub open spec fn valid_cookie_byte(b: u8) -> bool {
    b == 9 || (32 <= b && b != 127)
}

/// Whether every byte of the credential string may stand in a header value.
pub open spec fn valid_cookie(bytes: Seq<u8>) -> bool {
    forall|i: int| 0 <= i < bytes.len() ==> valid_cookie_byte(#[trigger] bytes[i])
}

#[verifier::external_type_specification]
#[verifier::external_body]
pub struct ExHeaderValue(reqwest::header::HeaderValue);

#[verifier::external_type_specification]
#[verifier::external_body]
pub struct ExInvalidHeaderValue(reqwest::header::InvalidHeaderValue);

/// Relies on `reqwest::header::HeaderValue::from_str` (the `http` crate's
/// header-value parser, re-exported by reqwest): it accepts a string
/// exactly when every byte is the horizontal tab or lies in 32..=255 with
/// delete excluded.
pub assume_specification[ reqwest::header::HeaderValue::from_str ](src: &str) -> (r: Result<
    reqwest::header::HeaderValue,
    reqwest::header::InvalidHeaderValue,
>)
    ensures
        r is Ok <==> valid_cookie(src.spec_bytes()),
;

} // verus!
