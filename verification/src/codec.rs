//! The model artifact codec.
//!
//! A trained model reaches this crate as opaque serialized bytes.  The
//! codec wraps them in the text-safe form that crosses the text-oriented
//! persistence boundary: base64 for the bytes, and the canonical
//! persisted-model document around the base64 text.  The base64 calls are
//! the trusted boundary; everything around them is verified.

use crate::errors::DecodeError;
use crate::wire::{build_metadata, lemma_metadata_json_injective, parse_metadata, spec_metadata_json};
use crate::windowing::copy_bytes;
use vstd::prelude::*;
use vstd::string::StringSliceAdditionalSpecFns;

verus! {

/// The base64 text of a byte string, as the base64 encoder produces it.
pub uninterp spec fn b64_of(b: Seq<u8>) -> Seq<u8>;

/// What the base64 decoder makes of a byte text: the decoded bytes, or
/// nothing when the text is not valid base64.
pub uninterp spec fn b64_decode_of(t: Seq<u8>) -> Option<Seq<u8>>;

/// A byte of the standard base64 alphabet, including its padding sign.
pub open spec fn is_b64_byte(c: u8) -> bool {
    ||| 65 <= c <= 90
    ||| 97 <= c <= 122
    ||| 48 <= c <= 57
    ||| c == 43
    ||| c == 47
    ||| c == 61
}

/// Relies on base64::encode with the standard alphabet: the text is a
/// pure function of the input bytes, consists of alphabet and padding
/// bytes only, and base64::decode turns it back into the input.
#[verifier::external_body]
fn b64_encode(b: &Vec<u8>) -> (r: Vec<u8>)
    ensures
        r@ == b64_of(b@),
        forall|i: int| 0 <= i < r@.len() ==> is_b64_byte(#[trigger] r@[i]),
        b64_decode_of(r@) == Some(b@),
{
    base64::encode(b).into_bytes()
}

/// Relies on base64::decode: a pure function of the input text that
/// succeeds exactly on valid base64.
#[verifier::external_body]
fn b64_decode(t: &Vec<u8>) -> (r: Result<Vec<u8>, ()>)
    ensures
        r matches Ok(d) ==> b64_decode_of(t@) == Some(d@),
        r is Err ==> b64_decode_of(t@) is None,
{
    match base64::decode(t) {
        Ok(d) => Ok(d),
        Err(_) => Err(()),
    }
}

/// The fixed key under which the single deployed model is stored.
pub open spec fn spec_model_key() -> Seq<u8> {
    "base64_model".spec_bytes()
}

/// The fixed key under which the single deployed model is stored.
pub fn model_key() -> (r: &'static str)
    ensures
        r.spec_bytes() == spec_model_key(),
{
    "base64_model"
}

/// One persisted row: the fixed key and the canonical persisted-model
/// document.
#[derive(Clone, Debug)]
pub struct StoredRecord {
    pub id: Vec<u8>,
    pub metadata: Vec<u8>,
}

/// Packages serialized model bytes as the row that the persistence
/// gateway stores: the document embeds the base64 text of the bytes, and
/// the base64 decoder is guaranteed to give the bytes back.
pub fn package_model(model_bytes: &Vec<u8>) -> (rec: StoredRecord)
    ensures
        rec.id@ == spec_model_key(),
        rec.metadata@ == spec_metadata_json(b64_of(model_bytes@)),
        b64_decode_of(b64_of(model_bytes@)) == Some(model_bytes@),
{
    let text = b64_encode(model_bytes);
    let metadata = build_metadata(&text);
    let id = copy_bytes(model_key().as_bytes());
    StoredRecord { id, metadata }
}

/// Recovers the serialized model bytes from a persisted-model document:
/// the canonical document shape, then base64.  It fails with the decode
/// taxonomy — `BadRecord` exactly when the document is not canonical,
/// `BadBase64` exactly when the document is canonical but its text does
/// not decode — succeeds on every canonical document of decodable
/// quote-free text, and never panics.
pub fn decode_stored_metadata(b: &[u8]) -> (r: Result<Vec<u8>, DecodeError>)
    ensures
        r matches Ok(d) ==> exists|t: Seq<u8>|
            b@ == spec_metadata_json(t) && b64_decode_of(t) == Some(d@),
        r matches Err(e) ==> e == DecodeError::BadRecord || e == DecodeError::BadBase64,
        r == Err::<Vec<u8>, DecodeError>(DecodeError::BadRecord) ==> !(exists|t: Seq<u8>|
            b@ == #[trigger] spec_metadata_json(t) && (forall|i: int|
                0 <= i < t.len() ==> #[trigger] t[i] != 34)),
        r == Err::<Vec<u8>, DecodeError>(DecodeError::BadBase64) ==> exists|t: Seq<u8>|
            b@ == #[trigger] spec_metadata_json(t) && b64_decode_of(t) is None,
        (exists|t: Seq<u8>|
            b@ == #[trigger] spec_metadata_json(t) && (forall|i: int|
                0 <= i < t.len() ==> #[trigger] t[i] != 34) && b64_decode_of(t) is Some)
            ==> r is Ok,
{
    let text = match parse_metadata(b) {
        Err(_) => return Err(DecodeError::BadRecord),
        Ok(t) => t,
    };
    match b64_decode(&text) {
        Err(_) => {
            proof {
                assert(b@ == spec_metadata_json(text@) && b64_decode_of(text@) is None);
                assert forall|t: Seq<u8>|
                    b@ == #[trigger] spec_metadata_json(t) && (forall|i: int|
                        0 <= i < t.len() ==> #[trigger] t[i] != 34) && b64_decode_of(t) is Some
                    implies false by {
                    lemma_metadata_json_injective(t, text@);
                }
            }
            Err(DecodeError::BadBase64)
        },
        Ok(d) => {
            proof {
                assert(b@ == spec_metadata_json(text@) && b64_decode_of(text@) == Some(d@));
            }
            Ok(d)
        },
    }
}

} // verus!
