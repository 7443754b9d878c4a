//! The failures of the codecs that the adapters call. Each is carried from
//! the call to where its words are read, and nothing else is known of it.

use ravif::Error as RavifError;
use vstd::prelude::*;

verus! {

/// `png::DecodingError`: why the PNG decoder failed.
#[verifier::external_type_specification]
#[verifier::external_body]
pub struct ExPngDecodingError(png::DecodingError);

/// `png::EncodingError`: why the PNG encoder failed.
#[verifier::external_type_specification]
#[verifier::external_body]
pub struct ExPngEncodingError(png::EncodingError);

/// `ravif::Error`: why the AVIF encoder failed.
#[verifier::external_type_specification]
#[verifier::external_body]
pub struct ExRavifError(RavifError);

} // verus!
