//! Declarations of opaque types of outside components that error values
//! carry through the library: the base64 codec's error, the decompression
//! backends' error, the XML reader's error, and file paths. The decoders
//! never look inside a value of these types.

use vstd::prelude::*;
use xml::reader::Error as XmlReaderError;

verus! {

#[verifier::external_type_specification]
#[verifier::external_body]
pub struct ExIoError(std::io::Error);

#[verifier::external_type_specification]
#[verifier::external_body]
pub struct ExBase64DecodeError(base64::DecodeError);

#[verifier::external_type_specification]
#[verifier::external_body]
pub struct ExXmlReaderError(XmlReaderError);

#[verifier::external_type_specification]
#[verifier::external_body]
pub struct ExPathBuf(std::path::PathBuf);

} // verus!
