//! The unified failure channel of the decoders.
//!
//! Every decoder returns a value or an [`Error`]; nothing is printed or
//! retained by the decoders themselves. Errors that wrap a failure of an
//! outside component keep the underlying error value so that callers can
//! walk the cause chain.

use vstd::prelude::*;

verus! {

/// Errors which occured when parsing the file
#[derive(Debug)]
#[non_exhaustive]
pub enum Error {
    /// A attribute was missing, had the wrong type of wasn't formated
    /// correctly.
    MalformedAttributes(String),
    /// An error occured when decompressing or compressing a dataset with
    /// one of the compression backends.
    DecompressingError(std::io::Error),
    /// An error occured when decoding a base64 encoded dataset.
    Base64DecodingError(base64::DecodeError),
    /// An error occured when parsing a XML file, such as a TMX or TSX file.
    XmlDecodingError(xml::reader::Error),
    /// The XML stream ended before the document was fully parsed.
    PrematureEnd(String),
    /// The path given is invalid because it isn't contained in any folder.
    PathIsNotFile,
    /// Could not open some file due to an I/O error.
    CouldNotOpenFile {
        /// The path to the file that was unable to be opened.
        path: std::path::PathBuf,
        /// The error that occured when trying to open the file.
        err: std::io::Error,
    },
    /// There was an invalid tile in the map parsed.
    InvalidTileFound,
    /// Unknown encoding or compression format or invalid combination of both
    /// (for tile layers)
    InvalidEncodingFormat {
        /// The `encoding` attribute of the tile layer data, if any.
        encoding: Option<String>,
        /// The `compression` attribute of the tile layer data, if any.
        compression: Option<String>,
    },
    /// There was an error parsing the value of a property.
    InvalidPropertyValue {
        /// A description of the error that occured.
        description: String,
    },
    /// Found an unknown property value type while parsing a property.
    UnknownPropertyType {
        /// The name of the type that isn't recognized by the crate.
        /// Supported types are `string`, `int`, `float`, `bool`, `color`,
        /// `file` and `object`.
        name: String,
    },
    /// Found a WangId that was not properly formatted.
    InvalidWangIdEncoding {
        /// Stores the wrongly parsed String.
        read_string: String,
    },
}

/// A result with an error variant of [`Error`].
pub type Result<T> = core::result::Result<T, Error>;

/// The shape of the message for a file that could not be opened: the path's
/// printed form and the underlying error's text, in the fixed frame.
pub open spec fn open_failure_message(msg: Seq<char>) -> bool {
    exists|p: Seq<char>, d: Seq<char>| msg == "Could not open '"@ + p + "'. Error: "@ + d
}

/// Relies on `Path::display` for a printable form of the path.
#[verifier::external_body]
fn path_display(p: &std::path::PathBuf) -> String {
    format!("{}", p.display())
}

impl Error {
    /// A human-readable description of the error. Where the error wraps an
    /// outside component's failure, the description carries that failure's
    /// own text.
    pub fn message(&self) -> (msg: String)
        ensures
            match self {
                Error::MalformedAttributes(s) => msg@ == s@,
                Error::DecompressingError(e) => vstd::string::to_string_from_display_ensures(
                    e,
                    msg,
                ),
                Error::Base64DecodingError(e) => vstd::string::to_string_from_display_ensures(
                    e,
                    msg,
                ),
                Error::XmlDecodingError(e) => vstd::string::to_string_from_display_ensures(e, msg),
                Error::PrematureEnd(s) => msg@ == s@,
                Error::PathIsNotFile => msg@
                    == "The path given is invalid because it isn't contained in any folder."@,
                Error::CouldNotOpenFile { .. } => open_failure_message(msg@),
                Error::InvalidTileFound => msg@ == "Invalid tile found in map being parsed"@,
                Error::InvalidEncodingFormat { encoding, compression } => if encoding is None
                    && compression is None {
                    msg@ == "Deprecated combination of encoding and compression"@
                } else {
                    msg@
                        == "Unknown encoding or compression format or invalid combination of both (for tile layers): "@
                        + (match encoding {
                        Option::Some(s) => s@,
                        Option::None => "no"@,
                    }) + " encoding with "@ + (match compression {
                        Option::Some(s) => s@,
                        Option::None => "no"@,
                    }) + " compression"@
                },
                Error::InvalidPropertyValue { description } => msg@
                    == "Invalid property value: "@ + description@,
                Error::UnknownPropertyType { name } => msg@ == "Unknown property value type '"@
                    + name@ + "'"@,
                Error::InvalidWangIdEncoding { read_string } => msg@ == "\""@ + read_string@
                    + "\" is not a valid WangId format"@,
            },
    {
        match self {
            Error::MalformedAttributes(s) => s.clone(),
            Error::DecompressingError(e) => e.to_string(),
            Error::Base64DecodingError(e) => e.to_string(),
            Error::XmlDecodingError(e) => e.to_string(),
            Error::PrematureEnd(s) => s.clone(),
            Error::PathIsNotFile => String::from_str(
                "The path given is invalid because it isn't contained in any folder.",
            ),
            Error::CouldNotOpenFile { path, err } => {
                let mut m = String::from_str("Could not open '");
                let p = path_display(path);
                m.append(p.as_str());
                m.append("'. Error: ");
                let d = err.to_string();
                m.append(d.as_str());
                proof {
                    assert(m@ == "Could not open '"@ + p@ + "'. Error: "@ + d@);
                    assert(open_failure_message(m@));
                }
                m
            },
            Error::InvalidTileFound => String::from_str("Invalid tile found in map being parsed"),
            Error::InvalidEncodingFormat { encoding, compression } => {
                match (encoding, compression) {
                    (Option::None, Option::None) => String::from_str(
                        "Deprecated combination of encoding and compression",
                    ),
                    _ => {
                        let mut m = String::from_str(
                            "Unknown encoding or compression format or invalid combination of both (for tile layers): ",
                        );
                        match encoding {
                            Option::Some(s) => m.append(s.as_str()),
                            Option::None => m.append("no"),
                        }
                        m.append(" encoding with ");
                        match compression {
                            Option::Some(s) => m.append(s.as_str()),
                            Option::None => m.append("no"),
                        }
                        m.append(" compression");
                        m
                    },
                }
            },
            Error::InvalidPropertyValue { description } => {
                let mut m = String::from_str("Invalid property value: ");
                m.append(description.as_str());
                m
            },
            Error::UnknownPropertyType { name } => {
                let mut m = String::from_str("Unknown property value type '");
                m.append(name.as_str());
                m.append("'");
                m
            },
            Error::InvalidWangIdEncoding { read_string } => {
                let mut m = String::from_str("\"");
                m.append(read_string.as_str());
                m.append("\" is not a valid WangId format");
                m
            },
        }
    }

    /// Whether this error wraps an underlying cause from an outside
    /// component (the base64 codec, a decompression backend, the XML
    /// reader, or the operating system).
    pub fn has_source(&self) -> (r: bool)
        ensures
            r == match self {
                Error::DecompressingError(_) => true,
                Error::Base64DecodingError(_) => true,
                Error::XmlDecodingError(_) => true,
                Error::CouldNotOpenFile { .. } => true,
                _ => false,
            },
    {
        match self {
            Error::DecompressingError(_) => true,
            Error::Base64DecodingError(_) => true,
            Error::XmlDecodingError(_) => true,
            Error::CouldNotOpenFile { .. } => true,
            _ => false,
        }
    }
}

} // verus!
