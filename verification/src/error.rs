//! Errors surfaced by the codecs and by parameter handling.

use vstd::prelude::*;

verus! {

/// Mathematical model of a [`ParserError`]: what the decode contracts speak
/// of.  The offending text of a malformed line is carried as a character
/// sequence.
pub enum SpecParserError {
    /// A read or write on the byte source or sink failed before the data
    /// ended; for a decode this means the stream is corrupt mid-record.
    Io,
    /// A CSV data line did not hold exactly eight fields; the payload is the
    /// 0-based index of the line among the data lines.
    InvalidCSVStructure(usize),
    /// A text-format line could not be split into a key and a value; the
    /// payload is the offending line.
    InvalidTxtStrStructure(Seq<char>),
    /// A field of one record could not be decoded; the payload is the 0-based
    /// index of the record in the set.
    InvalidValue {
        /// Index of the record in the set.
        tx_numb: usize,
    },
    /// The selected format is none of the recognized tags.
    InvalidFormat,
    /// Any other failure.
    Unknown,
}

/// What can go wrong while decoding or encoding a record set.
#[derive(Debug, Clone)]
pub enum ParserError {
    /// A read or write on the byte source or sink failed before the data
    /// ended; for a decode this means the stream is corrupt mid-record.
    Io,
    /// A CSV data line did not hold exactly eight fields; the payload is the
    /// 0-based index of the line among the data lines.
    InvalidCSVStructure(usize),
    /// A text-format line could not be split into a key and a value; the
    /// payload is the offending line.
    InvalidTxtStrStructure(String),
    /// A field of one record could not be decoded; the payload is the 0-based
    /// index of the record in the set.
    InvalidValue {
        /// Index of the record in the set.
        tx_numb: usize,
    },
    /// The selected format is none of the recognized tags.
    InvalidFormat,
    /// Any other failure.
    Unknown,
}

impl View for ParserError {
    type V = SpecParserError;

    open spec fn view(&self) -> SpecParserError {
        match self {
            ParserError::Io => SpecParserError::Io,
            ParserError::InvalidCSVStructure(numb) => SpecParserError::InvalidCSVStructure(*numb),
            ParserError::InvalidTxtStrStructure(line) => SpecParserError::InvalidTxtStrStructure(
                line@,
            ),
            ParserError::InvalidValue { tx_numb } => SpecParserError::InvalidValue {
                tx_numb: *tx_numb,
            },
            ParserError::InvalidFormat => SpecParserError::InvalidFormat,
            ParserError::Unknown => SpecParserError::Unknown,
        }
    }
}

impl DeepView for ParserError {
    type V = SpecParserError;

    open spec fn deep_view(&self) -> SpecParserError {
        self.view()
    }
}

impl ParserError {
    /// Describes the error in one line of text.
    pub fn message(&self) -> String {
        match self {
            ParserError::Io => "input-output error on the data source".to_owned(),
            ParserError::InvalidCSVStructure(_) => {
                "parsing value error in a transaction CSV string: string structure is incorrect".to_owned()
            },
            ParserError::InvalidTxtStrStructure(_) => {
                "parsing value error in a TXT string: string structure is incorrect".to_owned()
            },
            ParserError::InvalidValue { tx_numb: _ } => {
                "parsing value error in a transaction".to_owned()
            },
            ParserError::InvalidFormat => {
                "input or output format is incorrect; use txt, csv or bin".to_owned()
            },
            ParserError::Unknown => "unknown parsing error".to_owned(),
        }
    }
}

} // verus!
