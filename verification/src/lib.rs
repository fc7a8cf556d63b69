//! SQP ink-canister codes: the RFE32 text codec, the RC6 block cipher, the
//! preview/plaintext bit layouts, and code generation, each with its contract.

use vstd::prelude::*;

pub mod bytepool;
pub mod codec;
pub mod generate;
pub mod maps;
pub mod qr;
pub mod rc6;
pub mod rfe32;
pub mod text;

pub use codec::{decode, encode, DecodeResult, Fields};
pub use generate::{
    auto_batch, generate, generate_with, CalendarDate, CodeRng, CodeSet, GenerateRequest,
    GeneratedCode,
};
pub use maps::{InkType, SUPPORTED_COLOR_NAMES};

verus! {

/// All fallible operations of the library return this error type.
#[derive(Debug, PartialEq, Eq)]
pub enum SqpError {
    /// An RFE32 string was not exactly 32 characters.
    BadLength(usize),
    /// An RFE32 string contained a character outside the alphabet.
    CharNotInAlphabet(char),
    /// A color name that is not one of the supported SKUs.
    UnknownColor(String),
    /// A volume (in litres) that has no known mapping.
    UnknownVolume(u8),
    /// A combination of fields that does not correspond to a real SKU.
    InvalidCombo(String),
    /// A code could not be decoded (bad length or structure).
    DecodeError(String),
    /// A batch string that is not nine characters of `A-Z` and `0-9`.
    BadBatch(String),
    /// A freshly encoded code failed its own cross-check.
    EncoderRegression(String),
    /// Too many collisions in a row while generating unique codes.
    CollisionExhausted,
}

/// The mathematical value of an `SqpError`: strings are taken by their characters.
pub enum SqpErrorView {
    BadLength(usize),
    CharNotInAlphabet(char),
    UnknownColor(Seq<char>),
    UnknownVolume(u8),
    InvalidCombo(Seq<char>),
    DecodeError(Seq<char>),
    BadBatch(Seq<char>),
    EncoderRegression(Seq<char>),
    CollisionExhausted,
}

impl View for SqpError {
    type V = SqpErrorView;

    open spec fn view(&self) -> SqpErrorView {
        match self {
            SqpError::BadLength(n) => SqpErrorView::BadLength(*n),
            SqpError::CharNotInAlphabet(c) => SqpErrorView::CharNotInAlphabet(*c),
            SqpError::UnknownColor(s) => SqpErrorView::UnknownColor(s@),
            SqpError::UnknownVolume(v) => SqpErrorView::UnknownVolume(*v),
            SqpError::InvalidCombo(s) => SqpErrorView::InvalidCombo(s@),
            SqpError::DecodeError(s) => SqpErrorView::DecodeError(s@),
            SqpError::BadBatch(s) => SqpErrorView::BadBatch(s@),
            SqpError::EncoderRegression(s) => SqpErrorView::EncoderRegression(s@),
            SqpError::CollisionExhausted => SqpErrorView::CollisionExhausted,
        }
    }
}

/// A result of the library, with its value and error both taken by their views.
pub open spec fn result_view<T: View>(r: Result<T, SqpError>) -> Result<T::V, SqpErrorView> {
    match r {
        Ok(v) => Ok(v@),
        Err(e) => Err(e@),
    }
}

} // verus!
