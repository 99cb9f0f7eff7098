//! The element types of managed tensors and the one error type of the runtime.

use vstd::prelude::*;

use crate::text::cat2;

verus! {

/// Logical element type of a managed tensor.
///
/// Half-precision weights are stored in GPU buffers as packed `u32` words, two lanes to a word,
/// and unpacked in the kernel, so [`DType::F16`] describes the logical element and not the
/// storage word.
#[derive(Clone, Copy, Debug, PartialEq, Eq, Structural)]
pub enum DType {
    F32,
    F16,
    U32,
    I32,
}

impl DType {
    /// The size in bytes of one logical element.
    pub open spec fn bytes(self) -> nat {
        match self {
            DType::F16 => 2,
            _ => 4,
        }
    }

    /// Size in bytes of one logical element.
    pub fn size(self) -> (r: usize)
        ensures
            r == self.bytes(),
    {
        match self {
            DType::F32 | DType::U32 | DType::I32 => 4,
            DType::F16 => 2,
        }
    }
}

/// The single error type of the runtime.
#[derive(Debug)]
pub enum EyebrowseError {
    DeviceUnavailable(String),
    Load(String),
    UnsupportedConfig(String),
    ShapeMismatch(String),
    OutOfMemory(String),
    Other(String),
}

/// An error with its text as a sequence of characters.
pub enum ErrorView {
    DeviceUnavailable(Seq<char>),
    Load(Seq<char>),
    UnsupportedConfig(Seq<char>),
    ShapeMismatch(Seq<char>),
    OutOfMemory(Seq<char>),
    Other(Seq<char>),
}

impl View for EyebrowseError {
    type V = ErrorView;

    open spec fn view(&self) -> ErrorView {
        match self {
            EyebrowseError::DeviceUnavailable(s) => ErrorView::DeviceUnavailable(s@),
            EyebrowseError::Load(s) => ErrorView::Load(s@),
            EyebrowseError::UnsupportedConfig(s) => ErrorView::UnsupportedConfig(s@),
            EyebrowseError::ShapeMismatch(s) => ErrorView::ShapeMismatch(s@),
            EyebrowseError::OutOfMemory(s) => ErrorView::OutOfMemory(s@),
            EyebrowseError::Other(s) => ErrorView::Other(s@),
        }
    }
}

impl ErrorView {
    /// The sentence shown to a reader.
    pub open spec fn sentence(self) -> Seq<char> {
        match self {
            ErrorView::DeviceUnavailable(s) => "gpu device unavailable: "@ + s,
            ErrorView::Load(s) => "load error: "@ + s,
            ErrorView::UnsupportedConfig(s) => "unsupported config field: "@ + s,
            ErrorView::ShapeMismatch(s) => "shape mismatch: "@ + s,
            ErrorView::OutOfMemory(s) => "out of memory: "@ + s,
            ErrorView::Other(s) => s,
        }
    }
}

impl EyebrowseError {
    /// The sentence shown to a reader: what went wrong, after the kind of error.
    pub fn message(&self) -> (r: String)
        ensures
            r@ == self@.sentence(),
    {
        match self {
            EyebrowseError::DeviceUnavailable(s) => cat2("gpu device unavailable: ", s.as_str()),
            EyebrowseError::Load(s) => cat2("load error: ", s.as_str()),
            EyebrowseError::UnsupportedConfig(s) => cat2("unsupported config field: ", s.as_str()),
            EyebrowseError::ShapeMismatch(s) => cat2("shape mismatch: ", s.as_str()),
            EyebrowseError::OutOfMemory(s) => cat2("out of memory: ", s.as_str()),
            EyebrowseError::Other(s) => s.clone(),
        }
    }
}

/// What every fallible operation of the runtime returns.
pub type Result<T> = std::result::Result<T, EyebrowseError>;

/// What a fallible operation returned, with its value and its error by their views.
pub open spec fn seen<T: View>(r: Result<T>) -> std::result::Result<T::V, ErrorView> {
    match r {
        Ok(v) => Ok(v@),
        Err(e) => Err(e@),
    }
}

/// The sentence for an error is what went wrong, after words for the kind of error where it has
/// one; halves take half the room of words.
pub proof fn lemma_sentences(s: Seq<char>)
    ensures
        ErrorView::DeviceUnavailable(s).sentence() == "gpu device unavailable: "@ + s,
        ErrorView::Load(s).sentence() == "load error: "@ + s,
        ErrorView::UnsupportedConfig(s).sentence() == "unsupported config field: "@ + s,
        ErrorView::ShapeMismatch(s).sentence() == "shape mismatch: "@ + s,
        ErrorView::OutOfMemory(s).sentence() == "out of memory: "@ + s,
        ErrorView::Other(s).sentence() == s,
        2 * DType::F16.bytes() == DType::U32.bytes(),
        8 * DType::F32.bytes() == 32,
        8 * DType::I32.bytes() == 32,
        8 * DType::U32.bytes() == 32,
{
}

} // verus!
