//! What can go wrong, and how it is told.

use vstd::prelude::*;
use vstd::string::*;

verus! {

/// The error type of the `image` crate. Nothing is claimed of what is inside.
#[verifier::external_type_specification]
#[verifier::external_body]
pub struct ExImageError(image::ImageError);

/// An error of this library.
#[derive(Debug)]
pub enum PixelSnapperError {
    /// An image could not be read or written.
    ImageError(image::ImageError),
    /// The request cannot be met.
    InvalidInput(String),
    /// The work could not be completed.
    ProcessingError(String),
}

impl PixelSnapperError {
    /// The error is a refused request with this text.
    pub open spec fn is_invalid_input(self, text: Seq<char>) -> bool {
        self matches PixelSnapperError::InvalidInput(message) && message@ == text
    }

    /// The error is work left undone, with this text.
    pub open spec fn is_processing_error(self, text: Seq<char>) -> bool {
        self matches PixelSnapperError::ProcessingError(message) && message@ == text
    }

    /// Tells the error in words: what kind it is, a colon, and its text. The text of an image
    /// error is the one that it displays.
    pub fn message(&self) -> (words: String)
        ensures
            match *self {
                PixelSnapperError::ImageError(e) => exists|shown: String|
                    to_string_from_display_ensures::<image::ImageError>(&e, shown) && words@
                        == "Image error: "@ + #[trigger] shown@,
                PixelSnapperError::InvalidInput(text) => words@ == "Invalid input: "@ + text@,
                PixelSnapperError::ProcessingError(text) => words@ == "Processing error: "@ + text@,
            },
    {
        match self {
            PixelSnapperError::ImageError(e) => {
                let shown: String = e.to_string();
                let words: String = "Image error: ".to_owned();
                words.concat(shown.as_str())
            },
            PixelSnapperError::InvalidInput(text) => {
                let words: String = "Invalid input: ".to_owned();
                words.concat(text.as_str())
            },
            PixelSnapperError::ProcessingError(text) => {
                let words: String = "Processing error: ".to_owned();
                words.concat(text.as_str())
            },
        }
    }
}

impl From<image::ImageError> for PixelSnapperError {
    fn from(error: image::ImageError) -> (wrapped: Self) {
        PixelSnapperError::ImageError(error)
    }
}

impl vstd::std_specs::convert::FromSpecImpl<image::ImageError> for PixelSnapperError {
    open spec fn obeys_from_spec() -> bool {
        true
    }

    open spec fn from_spec(error: image::ImageError) -> Self {
        PixelSnapperError::ImageError(error)
    }
}

/// A refused request with the given text.
pub fn invalid_input(text: &str) -> (error: PixelSnapperError)
    ensures
        error.is_invalid_input(text@),
{
    PixelSnapperError::InvalidInput(text.to_owned())
}

/// Work left undone, with the given text.
pub fn processing_error(text: &str) -> (error: PixelSnapperError)
    ensures
        error.is_processing_error(text@),
{
    PixelSnapperError::ProcessingError(text.to_owned())
}

} // verus!
