//! The decisions of the image-fetch flow, taken on plain response values:
//! which responses proceed, which error each failure reports, and the
//! description each error prints. The HTTP calls, the JSON decode and the
//! file write themselves stay outside the library.
use vstd::prelude::*;

use crate::strutil::{dec_digits_of, push_u16_digits};

verus! {

/// The two fields the image service answers with.
#[derive(Clone, Debug)]
pub struct DogImage {
    pub message: String,
    pub status: String,
}

/// Everything that can go wrong while fetching and saving an image.
#[derive(Clone, Debug)]
pub enum DogFetcherError {
    NetworkError(String),
    ApiError(String),
    ParseError(String),
    IoError(String),
}

impl DogFetcherError {
    /// The description each error prints.
    pub fn describe(&self) -> (r: String)
        ensures
            match self {
                DogFetcherError::NetworkError(e) => r@ == "Network connectivity error: "@ + e@,
                DogFetcherError::ApiError(e) => r@ == "API or HTTP error: "@ + e@,
                DogFetcherError::ParseError(e) => r@ == "Response parsing error: "@ + e@,
                DogFetcherError::IoError(e) => r@ == "File system I/O error: "@ + e@,
            },
    {
        match self {
            DogFetcherError::NetworkError(e) => String::from_str(
                "Network connectivity error: ",
            ).concat(e.as_str()),
            DogFetcherError::ApiError(e) => String::from_str("API or HTTP error: ").concat(
                e.as_str(),
            ),
            DogFetcherError::ParseError(e) => String::from_str(
                "Response parsing error: ",
            ).concat(e.as_str()),
            DogFetcherError::IoError(e) => String::from_str("File system I/O error: ").concat(
                e.as_str(),
            ),
        }
    }
}

/// Decides what follows the metadata request: the parsed image goes through
/// exactly when the status is 200 and the body decoded; anything else
/// becomes the error the caller reports.
pub fn classify_api_response(status: u16, body: Result<DogImage, String>) -> (r: Result<
    DogImage,
    DogFetcherError,
>)
    ensures
        status == 200 && body is Ok ==> r == Result::<DogImage, DogFetcherError>::Ok(
            body->Ok_0,
        ),
        status == 200 && body is Err ==> (r matches Err(DogFetcherError::ParseError(m))
            && m@ == "Failed to parse JSON: "@ + body->Err_0@),
        status != 200 ==> (r matches Err(DogFetcherError::ApiError(m)) && m@
            == "API responded with HTTP status: "@ + dec_digits_of(status as int)),
{
    if status == 200 {
        match body {
            Ok(img) => Ok(img),
            Err(e) => Err(
                DogFetcherError::ParseError(
                    String::from_str("Failed to parse JSON: ").concat(e.as_str()),
                ),
            ),
        }
    } else {
        let mut m = String::from_str("API responded with HTTP status: ");
        push_u16_digits(&mut m, status);
        Err(DogFetcherError::ApiError(m))
    }
}

/// Decides what follows the image download request: only status 200 goes
/// through to the file write.
pub fn classify_download_status(status: u16) -> (r: Result<(), DogFetcherError>)
    ensures
        (status == 200) <==> r is Ok,
        status != 200 ==> (r matches Err(DogFetcherError::ApiError(m)) && m@
            == "Image download failed with HTTP status: "@ + dec_digits_of(status as int)),
{
    if status == 200 {
        Ok(())
    } else {
        let mut m = String::from_str("Image download failed with HTTP status: ");
        push_u16_digits(&mut m, status);
        Err(DogFetcherError::ApiError(m))
    }
}

} // verus!
