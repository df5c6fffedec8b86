//! The errors the service answers with, their HTTP status and their message.

use vstd::prelude::*;
use crate::text::{append_all, chars_of, string_of};

verus! {

broadcast use vstd::string::group_string_axioms;

/// An error of the service.
#[derive(Debug, Clone)]
pub enum AppError {
    TwitterApi(String),
    TweetNotFound,
    NoVideo,
    NoCaptions,
    InvalidUrl,
    Ffmpeg(String),
    Network(String),
    Internal(String),
}

/// The HTTP status an error is answered with.
pub open spec fn status_of(e: AppError) -> u16 {
    match e {
        AppError::TweetNotFound => 404,
        AppError::NoVideo => 404,
        AppError::NoCaptions => 404,
        AppError::InvalidUrl => 400,
        AppError::TwitterApi(_) => 502,
        AppError::Ffmpeg(_) => 500,
        AppError::Network(_) => 502,
        AppError::Internal(_) => 500,
    }
}

/// The message an error is shown with.
pub open spec fn message_of(e: AppError) -> Seq<char> {
    match e {
        AppError::TwitterApi(m) => "Twitter API error: "@ + m@,
        AppError::TweetNotFound => "Tweet not found or is private"@,
        AppError::NoVideo => "No video found in this tweet"@,
        AppError::NoCaptions => "No captions found for this tweet"@,
        AppError::InvalidUrl => "Invalid Twitter URL"@,
        AppError::Ffmpeg(m) => "ffmpeg error: "@ + m@,
        AppError::Network(m) => "Network error: "@ + m@,
        AppError::Internal(m) => "Internal error: "@ + m@,
    }
}

/// `prefix` followed by `detail`.
fn prefixed(prefix: &str, detail: &String) -> (r: String)
    ensures
        r@ == prefix@ + detail@,
{
    let mut v = chars_of(prefix);
    append_all(&mut v, &chars_of(detail.as_str()));
    string_of(&v)
}

impl AppError {
    /// The HTTP status code the error is answered with.
    pub fn status_code(&self) -> (code: u16)
        ensures
            code == status_of(*self),
    {
        match self {
            AppError::TweetNotFound => 404,
            AppError::NoVideo => 404,
            AppError::NoCaptions => 404,
            AppError::InvalidUrl => 400,
            AppError::TwitterApi(_) => 502,
            AppError::Ffmpeg(_) => 500,
            AppError::Network(_) => 502,
            AppError::Internal(_) => 500,
        }
    }

    /// The message the error is shown with.
    pub fn message(&self) -> (m: String)
        ensures
            m@ == message_of(*self),
    {
        match self {
            AppError::TwitterApi(d) => prefixed("Twitter API error: ", d),
            AppError::TweetNotFound => "Tweet not found or is private".to_string(),
            AppError::NoVideo => "No video found in this tweet".to_string(),
            AppError::NoCaptions => "No captions found for this tweet".to_string(),
            AppError::InvalidUrl => "Invalid Twitter URL".to_string(),
            AppError::Ffmpeg(d) => prefixed("ffmpeg error: ", d),
            AppError::Network(d) => prefixed("Network error: ", d),
            AppError::Internal(d) => prefixed("Internal error: ", d),
        }
    }
}

} // verus!
