//! Uploading a capture to a Zipline server: the token it is sent with, the
//! address it goes to, the type it is declared as, and the address the
//! server gives back.
use vstd::prelude::*;

use crate::strings::{push_str, trim, trimmed};
use crate::text::str_eq;

verus! {

/// Why an upload could not be made.
#[derive(Debug, Clone, PartialEq, Eq)]
pub enum UploadError {
    /// The token file holds nothing but whitespace.
    EmptyToken,
    /// The server named no uploaded file.
    NoFiles,
}

impl UploadError {
    /// The message shown for the error.
    pub fn message(&self) -> (s: String)
        ensures
            s@ == upload_error_text(*self),
    {
        match self {
            UploadError::EmptyToken => "Zipline token is empty".to_owned(),
            UploadError::NoFiles => "No files in Zipline response".to_owned(),
        }
    }
}

pub open spec fn upload_error_text(e: UploadError) -> Seq<char> {
    match e {
        UploadError::EmptyToken => "Zipline token is empty"@,
        UploadError::NoFiles => "No files in Zipline response"@,
    }
}

/// The token in the contents of a token file: the contents trimmed, which
/// must not be empty.
pub fn token_from_file(contents: &str) -> (r: Result<String, UploadError>)
    ensures
        trimmed(contents@).len() > 0 ==> (r matches Ok(t) && t@ == trimmed(contents@)),
        trimmed(contents@).len() == 0 ==> r == Err::<String, UploadError>(UploadError::EmptyToken),
{
    let t = trim(contents);
    if t.unicode_len() == 0 {
        Err(UploadError::EmptyToken)
    } else {
        Ok(t.to_owned())
    }
}

/// The address uploads are posted to on the server at `server`.
pub fn upload_endpoint(server: &str) -> (r: String)
    ensures
        r@ == server@ + "/api/upload"@,
{
    let mut r = server.to_owned();
    push_str(&mut r, "/api/upload");
    r
}

/// The MIME type an upload is declared as, by the file's extension.
pub open spec fn mime_type_of(extension: Option<Seq<char>>) -> Seq<char> {
    match extension {
        Some(e) => if e == "png"@ {
            "image/png"@
        } else if e == "jpg"@ || e == "jpeg"@ {
            "image/jpeg"@
        } else if e == "gif"@ {
            "image/gif"@
        } else if e == "webp"@ {
            "image/webp"@
        } else if e == "mp4"@ {
            "video/mp4"@
        } else if e == "webm"@ {
            "video/webm"@
        } else if e == "mkv"@ {
            "video/x-matroska"@
        } else {
            "application/octet-stream"@
        },
        None => "application/octet-stream"@,
    }
}

/// The MIME type of a file with `extension` (none when it has none).
pub fn mime_type(extension: Option<&str>) -> (m: &'static str)
    ensures
        m@ == mime_type_of(
            match extension {
                Some(e) => Some(e@),
                None => None,
            },
        ),
{
    match extension {
        Some(e) => {
            if str_eq(e, "png") {
                "image/png"
            } else if str_eq(e, "jpg") || str_eq(e, "jpeg") {
                "image/jpeg"
            } else if str_eq(e, "gif") {
                "image/gif"
            } else if str_eq(e, "webp") {
                "image/webp"
            } else if str_eq(e, "mp4") {
                "video/mp4"
            } else if str_eq(e, "webm") {
                "video/webm"
            } else if str_eq(e, "mkv") {
                "video/x-matroska"
            } else {
                "application/octet-stream"
            }
        },
        None => "application/octet-stream",
    }
}

/// The public address of an upload, from the addresses of the files the
/// server reports: the first one.
pub fn uploaded_url(file_urls: Vec<String>) -> (r: Result<String, UploadError>)
    ensures
        file_urls@.len() > 0 ==> (r matches Ok(u) && u@ == file_urls@[0]@),
        file_urls@.len() == 0 ==> r == Err::<String, UploadError>(UploadError::NoFiles),
{
    if file_urls.len() == 0 {
        Err(UploadError::NoFiles)
    } else {
        Ok(file_urls[0].as_str().to_owned())
    }
}

} // verus!
