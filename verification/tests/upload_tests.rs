use pkgtools::upload::{mime_type, token_from_file, upload_endpoint, uploaded_url, UploadError};

#[test]
fn the_token_is_the_trimmed_file() {
    assert_eq!(token_from_file("  secret-token\n"), Ok("secret-token".to_string()));
    assert_eq!(token_from_file(" \n\t"), Err(UploadError::EmptyToken));
    assert_eq!(UploadError::EmptyToken.message(), "Zipline token is empty");
}

#[test]
fn uploads_go_to_the_api() {
    assert_eq!(upload_endpoint("https://zipline.example"), "https://zipline.example/api/upload");
}

#[test]
fn the_type_follows_the_extension() {
    assert_eq!(mime_type(Some("png")), "image/png");
    assert_eq!(mime_type(Some("jpeg")), "image/jpeg");
    assert_eq!(mime_type(Some("jpg")), "image/jpeg");
    assert_eq!(mime_type(Some("mkv")), "video/x-matroska");
    assert_eq!(mime_type(Some("PNG")), "application/octet-stream");
    assert_eq!(mime_type(None), "application/octet-stream");
}

#[test]
fn the_first_reported_file_is_the_upload() {
    assert_eq!(
        uploaded_url(vec!["https://z/u/a.png".to_string(), "https://z/u/b.png".to_string()]),
        Ok("https://z/u/a.png".to_string())
    );
    assert_eq!(uploaded_url(Vec::new()), Err(UploadError::NoFiles));
    assert_eq!(UploadError::NoFiles.message(), "No files in Zipline response");
}
