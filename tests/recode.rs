use route::{Error, Recoder};

#[test]
fn error_messages() {
    assert_eq!(Error::LoadError.message(), "Error ( load error )");
    assert_eq!(Error::ImageError("bad".to_string()).message(), "Error ( image error: bad )");
    assert_eq!(Error::UnsupportedFormat.message(), "Error ( unsupported format )");
}

#[test]
fn recoder_new() {
    let _r = Recoder::new();
}
