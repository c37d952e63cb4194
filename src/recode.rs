use vstd::prelude::*;
use vstd::string::*;

verus! {

/// Errors of the image recoder that accompanies the router.
#[derive(Clone, Debug)]
pub enum Error {
    LoadError,
    ImageError(String),
    UnsupportedFormat,
}

/// The text that describes an error.
pub open spec fn error_message(e: Error) -> Seq<char> {
    let inner = match e {
        Error::LoadError => "load error"@,
        Error::ImageError(msg) => "image error: "@ + msg@,
        Error::UnsupportedFormat => "unsupported format"@,
    };
    "Error ( "@ + inner + " )"@
}

impl Error {
    /// The human-readable description, as `Error ( <message> )`.
    pub fn message(&self) -> (r: String)
        ensures
            r@ == error_message(*self),
    {
        let mut out = String::from_str("Error ( ");
        match self {
            Error::LoadError => out.append("load error"),
            Error::ImageError(msg) => {
                out.append("image error: ");
                out.append(msg.as_str());
            },
            Error::UnsupportedFormat => out.append("unsupported format"),
        }
        out.append(" )");
        proof {
            reveal_strlit("Error ( ");
            reveal_strlit("load error");
            reveal_strlit("image error: ");
            reveal_strlit("unsupported format");
            reveal_strlit(" )");
        }
        assert(out@ =~= error_message(*self));
        out
    }
}

/// Holder for the image conversion settings; it carries no state.
pub struct Recoder {}

impl Recoder {
    pub fn new() -> (r: Recoder)
        ensures
            r == (Recoder {}),
    {
        Recoder {}
    }
}

} // verus!
