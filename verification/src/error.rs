//! The errors of the save system.
use vstd::prelude::*;

verus! {

/// `std::io::Error`, carried through the library unopened.
#[verifier::external_type_specification]
#[verifier::external_body]
pub struct ExIoError(std::io::Error);

/// All errors that can occur in the save system.
#[derive(Debug)]
pub enum SaveError {
    /// An I/O error occurred while reading or writing a file.
    Io(std::io::Error),
    /// Decryption or authentication failed: usually a wrong passphrase or a
    /// tampered or corrupted file.
    Crypto(String),
    /// The file is not a well-formed slot file.
    InvalidFormat(String),
    /// The file was written with a different format version.
    VersionMismatch { expected: u32, found: u32 },
    /// The requested slot has no save file on disk.
    SlotNotFound(u32),
}

/// What an error says, with its messages as character sequences.
pub enum SaveErrorView {
    Io,
    Crypto(Seq<char>),
    InvalidFormat(Seq<char>),
    VersionMismatch { expected: u32, found: u32 },
    SlotNotFound(u32),
}

impl View for SaveError {
    type V = SaveErrorView;

    open spec fn view(&self) -> SaveErrorView {
        match self {
            SaveError::Io(_) => SaveErrorView::Io,
            SaveError::Crypto(m) => SaveErrorView::Crypto(m@),
            SaveError::InvalidFormat(m) => SaveErrorView::InvalidFormat(m@),
            SaveError::VersionMismatch { expected, found } => SaveErrorView::VersionMismatch {
                expected: *expected,
                found: *found,
            },
            SaveError::SlotNotFound(n) => SaveErrorView::SlotNotFound(*n),
        }
    }
}

/// The view of a result: the value by `f`, the error by its view.
pub open spec fn result_view<T, U>(
    r: core::result::Result<T, SaveError>,
    f: spec_fn(T) -> U,
) -> core::result::Result<U, SaveErrorView> {
    match r {
        Ok(v) => Ok(f(v)),
        Err(e) => Err(e@),
    }
}

/// Convenience `Result` alias for this crate.
pub type Result<T> = core::result::Result<T, SaveError>;

} // verus!
