use vstd::prelude::*;

verus! {

#[verifier::external_type_specification]
#[verifier::external_body]
pub struct ExIoError(std::io::Error);

/// Where documents are read from and written to, by path.
pub trait FileSystem {
    /// The text stored at `path`.
    fn read_to_string(&self, path: &str) -> Result<String, std::io::Error>;

    /// Stores `contents` at `path`.
    fn write_string(&self, path: &str, contents: &str) -> Result<(), std::io::Error>;
}

/// The text of an I/O error, as `std::io::Error`'s `Display` writes it. The text
/// depends on the operating system's description of the error, so nothing is
/// stated of it.
#[verifier::external_body]
pub(crate) fn io_error_text(error: &std::io::Error) -> String {
    error.to_string()
}

} // verus!
