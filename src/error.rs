//! The errors a merge can end with.
use vstd::prelude::*;

verus! {

#[verifier::external_type_specification]
#[verifier::external_body]
pub struct ExIoError(std::io::Error);

#[verifier::external_type_specification]
#[verifier::external_body]
pub struct ExZipError(zip::result::ZipError);

/// Why a merge failed.
#[derive(Debug)]
pub enum MergeError {
    /// Reading or writing bytes failed.
    Io(std::io::Error),
    /// An archive could not be read or written.
    Zip(zip::result::ZipError),
    /// An input was unusable, or the conflict policy refused a path.
    InvalidInput(String),
}

impl MergeError {
    /// Builds an `InvalidInput` error whose message is `prefix` followed by `detail`.
    pub fn invalid(prefix: &str, detail: &str) -> (r: MergeError)
        ensures
            r matches MergeError::InvalidInput(m) && m@ == prefix@ + detail@,
    {
        let mut m = String::from_str(prefix);
        m.append(detail);
        MergeError::InvalidInput(m)
    }
}

} // verus!
