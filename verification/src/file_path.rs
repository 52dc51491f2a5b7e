use vstd::prelude::*;
use crate::signature::{TC_ARRAY, TC_BYTE};
use crate::value::bytes_eq;
use vstd::string::StringSliceAdditionalSpecFns;

verus! {

/// Declares `std::path::PathBuf` so that conversions can name it; the
/// type stays opaque here.
#[verifier::external_type_specification]
#[verifier::external_body]
pub struct ExPathBuf(std::path::PathBuf);

/// Declares `std::path::Path` so that conversions can name it; the
/// type stays opaque here.
#[verifier::external_type_specification]
#[verifier::external_body]
pub struct ExPath(std::path::Path);

/// A file name carried on the wire as a byte array (signature `ay`)
/// rather than as a D-Bus string, since file paths need not be valid
/// UTF-8.  The name is stored here as the path's own bytes, exactly as
/// they are serialized.
#[derive(Debug)]
pub struct FilePath {
    pub path: Vec<u8>,
}

impl FilePath {
    /// The D-Bus signature of a file path on the wire: an array of
    /// bytes.
    pub fn signature() -> (r: Vec<u8>)
        ensures
            r@ == seq![TC_ARRAY, TC_BYTE],
    {
        let mut out: Vec<u8> = Vec::new();
        out.push(TC_ARRAY);
        out.push(TC_BYTE);
        proof {
            assert(out@ =~= seq![TC_ARRAY, TC_BYTE]);
        }
        out
    }

    /// Wraps the bytes of a string as a file path.
    pub fn new(value: &str) -> (r: FilePath)
        ensures
            r.path@ == value.spec_bytes(),
    {
        FilePath { path: crate::value::bytes_of_str(value) }
    }

    /// This path, unchanged; mirrors borrowing the wrapper itself.
    pub fn as_ref(&self) -> (r: &FilePath)
        ensures
            r == self,
    {
        self
    }

    /// Relies on `PathBuf::from` and `String::from_utf8_lossy` to turn
    /// the stored bytes back into an owned path; only a path that is
    /// not valid UTF-8 comes back changed.
    #[verifier::external_body]
    pub fn into(self) -> std::path::PathBuf {
        std::path::PathBuf::from(String::from_utf8_lossy(self.path.as_slice()).into_owned())
    }
}

impl From<&str> for FilePath {
    fn from(value: &str) -> (r: FilePath) {
        FilePath::new(value)
    }
}

impl vstd::std_specs::convert::FromSpecImpl<&str> for FilePath {
    open spec fn obeys_from_spec() -> bool {
        false
    }

    open spec fn from_spec(value: &str) -> FilePath {
        vstd::pervasive::arbitrary()
    }
}

impl<'f> From<&'f std::path::Path> for FilePath {
    /// Relies on `Path::as_os_str` and `OsStr::as_encoded_bytes` to
    /// read the path's bytes unchanged.
    #[verifier::external_body]
    fn from(value: &'f std::path::Path) -> (r: FilePath) {
        FilePath { path: value.as_os_str().as_encoded_bytes().to_vec() }
    }
}

impl From<std::path::PathBuf> for FilePath {
    /// Relies on `Path::as_os_str` and `OsStr::as_encoded_bytes` to
    /// read the path's bytes unchanged.
    #[verifier::external_body]
    fn from(value: std::path::PathBuf) -> (r: FilePath) {
        FilePath { path: value.as_os_str().as_encoded_bytes().to_vec() }
    }
}

impl PartialEq for FilePath {
    fn eq(&self, other: &FilePath) -> (r: bool) {
        bytes_eq(&self.path, &other.path)
    }
}

impl vstd::std_specs::cmp::PartialEqSpecImpl for FilePath {
    open spec fn obeys_eq_spec() -> bool {
        true
    }

    open spec fn eq_spec(&self, other: &FilePath) -> bool {
        self.path@ == other.path@
    }
}

impl Eq for FilePath {

}

impl Default for FilePath {
    /// The empty path.
    fn default() -> (r: FilePath)
        ensures
            r.path@.len() == 0,
    {
        FilePath { path: Vec::new() }
    }
}

} // verus!
