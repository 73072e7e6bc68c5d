//! Error kinds of the library.
use vstd::prelude::*;

verus! {

/// What went wrong.
#[derive(Debug, Clone, PartialEq, Eq)]
pub enum Error {
    /// The path does not name a known SDK.
    UnknownSdk,
    /// The architecture flag is not in the known table.
    UnknownArchitecture(String),
    /// The object holds no variant for the architecture.
    MissingArchitecture(String),
    /// The database file has a version other than 1.
    UnsupportedMemDbVersion,
    /// The database file is inconsistent: out of bounds, or not UTF-8.
    BadMemDb,
    /// An address does not fit the 40 bits of an index item.
    AddressOverflow(u64),
    /// A name table holds as many entries as an index item can refer to.
    TableFull,
    /// The database would exceed what its fields can address.
    TooLarge,
    /// A configuration key is missing.
    MissingConfigKey(String),
    /// A configuration key holds a bad value.
    BadConfigKey(String, String),
}

} // verus!
