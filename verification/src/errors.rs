use vstd::prelude::*;

verus! {

/// The failure modes of the codec. Structural problems in a container,
/// missing geometry data, and malformed pack parameters each get their
/// own variant; `Io` stands for a missing or unreadable input handed in
/// by the caller.
#[derive(Clone, Copy, Debug, PartialEq, Eq, Structural)]
pub enum Error {
    /// The leading 4-byte signature matches no known container kind.
    UnrecognizedFormat,
    /// A header that must carry a magic value does not, or is too short.
    InvalidHeader,
    /// The embedded partition-table payload does not start with the
    /// partition-table magic.
    InvalidEmbeddedContainer,
    /// A declared (offset, length) region reaches past the available bytes.
    TruncatedContainer,
    /// Packing was requested without geometry data for every partition.
    MissingPartitionGeometry,
    /// A metadata line carries a numeric field that does not parse, or the
    /// package manifest lists no files.
    MalformedManifestLine,
    /// The dotted version string is not three unsigned integers.
    MalformedVersionString,
    /// The code field is not a hexadecimal number that fits in 32 bits.
    MalformedCodeField,
    /// The build timestamp maps to no calendar date, or a decoded date is
    /// not a valid calendar date.
    InvalidTimestamp,
    /// The chip family name is not one of the recognized names.
    UnsupportedChipFamily,
    /// A file content the operation needs was not supplied.
    Io,
}

} // verus!
