use vstd::prelude::*;

verus! {

/// The compression formats a decompressing reader can decode. The reader
/// itself wraps foreign decoder streams and lives with the unverified I/O
/// code; the format tag is plain data and lives here.
#[derive(Clone, Copy, Debug, PartialEq, Eq, Structural)]
pub enum DecompressorType {
    Bzip2,
    Gzip,
    Zstd,
}

impl DecompressorType {
    /// A short name for the format.
    pub fn describe(&self) -> (r: &'static str) {
        match self {
            DecompressorType::Bzip2 => "bzip2",
            DecompressorType::Gzip => "gzip",
            DecompressorType::Zstd => "zstd",
        }
    }
}

} // verus!
