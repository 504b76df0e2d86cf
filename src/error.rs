use vstd::prelude::*;

verus! {

/// Why a corpus could not be read, a classifier built, or an evaluation run.
#[derive(Debug, Clone, Copy, PartialEq, Eq, Structural)]
pub enum DatasetError {
    /// The stream ended before a field or a record it announced.
    ShortRead,
    /// The stream does not start with the expected sentinel.
    BadMagic,
    /// The image stream announces a row count that differs from its column count.
    NonSquareImage,
    /// The image stream announces records of side zero.
    EmptyImage,
    /// The label stream and the image stream hold different numbers of records.
    CountMismatch,
    /// The neighbour count is zero or exceeds the reference set.
    InvalidK,
    /// Pictures of different sides were put together.
    ResolutionMismatch,
    /// A label lies outside the configured range of classes.
    OutOfRangeLabel,
}

} // verus!
