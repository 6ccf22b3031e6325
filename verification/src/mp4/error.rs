//! Why an MP4 operation was refused.

use vstd::prelude::*;

use super::box_header::FourCc;

verus! {

/// Every way the library refuses an input. Each variant carries the values
/// that a message to the user needs.
#[derive(Debug, Clone, Copy, PartialEq, Eq)]
pub enum Mp4Error {
    /// A `largesize` header (`size == 1`) whose 8-byte size field is cut off.
    TruncatedHeader { kind: FourCc, offset: u64 },
    /// A box whose size is smaller than its own header.
    InvalidSize { kind: FourCc, offset: u64, size: u64 },
    /// A box that extends past the end of its parent (or of the file).
    PastParent { kind: FourCc, offset: u64, size: u64, limit: u64 },
    /// A buffer that is not exactly one `moov` box.
    NotMoov { kind: FourCc, size: u64 },
    /// An empty `moov` buffer.
    EmptyMoov,
    /// A `stco` / `co64` box too short for its version, flags and count.
    TruncatedTable { kind: FourCc },
    /// A `stco` / `co64` box too short for the entries it declares.
    TableTooSmall { kind: FourCc, count: usize },
    /// A chunk offset that no longer fits in a 32-bit `stco` entry.
    StcoOverflow { value: u64 },
    /// A container whose fixed prefix runs past the end of the buffer.
    TruncatedPrefix { kind: FourCc, offset: u64 },
    /// Image bytes that are neither JPEG nor PNG.
    UnrecognizedImage,
    /// Not exactly one top-level `moov` box.
    MoovCount { count: usize },
    /// A top-level `moof` or `sidx` box: fragmented MP4.
    FragmentedTopLevel,
    /// No top-level `mdat` box.
    NoMdat,
    /// The in-memory `moov` does not have the size its header claims.
    MoovBufferSize { buffer: usize, header: u64 },
    /// A `moov` written with `size == 0` that is larger than 4 GiB.
    MoovSizeZeroTooLarge { size: u64 },
    /// A `moov` larger than the library agrees to load.
    MoovTooLarge { size: u64 },
    /// `moov` contains `mvex`: fragmented MP4.
    FragmentedMvex,
    /// A chunk offset pointing inside the `moov` box itself.
    ChunkOffsetInsideMoov { value: u64 },
    /// The output holds a `covr` box of another size than expected.
    CovrSize { size: u64, expected_len: usize },
    /// The output does not hold exactly one `covr` box.
    CovrCount { count: usize },
    /// Input and output hold a different number of chunk offset tables.
    TableCountChanged,
    /// A chunk offset table changed kind or entry count.
    TableShapeChanged,
    /// A chunk offset that did not move by the expected amount.
    ChunkOffsetMismatch { index: usize, found: u64, expected: u64, input: u64 },
    /// A top-level box list whose length is not a whole number of records.
    TopLevelListSize { len: usize },
    /// Box sizes or offsets too large to add up in 64 bits.
    SizeOutOfRange,
    /// The output is not as long as the plan says.
    OutputLength { found: u64, expected: u64 },
    /// Input and output hold a different number of `mdat` boxes.
    MdatCountChanged { before: usize, after: usize },
    /// An `mdat` box changed size or header form.
    MdatSizeChanged { before: u64, after: u64 },
    /// An `mdat` payload differs between input and output.
    MdatPayloadChanged { offset: u64 },
}

} // verus!
