//! Minimal ISO-BMFF (MP4) support: only enough to locate and replace the
//! iTunes-style cover artwork (`moov/udta/meta/ilst/covr`).
//!
//! - **Replace**: only the `covr` box.
//! - **Recalculate**: size fields of its ancestors (`ilst`, `meta`, `udta`,
//!   `moov`), plus `stco`/`co64` entries *only* if `mdat` has to move.
//! - **Preserve**: everything else byte-for-byte, including boxes that are
//!   not understood.

pub mod be;
pub mod box_header;
pub mod error;
pub mod finder;
pub mod artwork;
pub mod rebuild;
pub mod planner;
pub mod verify;
pub mod pieces;
pub mod cover_law;
pub mod shift_law;
pub mod tables_law;
pub mod frame_law;
pub mod check_law;
