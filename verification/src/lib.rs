//! Verified core of a directory-tree image tiler.
//!
//! Oversized raster images are partitioned into a grid of bounded-size
//! tiles; each tile is cropped out of the source pixel buffer, named after
//! the source file, and handed back for persistence.  This crate holds the
//! decision logic — grid planning, pixel cropping, output naming, and the
//! per-file / per-run failure accounting — all of it verified.  Decoding,
//! encoding, the filesystem walk and the user interface live outside.

use vstd::prelude::*;

pub mod naming;
pub mod outcome;
pub mod pixels;
pub mod plan;
pub mod process;

verus! {

pub use naming::file_name_is_candidate;
pub use naming::is_png_name;
pub use naming::output_tile_name;
pub use naming::tile_file_name;
pub use outcome::FailureReason;
pub use outcome::ProcessingOutcome;
pub use outcome::RunStats;
pub use outcome::tally_outcomes;
pub use pixels::PixelBuffer;
pub use pixels::Tile;
pub use pixels::assemble;
pub use pixels::crop;
pub use pixels::extract;
pub use pixels::reassemble;
pub use plan::ImageDimensions;
pub use plan::TileError;
pub use plan::TileSpec;
pub use plan::plan_even_split;
pub use plan::plan_fixed_stride;
pub use process::CandidateEvaluation;
pub use process::conclude_writes;
pub use process::evaluate_candidate;
pub use process::needs_tiling;

} // verus!
