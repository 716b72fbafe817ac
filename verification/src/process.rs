//! Per-candidate decisions: whether a file needs tiling, what its tiles
//! are, and how the write results settle its fate.
//!
//! The surrounding program walks the tree, decodes, writes and deletes;
//! every decision in between is made here.  The even-split policy is the
//! one in force: an oversized image is cut with the balanced strides of
//! `plan::even_stride`, never with a fixed stride, so no sliver tiles
//! arise.

use vstd::prelude::*;

verus! {

use crate::outcome::FailureReason;
use crate::outcome::ProcessingOutcome;
use crate::pixels::PixelBuffer;
use crate::pixels::Tile;
use crate::pixels::extract;
use crate::pixels::is_crop_of;
use crate::plan::ImageDimensions;
use crate::plan::TileError;
use crate::plan::even_stride;
use crate::plan::grid_seq;
use crate::plan::lemma_even_stride_bounds;
use crate::plan::lemma_grid_exact;
use crate::plan::plan_even_split;

/// An image is oversized — and so due for tiling — when either axis
/// exceeds the maximum edge.
pub open spec fn oversized(dims: ImageDimensions, max_edge: u32) -> bool {
    dims.width > max_edge || dims.height > max_edge
}

/// Decide whether an image of these dimensions needs tiling.
pub fn needs_tiling(dims: ImageDimensions, max_edge: u32) -> (r: bool)
    ensures
        r == oversized(dims, max_edge),
{
    dims.width > max_edge || dims.height > max_edge
}

/// The plan the processor uses for an oversized image: the even-split
/// grid.
pub open spec fn processor_plan(w: int, h: int, me: int) -> Seq<crate::plan::TileSpec> {
    grid_seq(w, h, even_stride(w, me), even_stride(h, me))
}

/// What evaluating one decoded candidate yields: the file is left alone,
/// the configuration is rejected, or the image is cut into tiles.
pub enum CandidateEvaluation {
    Skip,
    Rejected(TileError),
    Tiles(Vec<Tile>),
}

/// Evaluate one decoded candidate image.
///
/// An image within the maximum edge on both axes is skipped untouched.
/// An oversized one is cut along the even-split plan; that fails only on
/// a configuration that admits no tiling (a zero maximum edge, or an
/// image with a zero axis, which cannot reach planning intact).
pub fn evaluate_candidate(img: &PixelBuffer, max_edge: u32) -> (r: CandidateEvaluation)
    requires
        img.wf(),
    ensures
        r is Skip <==> !oversized(
            ImageDimensions { width: img.width, height: img.height },
            max_edge,
        ),
        r matches CandidateEvaluation::Rejected(e) ==> e == TileError::InvalidConfig,
        r is Rejected <==> (oversized(
            ImageDimensions { width: img.width, height: img.height },
            max_edge,
        ) && (max_edge == 0 || img.width == 0 || img.height == 0)),
        r matches CandidateEvaluation::Tiles(tiles) ==> {
            let plan = processor_plan(img.width as int, img.height as int, max_edge as int);
            &&& tiles@.len() == plan.len()
            &&& forall|k: int|
                0 <= k < tiles@.len() ==> (#[trigger] tiles@[k]).region == plan[k] && is_crop_of(
                    tiles@[k],
                    *img,
                )
        },
{
    let dims = ImageDimensions { width: img.width, height: img.height };
    if !needs_tiling(dims, max_edge) {
        return CandidateEvaluation::Skip;
    }
    match plan_even_split(dims, max_edge) {
        Err(e) => CandidateEvaluation::Rejected(e),
        Ok(plan) => {
            proof {
                lemma_even_stride_bounds(img.width as int, max_edge as int);
                lemma_even_stride_bounds(img.height as int, max_edge as int);
                lemma_grid_exact(
                    img.width as int,
                    img.height as int,
                    even_stride(img.width as int, max_edge as int),
                    even_stride(img.height as int, max_edge as int),
                );
            }
            CandidateEvaluation::Tiles(extract(img, &plan))
        },
    }
}

/// All write attempts of a candidate succeeded.
pub open spec fn all_writes_ok(results: Seq<bool>) -> bool {
    forall|i: int| 0 <= i < results.len() ==> results[i]
}

/// Settle a candidate's fate from its per-tile write results: the
/// original is deleted, and the candidate counted as tiled, exactly when
/// every tile was written; one failed write leaves the original in place
/// and marks the candidate failed, though the other tiles were still
/// attempted.
pub fn conclude_writes(tile_count: usize, results: &Vec<bool>) -> (r: (ProcessingOutcome, bool))
    requires
        results@.len() == tile_count,
    ensures
        r.1 == all_writes_ok(results@),
        all_writes_ok(results@) ==> r.0 == ProcessingOutcome::Tiled(tile_count),
        !all_writes_ok(results@) ==> r.0 == ProcessingOutcome::Failed(FailureReason::Write),
{
    let mut i: usize = 0;
    while i < results.len()
        invariant
            results@.len() == tile_count,
            i <= results@.len(),
            forall|j: int| 0 <= j < i ==> results@[j],
        decreases results@.len() - i,
    {
        if !results[i] {
            return (ProcessingOutcome::Failed(FailureReason::Write), false);
        }
        i = i + 1;
    }
    (ProcessingOutcome::Tiled(tile_count), true)
}

} // verus!
