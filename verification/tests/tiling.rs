use image_tiler::outcome::{FailureReason, ProcessingOutcome, RunStats};
use image_tiler::pixels::{assemble, crop, extract, PixelBuffer};
use image_tiler::plan::{plan_even_split, plan_fixed_stride, ImageDimensions, TileError, TileSpec};
use image_tiler::process::{conclude_writes, evaluate_candidate, needs_tiling, CandidateEvaluation};
use image_tiler::tally_outcomes;

fn dims(width: u32, height: u32) -> ImageDimensions {
    ImageDimensions { width, height }
}

fn spec(origin_x: u32, origin_y: u32, width: u32, height: u32) -> TileSpec {
    TileSpec {
        origin_x,
        origin_y,
        width,
        height,
    }
}

fn buffer(width: u32, height: u32) -> PixelBuffer {
    let mut data = Vec::new();
    for i in 0..(4 * width * height) {
        data.push((i % 251) as u8);
    }
    PixelBuffer {
        width,
        height,
        data,
    }
}

#[test]
fn fixed_stride_600_by_300() {
    let plan = plan_fixed_stride(dims(600, 300), 512).unwrap();
    assert_eq!(plan, vec![spec(0, 0, 512, 300), spec(512, 0, 88, 300)]);
}

#[test]
fn fixed_stride_full_grid() {
    let plan = plan_fixed_stride(dims(1030, 513), 512).unwrap();
    assert_eq!(
        plan,
        vec![
            spec(0, 0, 512, 512),
            spec(512, 0, 512, 512),
            spec(1024, 0, 6, 512),
            spec(0, 512, 512, 1),
            spec(512, 512, 512, 1),
            spec(1024, 512, 6, 1),
        ]
    );
}

#[test]
fn even_split_600_by_300() {
    let plan = plan_even_split(dims(600, 300), 512).unwrap();
    assert_eq!(plan, vec![spec(0, 0, 300, 300), spec(300, 0, 300, 300)]);
}

#[test]
fn even_split_never_exceeds_max_edge() {
    for (w, h) in [(513, 1), (1, 513), (1025, 700), (4096, 4096), (517, 519)] {
        let plan = plan_even_split(dims(w, h), 512).unwrap();
        assert!(!plan.is_empty());
        for t in plan {
            assert!(t.width <= 512 && t.height <= 512);
            assert!(t.origin_x + t.width <= w && t.origin_y + t.height <= h);
        }
    }
}

#[test]
fn small_image_is_one_full_tile_under_both_policies() {
    let fixed = plan_fixed_stride(dims(400, 300), 512).unwrap();
    let even = plan_even_split(dims(400, 300), 512).unwrap();
    assert_eq!(fixed, vec![spec(0, 0, 400, 300)]);
    assert_eq!(even, vec![spec(0, 0, 400, 300)]);
}

#[test]
fn zero_max_edge_is_invalid_config() {
    assert_eq!(
        plan_fixed_stride(dims(10, 10), 0),
        Err(TileError::InvalidConfig)
    );
    assert_eq!(
        plan_even_split(dims(10, 10), 0),
        Err(TileError::InvalidConfig)
    );
}

#[test]
fn zero_sized_image_is_invalid_config() {
    assert_eq!(
        plan_fixed_stride(dims(0, 300), 512),
        Err(TileError::InvalidConfig)
    );
    assert_eq!(
        plan_even_split(dims(600, 0), 512),
        Err(TileError::InvalidConfig)
    );
}

#[test]
fn needs_tiling_on_either_axis() {
    assert!(!needs_tiling(dims(512, 512), 512));
    assert!(needs_tiling(dims(513, 1), 512));
    assert!(needs_tiling(dims(1, 513), 512));
    assert!(!needs_tiling(dims(400, 300), 512));
}

#[test]
fn crop_reads_the_right_bytes() {
    // A 3 by 2 image whose pixel (x, y) has bytes 4*(y*3+x) .. +3.
    let mut data = Vec::new();
    for i in 0..24u8 {
        data.push(i);
    }
    let src = PixelBuffer {
        width: 3,
        height: 2,
        data,
    };
    let tile = crop(&src, spec(1, 0, 2, 2));
    assert_eq!(tile.width, 2);
    assert_eq!(tile.height, 2);
    assert_eq!(
        tile.data,
        vec![4, 5, 6, 7, 8, 9, 10, 11, 16, 17, 18, 19, 20, 21, 22, 23]
    );
}

#[test]
fn round_trip_reassembles_the_original() {
    let src = buffer(5, 3);
    let plan = plan_even_split(dims(5, 3), 2).unwrap();
    let tiles = extract(&src, &plan);
    assert_eq!(tiles.len(), plan.len());
    let out = assemble(&tiles, 5, 3);
    assert_eq!(out.width, 5);
    assert_eq!(out.height, 3);
    assert_eq!(out.data, src.data);
}

#[test]
fn round_trip_fixed_stride() {
    let src = buffer(7, 4);
    let plan = plan_fixed_stride(dims(7, 4), 3).unwrap();
    let tiles = extract(&src, &plan);
    let out = assemble(&tiles, 7, 4);
    assert_eq!(out.data, src.data);
}

#[test]
fn reassemble_is_the_identity() {
    let src = buffer(9, 6);
    let plan = plan_even_split(dims(9, 6), 4).unwrap();
    let out = image_tiler::reassemble(&src, &plan);
    assert_eq!(out.width, 9);
    assert_eq!(out.height, 6);
    assert_eq!(out.data, src.data);
}

#[test]
fn evaluate_skips_images_within_threshold() {
    let img = buffer(4, 3);
    let r = evaluate_candidate(&img, 512);
    assert!(matches!(r, CandidateEvaluation::Skip));
}

#[test]
fn evaluate_tiles_oversized_images() {
    let img = buffer(5, 2);
    match evaluate_candidate(&img, 2) {
        CandidateEvaluation::Tiles(tiles) => {
            // ceil(5 / 2) = 3 columns of width 2, 2, 1; one row of height 2.
            assert_eq!(tiles.len(), 3);
            assert_eq!(tiles[0].region, spec(0, 0, 2, 2));
            assert_eq!(tiles[1].region, spec(2, 0, 2, 2));
            assert_eq!(tiles[2].region, spec(4, 0, 1, 2));
            for t in &tiles {
                assert_eq!(
                    t.pixels.data.len(),
                    4 * (t.region.width * t.region.height) as usize
                );
            }
        }
        _ => panic!("an oversized image must be tiled"),
    }
}

#[test]
fn evaluate_rejects_zero_max_edge_when_oversized() {
    let img = buffer(5, 2);
    assert!(matches!(
        evaluate_candidate(&img, 0),
        CandidateEvaluation::Rejected(TileError::InvalidConfig)
    ));
}

#[test]
fn counters_after_a_skip() {
    let mut stats = RunStats::new();
    stats.record(&ProcessingOutcome::Skipped);
    assert_eq!(stats.total_candidates, 1);
    assert_eq!(stats.tiled, 0);
}

#[test]
fn one_decode_failure_among_five_candidates() {
    let outcomes = vec![
        ProcessingOutcome::Tiled(4),
        ProcessingOutcome::Skipped,
        ProcessingOutcome::Failed(FailureReason::Decode),
        ProcessingOutcome::Tiled(2),
        ProcessingOutcome::Tiled(6),
    ];
    let stats = tally_outcomes(&outcomes);
    assert_eq!(stats.total_candidates, 5);
    assert_eq!(stats.tiled, 3);
    assert!(stats.tiled <= 4);
}

#[test]
fn one_failed_write_keeps_the_original() {
    let (outcome, delete) = conclude_writes(3, &vec![true, false, true]);
    assert!(!delete);
    assert_eq!(outcome, ProcessingOutcome::Failed(FailureReason::Write));
}

#[test]
fn all_writes_ok_deletes_the_original() {
    let (outcome, delete) = conclude_writes(3, &vec![true, true, true]);
    assert!(delete);
    assert_eq!(outcome, ProcessingOutcome::Tiled(3));
}
