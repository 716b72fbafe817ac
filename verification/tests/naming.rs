use image_tiler::naming::{file_name_is_candidate, output_tile_name, tile_file_name};

#[test]
fn three_tiles_of_photo_png() {
    assert_eq!(output_tile_name("photo.png", 0), "photo_0.png");
    assert_eq!(output_tile_name("photo.png", 1), "photo_1.png");
    assert_eq!(output_tile_name("photo.png", 2), "photo_2.png");
}

#[test]
fn tile_names_use_decimal_indices() {
    assert_eq!(tile_file_name("photo", 0), "photo_0.png");
    assert_eq!(tile_file_name("photo", 12), "photo_12.png");
    assert_eq!(tile_file_name("photo", 105), "photo_105.png");
    assert_eq!(tile_file_name("a_b", 9), "a_b_9.png");
}

#[test]
fn candidate_names_end_in_png_with_a_stem() {
    assert!(file_name_is_candidate("photo.png"));
    assert!(file_name_is_candidate("a.png"));
    assert!(file_name_is_candidate("archive.tar.png"));
    assert!(!file_name_is_candidate("photo.PNG"));
    assert!(!file_name_is_candidate(".png"));
    assert!(!file_name_is_candidate("photo.jpg"));
    assert!(!file_name_is_candidate("photo.pngx"));
    assert!(!file_name_is_candidate("photo"));
    assert!(!file_name_is_candidate("png"));
}

#[test]
fn multi_dot_names_keep_their_stem() {
    assert_eq!(output_tile_name("archive.tar.png", 3), "archive.tar_3.png");
}
