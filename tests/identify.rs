use tvid::gbis::PixelGrid;
use tvid::hash::{GradientHash, MeanHash};
use tvid::identify::{
    crop_frame, crop_rect, episode_score, in_episode_range, rank_episodes, rank_frames, Aspect,
    AspectError, CropRect,
};

fn h(bytes: [u8; 8]) -> tvid::hash::Hash {
    tvid::hash::Hash(bytes)
}

fn aspect(width: u32, height: u32) -> Aspect {
    Aspect { width, height }
}

#[test]
fn aspect_parses() {
    assert_eq!(Aspect::parse("16:9"), Ok(aspect(16, 9)));
    assert_eq!(Aspect::parse("+4:3"), Ok(aspect(4, 3)));
    assert_eq!(Aspect::parse("4294967295:0"), Ok(aspect(u32::MAX, 0)));
}

#[test]
fn aspect_errors() {
    assert_eq!(Aspect::parse("16"), Err(AspectError::MissingColon));
    assert_eq!(Aspect::parse(""), Err(AspectError::MissingColon));
    assert_eq!(Aspect::parse("a:9"), Err(AspectError::InvalidWidth));
    assert_eq!(Aspect::parse(":9"), Err(AspectError::InvalidWidth));
    assert_eq!(Aspect::parse("-1:9"), Err(AspectError::InvalidWidth));
    assert_eq!(Aspect::parse("+:9"), Err(AspectError::InvalidWidth));
    assert_eq!(Aspect::parse("4294967296:1"), Err(AspectError::InvalidWidth));
    assert_eq!(Aspect::parse("16:"), Err(AspectError::InvalidHeight));
    assert_eq!(Aspect::parse("1:2:3"), Err(AspectError::InvalidHeight));
    assert_eq!(Aspect::parse("16: 9"), Err(AspectError::InvalidHeight));
}

#[test]
fn crop_to_narrower_aspect_cuts_sides() {
    assert_eq!(
        crop_rect(1920, 1080, Some(aspect(4, 3))),
        CropRect { x: 240, y: 0, width: 1440, height: 1080 }
    );
}

#[test]
fn crop_to_wider_aspect_cuts_top_and_bottom() {
    assert_eq!(
        crop_rect(1440, 1080, Some(aspect(16, 9))),
        CropRect { x: 0, y: 135, width: 1440, height: 810 }
    );
}

#[test]
fn crop_keeps_matching_or_missing_aspect() {
    let full = CropRect { x: 0, y: 0, width: 1920, height: 1080 };
    assert_eq!(crop_rect(1920, 1080, Some(aspect(16, 9))), full);
    assert_eq!(crop_rect(1920, 1080, None), full);
    assert_eq!(crop_rect(1920, 1080, Some(aspect(0, 0))), full);
}

#[test]
fn crop_frame_copies_rows() {
    let data: Vec<u8> = (0..15u8).collect();
    let rect = CropRect { x: 1, y: 1, width: 2, height: 2 };
    assert_eq!(crop_frame(&data, 5, rect), vec![6, 7, 11, 12]);
    let all = CropRect { x: 0, y: 0, width: 4, height: 3 };
    assert_eq!(crop_frame(&data, 5, all), vec![0, 1, 2, 3, 5, 6, 7, 8, 10, 11, 12, 13]);
    let none = CropRect { x: 0, y: 0, width: 4, height: 0 };
    assert!(crop_frame(&data, 5, none).is_empty());
}

#[test]
fn episode_score_is_mean_squared_closest_distance() {
    let frames = vec![h([0; 8]), h([0xff; 8])];
    let one = vec![h([0xff, 0, 0, 0, 0, 0, 0, 0])];
    assert_eq!(episode_score(&frames, &one), 64_000);
    let two = vec![h([0xff, 0, 0, 0, 0, 0, 0, 0]), h([0xff; 8])];
    assert_eq!(episode_score(&frames, &two), 32_000);
    let three = vec![h([1, 0, 0, 0, 0, 0, 0, 0]), h([0; 8]), h([0; 8])];
    assert_eq!(episode_score(&frames, &three), 333);
}

#[test]
fn episode_range_bounds_are_inclusive() {
    assert!(in_episode_range(3, None, None));
    assert!(in_episode_range(3, Some(3), Some(3)));
    assert!(!in_episode_range(2, Some(3), None));
    assert!(!in_episode_range(4, None, Some(3)));
}

#[test]
fn frames_rank_by_distance_then_position() {
    let image = h([0; 8]);
    let hashes = vec![h([0xff, 0, 0, 0, 0, 0, 0, 0]), h([0; 8]), h([1, 0, 0, 0, 0, 0, 0, 0]), h([0; 8])];
    assert_eq!(rank_frames(&image, &hashes), vec![(0, 1), (0, 3), (1, 2), (8, 0)]);
    assert!(rank_frames(&image, &vec![]).is_empty());
}

#[test]
fn episodes_rank_by_score_then_number() {
    let scores = vec![(5, 3), (2, 7), (5, -1), (2, 1), (0, i32::MAX), (0, i32::MIN)];
    assert_eq!(
        rank_episodes(&scores),
        vec![(0, i32::MIN), (0, i32::MAX), (2, 1), (2, 7), (5, -1), (5, 3)]
    );
}

#[test]
fn mean_hash_of_uniform_image_is_zero() {
    let grid = PixelGrid::new(16, 16, vec![77; 256]).unwrap();
    let mut hasher = MeanHash::new();
    assert_eq!(hasher.hash(&grid), h([0; 8]));
}

#[test]
fn mean_hash_of_left_right_split() {
    let pixels: Vec<u8> = (0..256u32).map(|i| if i % 16 < 8 { 0 } else { 200 }).collect();
    let grid = PixelGrid::new(16, 16, pixels).unwrap();
    let mut hasher = MeanHash::new();
    // In each scaled row of eight, the right half is bright.
    assert_eq!(hasher.hash(&grid), h([0xf0; 8]));
}

#[test]
fn gradient_hash_of_uniform_and_ramp() {
    let mut hasher = GradientHash::new();
    let flat = PixelGrid::new(16, 16, vec![9; 256]).unwrap();
    assert_eq!(hasher.hash(&flat), h([0; 8]));
    let ramp: Vec<u8> = (0..256u32).map(|i| (i % 16 * 16) as u8).collect();
    let grid = PixelGrid::new(16, 16, ramp).unwrap();
    assert_eq!(hasher.hash(&grid), h([0xff; 8]));
}
