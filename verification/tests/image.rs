use image_mapper::image::{
    compression_factor_from_settings, dimensions_from_settings, rotation_from_orientation,
    Rotation,
};
use image_mapper::settings::{ImageQuality, Settings};

fn settings(image_quality: ImageQuality) -> Settings {
    Settings {
        image_quality,
        verbose_print: false,
        include_videos: false,
    }
}

#[test]
fn orientation_values_map_to_their_rotations() {
    assert_eq!(rotation_from_orientation(1), Some(Rotation::Identity));
    assert_eq!(rotation_from_orientation(2), Some(Rotation::FlipHorizontal));
    assert_eq!(rotation_from_orientation(3), Some(Rotation::Rotate180));
    assert_eq!(
        rotation_from_orientation(4),
        Some(Rotation::Rotate180FlipHorizontal)
    );
    assert_eq!(
        rotation_from_orientation(5),
        Some(Rotation::Rotate90FlipHorizontal)
    );
    assert_eq!(rotation_from_orientation(6), Some(Rotation::Rotate90));
    assert_eq!(
        rotation_from_orientation(7),
        Some(Rotation::Rotate270FlipHorizontal)
    );
    assert_eq!(rotation_from_orientation(8), Some(Rotation::Rotate270));
}

#[test]
fn unsupported_orientation_values_map_to_nothing() {
    assert_eq!(rotation_from_orientation(0), None);
    assert_eq!(rotation_from_orientation(9), None);
    assert_eq!(rotation_from_orientation(65535), None);
}

#[test]
fn quality_tiers_have_their_bounding_boxes() {
    assert_eq!(
        dimensions_from_settings(&settings(ImageQuality::Thumbnail)),
        (300, 300)
    );
    assert_eq!(
        dimensions_from_settings(&settings(ImageQuality::Mobile)),
        (1024, 1024)
    );
    assert_eq!(
        dimensions_from_settings(&settings(ImageQuality::Television)),
        (1920, 1080)
    );
}

#[test]
fn quality_tiers_have_their_compression_factors() {
    assert_eq!(
        compression_factor_from_settings(&settings(ImageQuality::Thumbnail)),
        30
    );
    assert_eq!(
        compression_factor_from_settings(&settings(ImageQuality::Mobile)),
        30
    );
    assert_eq!(
        compression_factor_from_settings(&settings(ImageQuality::Television)),
        70
    );
}
