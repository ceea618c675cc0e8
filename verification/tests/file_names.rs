use image_mapper::file_names::{
    destination_image_name_from_file_name, destination_image_name_to_source_image_name,
    extension_is_destination_image_extension, extension_is_image_extension,
    extension_is_video_extension, extension_of,
};

#[test]
fn extension_is_image_extension_is_true_for_image_extensions() {
    let extensions = vec!["jpg", "JPG", "jpeg", "JPEG", "png", "PNG"];

    for extension in extensions.iter() {
        assert!(extension_is_image_extension(extension));
    }
}

#[test]
fn extension_is_image_extension_is_false_for_non_image_extensions() {
    let extensions = vec!["m4v", "mp4", "mov", "pdf", "doc", "txt"];

    for extension in extensions.iter() {
        assert!(!extension_is_image_extension(extension));
    }
}

#[test]
fn extension_is_image_extension_is_true_for_raw_and_tiff_extensions() {
    let extensions = vec!["gif", "GIF", "nef", "NEF", "tif", "TIF", "tiff", "TIFF"];

    for extension in extensions.iter() {
        assert!(extension_is_image_extension(extension));
    }
}

#[test]
fn extension_is_destination_image_extension_is_true_for_destination_image_extension() {
    assert!(extension_is_destination_image_extension("jpg"));
}

#[test]
fn extension_is_destination_image_extension_is_false_for_non_destination_file_extensions() {
    let extensions = vec![
        "jpeg", "JPEG", "png", "PNG", "gif", "GIF", "nef", "NEF", "tif", "TIF", "tiff", "TIFF",
        "m4v", "mp4", "mov", "pdf", "doc",
    ];

    for extension in extensions.iter() {
        assert!(!extension_is_destination_image_extension(extension));
    }
}

#[test]
fn extension_is_video_extension_is_true_for_video_extensions() {
    let extensions = vec![
        "m4v", "M4V", "mp4", "MP4", "mov", "MOV", "mpg", "MPG", "mpeg", "MPEG", "avi", "AVI",
    ];

    for extension in extensions.iter() {
        assert!(extension_is_video_extension(extension));
    }
}

#[test]
fn extension_is_video_extension_is_false_for_non_video_extensions() {
    let extensions = vec!["jpg", "doc", "pdf", "png"];

    for extension in extensions.iter() {
        assert!(!extension_is_video_extension(extension));
    }
}

#[test]
fn test_destination_image_name_to_source_image_name_exif() {
    let destination_image_name = "   2019-02-01 11;22;33 image.png.jpg";
    let source_image_name = destination_image_name_to_source_image_name(destination_image_name);
    let expected_source_image_name = Some("image.png".to_string());
    assert_eq!(source_image_name, expected_source_image_name);
}

#[test]
fn test_destination_image_name_to_source_image_name_no_exif() {
    let destination_image_name = "image.png.jpg";
    let source_image_name = destination_image_name_to_source_image_name(destination_image_name);
    let expected_source_image_name = Some("image.png".to_string());
    assert_eq!(source_image_name, expected_source_image_name);
}

#[test]
fn test_destination_image_name_to_source_image_name_no_exif_long_name() {
    let destination_image_name = "image image image image image image image.png.jpg";
    let source_image_name = destination_image_name_to_source_image_name(destination_image_name);
    let expected_source_image_name =
        Some("image image image image image image image.png".to_string());
    assert_eq!(source_image_name, expected_source_image_name);
}

#[test]
fn test_destination_image_name_to_source_image_name_no_extension() {
    let destination_image_name = "image";
    let source_image_name = destination_image_name_to_source_image_name(destination_image_name);
    assert_eq!(source_image_name, None);
}

#[test]
fn decode_of_name_below_minimal_length_is_nothing() {
    assert_eq!(destination_image_name_to_source_image_name("b"), None);
    assert_eq!(destination_image_name_to_source_image_name(".jpg"), None);
    assert_eq!(destination_image_name_to_source_image_name(""), None);
}

#[test]
fn decode_of_name_without_suffix_is_nothing() {
    assert_eq!(destination_image_name_to_source_image_name("image.png"), None);
    assert_eq!(destination_image_name_to_source_image_name("image.JPG"), None);
}

#[test]
fn destination_image_name_for_exif_image() {
    let image_name =
        destination_image_name_from_file_name("large-with-exif.jpg", Some("2010-03-14 11:22:33"));
    let correct_image_name = "   2010-03-14 11;22;33 large-with-exif.jpg.jpg".to_string();

    assert_eq!(image_name, correct_image_name);
}

#[test]
fn destination_image_name_for_non_exif_image() {
    let image_name = destination_image_name_from_file_name("large-without-exif.jpg", None);

    let correct_image_name = "large-without-exif.jpg.jpg".to_string();

    assert_eq!(image_name, correct_image_name);
}

#[test]
fn encode_then_decode_recovers_the_source_name() {
    let cases = vec![
        ("photo.jpg", Some("2010-03-14 11:22:33")),
        ("photo.jpg", None),
        ("nested.name.png", Some("1999-12-31 23:59:59")),
        ("no extension at all", None),
        ("åäöあ!@#$%^&*().gif", Some("2024-02-29 00:00:00")),
    ];

    for (name, timestamp) in cases.iter() {
        let encoded = destination_image_name_from_file_name(name, *timestamp);
        let decoded = destination_image_name_to_source_image_name(&encoded);
        assert_eq!(decoded, Some(name.to_string()));
    }
}

#[test]
fn decode_prefers_the_date_prefix_reading() {
    // A source file whose own name carries a date-like prefix is ambiguous;
    // the prefix reading wins, as the encoding would have produced it.
    let decoded =
        destination_image_name_to_source_image_name("   2019-02-01 11;22;33 image.png.jpg");
    assert_eq!(decoded, Some("image.png".to_string()));

    // A malformed prefix is no prefix: the whole stem is the name.
    let decoded =
        destination_image_name_to_source_image_name("   2019-2-01 11;22;33 image.png.jpg");
    assert_eq!(decoded, Some("   2019-2-01 11;22;33 image.png".to_string()));
}

#[test]
fn extension_of_follows_the_standard_rule() {
    assert_eq!(extension_of("photo.jpg"), Some("jpg".to_string()));
    assert_eq!(extension_of("archive.tar.gz"), Some("gz".to_string()));
    assert_eq!(extension_of("no_extension"), None);
    assert_eq!(extension_of(".hidden"), None);
    assert_eq!(extension_of(".."), None);
    assert_eq!(extension_of("trailing."), Some("".to_string()));
}
