use image_mapper::mapper::{map_directory, map_directory_custom_opts, MapperError};
use image_mapper::model::{FileData, FsEntry, FsNode};
use image_mapper::settings::{ImageQuality, Settings};

// -----------------------------------------------------------------------------
// Helpers
// -----------------------------------------------------------------------------

const EXIF_TIMESTAMP: &str = "2010-03-14 11:22:33";

fn dir(name: &str, entries: Vec<FsEntry>) -> FsEntry {
    FsEntry {
        name: name.to_string(),
        node: FsNode::Directory(entries),
    }
}

fn plain_file(name: &str, content: u64) -> FsEntry {
    FsEntry {
        name: name.to_string(),
        node: FsNode::File(FileData {
            timestamp: None,
            content,
        }),
    }
}

fn exif_file(name: &str, timestamp: &str, content: u64) -> FsEntry {
    FsEntry {
        name: name.to_string(),
        node: FsNode::File(FileData {
            timestamp: Some(timestamp.to_string()),
            content,
        }),
    }
}

fn settings(include_videos: bool) -> Settings {
    Settings {
        image_quality: ImageQuality::Mobile,
        verbose_print: false,
        include_videos,
    }
}

fn src_root() -> Vec<String> {
    vec!["root".to_string(), "source".to_string()]
}

fn dst_root() -> Vec<String> {
    vec!["root".to_string(), "destination".to_string()]
}

fn map_directory_ok(
    source: &Vec<FsEntry>,
    destination: Vec<FsEntry>,
    include_videos: bool,
) -> Vec<FsEntry> {
    let source_node = FsNode::Directory(clone_entries(source));
    map_directory_custom_opts(
        Some(&source_node),
        Some(FsNode::Directory(destination)),
        &src_root(),
        &dst_root(),
        settings(include_videos),
    )
    .unwrap()
}

fn clone_entries(entries: &[FsEntry]) -> Vec<FsEntry> {
    entries
        .iter()
        .map(|e| FsEntry {
            name: e.name.clone(),
            node: match &e.node {
                FsNode::Directory(children) => FsNode::Directory(clone_entries(children)),
                FsNode::File(data) => FsNode::File(data.clone()),
            },
        })
        .collect()
}

fn collect_paths(entries: &[FsEntry], prefix: &str, out: &mut Vec<String>) {
    for e in entries {
        let path = if prefix.is_empty() {
            e.name.clone()
        } else {
            format!("{}/{}", prefix, e.name)
        };
        out.push(path.clone());
        if let FsNode::Directory(children) = &e.node {
            collect_paths(children, &path, out);
        }
    }
}

fn get_dir_entries(entries: &[FsEntry]) -> Vec<String> {
    let mut paths = Vec::new();
    collect_paths(entries, "", &mut paths);
    paths.sort();
    paths
}

fn assert_dir_entries(exp_dir_entries: &[&str], entries: &[FsEntry]) {
    let mut expected: Vec<String> = exp_dir_entries.iter().map(|s| s.to_string()).collect();
    expected.sort();
    let actual = get_dir_entries(entries);
    assert_eq!(expected, actual);
}

fn add_to_dir(entries: &mut Vec<FsEntry>, dir_name: &str, entry: FsEntry) {
    for e in entries.iter_mut() {
        if e.name == dir_name {
            if let FsNode::Directory(children) = &mut e.node {
                children.push(entry);
                return;
            }
        }
    }
    panic!("no directory named {}", dir_name);
}

fn remove_from(entries: &mut Vec<FsEntry>, name: &str) {
    let index = entries
        .iter()
        .position(|e| e.name == name)
        .expect("entry to remove not found");
    entries.remove(index);
}

fn content_of(entries: &[FsEntry], name: &str) -> u64 {
    for e in entries {
        if e.name == name {
            if let FsNode::File(data) = &e.node {
                return data.content;
            }
        }
    }
    panic!("no file named {}", name);
}

fn replace_content(entries: &mut Vec<FsEntry>, name: &str, content: u64) {
    for e in entries.iter_mut() {
        if e.name == name {
            if let FsNode::File(data) = &mut e.node {
                data.content = content;
                return;
            }
        }
    }
    panic!("no file named {}", name);
}

fn create_src_structure() -> Vec<FsEntry> {
    let src = vec![
        dir("dir1", vec![exif_file("small-with-exif.jpg", EXIF_TIMESTAMP, 1)]),
        dir(
            "dir2",
            vec![
                dir(
                    "subdir1",
                    vec![exif_file(
                        "small-with-exifåäöあ!@#$%^&*().jpg",
                        EXIF_TIMESTAMP,
                        2,
                    )],
                ),
                dir("subdir2", vec![]),
                exif_file("small-with-exif.jpg", EXIF_TIMESTAMP, 3),
            ],
        ),
        dir("dir3", vec![]),
        exif_file("small-with-exif.jpg", EXIF_TIMESTAMP, 4),
        plain_file("small-without-exif.jpg", 5),
        plain_file("small-without-exif.png", 6),
        plain_file("text_file.txt", 7),
        plain_file("word.docx", 8),
        plain_file("video.m4v", 9),
    ];

    let exp_dir_entries = vec![
        "dir1",
        "dir1/small-with-exif.jpg",
        "dir2",
        "dir2/subdir1",
        "dir2/subdir1/small-with-exifåäöあ!@#$%^&*().jpg",
        "dir2/subdir2",
        "dir2/small-with-exif.jpg",
        "dir3",
        "small-with-exif.jpg",
        "small-without-exif.jpg",
        "small-without-exif.png",
        "text_file.txt",
        "video.m4v",
        "word.docx",
    ];
    assert_dir_entries(&exp_dir_entries, &src);

    src
}

fn check_that_dst_structure_is_correct(destination: &[FsEntry], videos: bool) {
    let mut exp_dir_entries = vec![
        "   2010-03-14 11;22;33 small-with-exif.jpg.jpg",
        "dir1",
        "dir1/   2010-03-14 11;22;33 small-with-exif.jpg.jpg",
        "dir2",
        "dir2/subdir1",
        "dir2/subdir1/   2010-03-14 11;22;33 small-with-exifåäöあ!@#$%^&*().jpg.jpg",
        "dir2/subdir2",
        "dir2/   2010-03-14 11;22;33 small-with-exif.jpg.jpg",
        "dir3",
        "small-without-exif.jpg.jpg",
        "small-without-exif.png.jpg",
    ];

    if videos {
        exp_dir_entries.push("video.m4v");
    }

    assert_dir_entries(&exp_dir_entries, destination);
}

// -----------------------------------------------------------------------------
// Filling an empty destination
// -----------------------------------------------------------------------------

#[test]
fn test_map_directory_correctly_fills_empty_dst_with_videos() {
    let src = create_src_structure();

    let dst = map_directory_ok(&src, Vec::new(), true);

    check_that_dst_structure_is_correct(&dst, true);
}

#[test]
fn test_map_directory_correctly_fills_empty_dst_without_videos() {
    let src = create_src_structure();

    let dst = map_directory_ok(&src, Vec::new(), false);

    check_that_dst_structure_is_correct(&dst, false);
}

#[test]
fn test_map_directory_dst_already_correct() {
    let src = create_src_structure();

    let src_entries_before = get_dir_entries(&src);
    let dst_entries_before = get_dir_entries(&[]);

    let dst = map_directory_ok(&src, Vec::new(), true);

    let src_entries_between = get_dir_entries(&src);
    let dst_entries_between = get_dir_entries(&dst);

    let dst = map_directory_ok(&src, dst, true);

    check_that_dst_structure_is_correct(&dst, true);

    let src_entries_after = get_dir_entries(&src);
    let dst_entries_after = get_dir_entries(&dst);

    assert_eq!(src_entries_before, src_entries_between);
    assert_eq!(src_entries_between, src_entries_after);

    assert_ne!(dst_entries_before, dst_entries_between);
    assert_eq!(dst_entries_between, dst_entries_after);
}

// -----------------------------------------------------------------------------
// Orphan removal
// -----------------------------------------------------------------------------

#[test]
fn test_map_directory_removes_unwanted_src_file() {
    let src = create_src_structure();

    // Note that the file is removed even if it exists at top level,
    // since it also exists in source, but is of an unwanted type
    let mut dst = map_directory_ok(&src, Vec::new(), true);
    dst.push(plain_file("text_file.txt", 100));
    let dst = map_directory_ok(&src, dst, true);

    check_that_dst_structure_is_correct(&dst, true);
}

#[test]
fn test_map_directory_removes_non_existant_src_file() {
    let src = create_src_structure();

    let mut dst = map_directory_ok(&src, Vec::new(), true);
    add_to_dir(&mut dst, "dir1", plain_file("does not exist.txt", 100));
    let dst = map_directory_ok(&src, dst, true);

    check_that_dst_structure_is_correct(&dst, true);
}

#[test]
fn test_map_directory_removes_non_existant_src_dir() {
    let src = create_src_structure();

    let mut dst = map_directory_ok(&src, Vec::new(), true);
    add_to_dir(&mut dst, "dir1", dir("dir4", vec![]));
    let dst = map_directory_ok(&src, dst, true);

    check_that_dst_structure_is_correct(&dst, true);
}

#[test]
fn test_map_directory_removes_non_existant_src_image_double_extension() {
    let src = create_src_structure();

    let mut dst = map_directory_ok(&src, Vec::new(), true);
    add_to_dir(&mut dst, "dir1", plain_file("does not exist.jpg.jpg", 100));
    let dst = map_directory_ok(&src, dst, true);

    check_that_dst_structure_is_correct(&dst, true);
}

#[test]
fn test_map_directory_removes_non_existant_src_image_single_extension() {
    let src = create_src_structure();

    let mut dst = map_directory_ok(&src, Vec::new(), true);
    add_to_dir(&mut dst, "dir1", plain_file("does not exist.jpg", 100));
    let dst = map_directory_ok(&src, dst, true);

    check_that_dst_structure_is_correct(&dst, true);
}

#[test]
fn test_map_directory_removes_non_existant_src_video() {
    let src = create_src_structure();

    let mut dst = map_directory_ok(&src, Vec::new(), true);
    add_to_dir(&mut dst, "dir1", plain_file("does not exist.m4v", 100));
    let dst = map_directory_ok(&src, dst, true);

    check_that_dst_structure_is_correct(&dst, true);
}

#[test]
fn test_map_directory_removes_existant_src_video_if_no_videos_desired() {
    let src = create_src_structure();

    let dst = map_directory_ok(&src, Vec::new(), true);
    let dst = map_directory_ok(&src, dst, false);

    check_that_dst_structure_is_correct(&dst, false);
}

#[test]
fn test_map_directory_removes_non_existant_src_image_exif() {
    let src = create_src_structure();

    let mut dst = map_directory_ok(&src, Vec::new(), true);
    add_to_dir(
        &mut dst,
        "dir1",
        plain_file("   2001-01-01 11;22;33 does not exist.jpg.jpg", 100),
    );
    let dst = map_directory_ok(&src, dst, true);

    check_that_dst_structure_is_correct(&dst, true);
}

// -----------------------------------------------------------------------------
// Existing correct entries are left untouched
// -----------------------------------------------------------------------------

#[test]
fn test_map_directory_does_not_remove_correct_exif_image_in_dst() {
    let src = create_src_structure();

    let mut dst = map_directory_ok(&src, Vec::new(), true);

    let name = "   2010-03-14 11;22;33 small-with-exif.jpg.jpg";
    replace_content(&mut dst, name, 999);

    let dst = map_directory_ok(&src, dst, true);

    assert_eq!(content_of(&dst, name), 999);
}

#[test]
fn test_map_directory_does_not_remove_correct_image_in_dst() {
    let src = create_src_structure();

    let mut dst = map_directory_ok(&src, Vec::new(), true);

    let name = "small-without-exif.jpg.jpg";
    replace_content(&mut dst, name, 999);

    let dst = map_directory_ok(&src, dst, true);

    assert_eq!(content_of(&dst, name), 999);
}

#[test]
fn test_map_directory_does_not_remove_correct_video_in_dst() {
    let src = create_src_structure();

    let mut dst = map_directory_ok(&src, Vec::new(), true);

    let name = "video.m4v";
    replace_content(&mut dst, name, 999);

    let dst = map_directory_ok(&src, dst, true);

    assert_eq!(content_of(&dst, name), 999);
}

// -----------------------------------------------------------------------------
// Recreation of deleted derived entries
// -----------------------------------------------------------------------------

#[test]
fn test_map_directory_adds_missing_image_exif() {
    let src = create_src_structure();

    let mut dst = map_directory_ok(&src, Vec::new(), true);
    remove_from(&mut dst, "   2010-03-14 11;22;33 small-with-exif.jpg.jpg");
    let dst = map_directory_ok(&src, dst, true);

    check_that_dst_structure_is_correct(&dst, true);
}

#[test]
fn test_map_directory_adds_missing_image() {
    let src = create_src_structure();

    let mut dst = map_directory_ok(&src, Vec::new(), true);
    remove_from(&mut dst, "small-without-exif.jpg.jpg");
    let dst = map_directory_ok(&src, dst, true);

    check_that_dst_structure_is_correct(&dst, true);
}

#[test]
fn test_map_directory_adds_missing_video() {
    let src = create_src_structure();

    let mut dst = map_directory_ok(&src, Vec::new(), true);
    remove_from(&mut dst, "video.m4v");
    let dst = map_directory_ok(&src, dst, true);

    check_that_dst_structure_is_correct(&dst, true);
}

#[test]
fn recreated_image_has_identical_content() {
    let src = create_src_structure();

    let dst = map_directory_ok(&src, Vec::new(), true);
    let name = "small-without-exif.jpg.jpg";
    let original_content = content_of(&dst, name);

    let mut dst = dst;
    remove_from(&mut dst, name);
    let dst = map_directory_ok(&src, dst, true);

    assert_eq!(content_of(&dst, name), original_content);
}

// -----------------------------------------------------------------------------
// Validation
// -----------------------------------------------------------------------------

#[test]
fn test_source_does_not_exist() {
    let result = map_directory(
        None,
        Some(FsNode::Directory(Vec::new())),
        &src_root(),
        &dst_root(),
        settings(true),
    );

    assert_eq!(Err(MapperError::SrcDoesNotExist), result);
}

#[test]
fn test_source_is_not_a_dir() {
    let source = FsNode::File(FileData {
        timestamp: None,
        content: 1,
    });

    let result = map_directory(
        Some(&source),
        Some(FsNode::Directory(Vec::new())),
        &src_root(),
        &dst_root(),
        settings(true),
    );

    assert_eq!(Err(MapperError::SrcDoesNotExist), result);
}

#[test]
fn test_destination_does_not_exist() {
    let source = FsNode::Directory(Vec::new());

    let result = map_directory(Some(&source), None, &src_root(), &dst_root(), settings(true));

    assert_eq!(Err(MapperError::DstDoesNotExist), result);
}

#[test]
fn tst_destination_is_not_a_dir() {
    let source = FsNode::Directory(Vec::new());

    let result = map_directory(
        Some(&source),
        Some(FsNode::File(FileData {
            timestamp: None,
            content: 1,
        })),
        &src_root(),
        &dst_root(),
        settings(true),
    );

    assert_eq!(Err(MapperError::DstDoesNotExist), result);
}

#[test]
fn test_destination_dir_inside_source_dir() {
    let source = FsNode::Directory(Vec::new());
    let src_path = vec!["root".to_string(), "source".to_string()];
    let dst_path = vec![
        "root".to_string(),
        "source".to_string(),
        "subdir".to_string(),
    ];

    let result = map_directory(
        Some(&source),
        Some(FsNode::Directory(Vec::new())),
        &src_path,
        &dst_path,
        settings(true),
    );

    assert_eq!(Err(MapperError::DstInsideSrc), result);
}

#[test]
fn test_source_and_destination_dir_are_the_same() {
    let source = FsNode::Directory(Vec::new());
    let path = vec!["root".to_string(), "same".to_string()];

    let result = map_directory(
        Some(&source),
        Some(FsNode::Directory(Vec::new())),
        &path,
        &path,
        settings(true),
    );

    assert_eq!(Err(MapperError::SrcInsideDst), result);
}

#[test]
fn test_source_dir_inside_destination_dir() {
    // The canonical components of root/d/../a/b and root/c/../a.
    let source = FsNode::Directory(Vec::new());
    let src_path = vec!["root".to_string(), "a".to_string(), "b".to_string()];
    let dst_path = vec!["root".to_string(), "a".to_string()];

    let result = map_directory(
        Some(&source),
        Some(FsNode::Directory(Vec::new())),
        &src_path,
        &dst_path,
        settings(true),
    );

    assert_eq!(Err(MapperError::SrcInsideDst), result);
}

// -----------------------------------------------------------------------------
// The top-level safety guard
// -----------------------------------------------------------------------------

fn guard_error_path(name: &str) -> Vec<String> {
    let mut path = dst_root();
    path.push(name.to_string());
    path
}

#[test]
fn test_destination_dir_has_a_file_source_dir_empty() {
    let source = FsNode::Directory(Vec::new());
    let destination = FsNode::Directory(vec![plain_file("image.jpg", 1)]);

    assert_eq!(
        Err(MapperError::DstTopLevelEntryNotInSrc(guard_error_path(
            "image.jpg"
        ))),
        map_directory(
            Some(&source),
            Some(destination),
            &src_root(),
            &dst_root(),
            settings(true)
        ),
    );
}

#[test]
fn test_destination_dir_has_a_dir_source_dir_empty() {
    let source = FsNode::Directory(Vec::new());
    let destination = FsNode::Directory(vec![dir("some_dir", vec![])]);

    assert_eq!(
        Err(MapperError::DstTopLevelEntryNotInSrc(guard_error_path(
            "some_dir"
        ))),
        map_directory(
            Some(&source),
            Some(destination),
            &src_root(),
            &dst_root(),
            settings(true)
        ),
    );
}

#[test]
fn test_destination_dir_has_a_file_source_dir_does_not() {
    let src = create_src_structure();

    let mut dst = map_directory_ok(&src, Vec::new(), true);
    dst.push(plain_file("some_file", 100));

    let source = FsNode::Directory(clone_entries(&src));
    assert_eq!(
        Err(MapperError::DstTopLevelEntryNotInSrc(guard_error_path(
            "some_file"
        ))),
        map_directory(
            Some(&source),
            Some(FsNode::Directory(dst)),
            &src_root(),
            &dst_root(),
            settings(true)
        ),
    );
}

#[test]
fn test_destination_dir_has_a_dir_source_dir_does_not() {
    let src = create_src_structure();

    let mut dst = map_directory_ok(&src, Vec::new(), true);
    dst.push(dir("some_dir", vec![]));

    let source = FsNode::Directory(clone_entries(&src));
    assert_eq!(
        Err(MapperError::DstTopLevelEntryNotInSrc(guard_error_path(
            "some_dir"
        ))),
        map_directory(
            Some(&source),
            Some(FsNode::Directory(dst)),
            &src_root(),
            &dst_root(),
            settings(true)
        ),
    );
}

#[test]
fn test_destination_dir_has_multiple_entries_source_dir_does_not() {
    let src = create_src_structure();

    let mut dst = map_directory_ok(&src, Vec::new(), true);
    dst.push(plain_file("file1", 100));
    dst.push(plain_file("file2", 101));

    let source = FsNode::Directory(clone_entries(&src));
    assert_eq!(
        Err(MapperError::DstTopLevelEntryNotInSrc(guard_error_path(
            "file1"
        ))),
        map_directory(
            Some(&source),
            Some(FsNode::Directory(dst)),
            &src_root(),
            &dst_root(),
            settings(true)
        ),
    );
}

#[test]
fn guarded_run_accepts_its_own_output() {
    let src = create_src_structure();
    let source = FsNode::Directory(clone_entries(&src));

    let dst = map_directory(
        Some(&source),
        Some(FsNode::Directory(Vec::new())),
        &src_root(),
        &dst_root(),
        settings(true),
    )
    .unwrap();

    let dst = map_directory(
        Some(&source),
        Some(FsNode::Directory(dst)),
        &src_root(),
        &dst_root(),
        settings(true),
    )
    .unwrap();

    check_that_dst_structure_is_correct(&dst, true);
}

// -----------------------------------------------------------------------------
// The end-to-end scenario
// -----------------------------------------------------------------------------

#[test]
fn end_to_end_mobile_with_videos() {
    let src = vec![
        dir("dir1", vec![exif_file("photo.jpg", EXIF_TIMESTAMP, 1)]),
        plain_file("clip.m4v", 2),
    ];

    let dst = map_directory_ok(&src, Vec::new(), true);

    assert_dir_entries(
        &[
            "clip.m4v",
            "dir1",
            "dir1/   2010-03-14 11;22;33 photo.jpg.jpg",
        ],
        &dst,
    );
}

#[test]
fn ambiguous_source_name_is_not_kept() {
    // A source image without a timestamp whose own name begins with a
    // date-like prefix: its derived name decodes to the tail, which names
    // no source file, so the derived file does not survive the run.
    let src = vec![plain_file("   2019-02-01 11;22;33 image.png", 1)];

    let dst = map_directory_ok(&src, Vec::new(), true);

    assert_dir_entries(&[], &dst);
}

#[test]
fn malformed_timestamp_is_not_kept() {
    // A capture timestamp outside the fixed-width shape cannot be decoded
    // back, so the derived file does not survive the run.
    let src = vec![exif_file("photo.jpg", "someday", 1)];

    let dst = map_directory_ok(&src, Vec::new(), true);

    assert_dir_entries(&[], &dst);
}

#[test]
fn colliding_derived_names_create_one_entry() {
    // Two source images whose derived names coincide: the first processed
    // creates the entry, the second is skipped.
    let src = vec![
        exif_file("a.jpg", "2010-03-14 11:22:33", 1),
        plain_file("   2010-03-14 11;22;33 a.jpg", 2),
    ];

    let dst = map_directory_ok(&src, Vec::new(), true);

    assert_dir_entries(&["   2010-03-14 11;22;33 a.jpg.jpg"], &dst);
    assert_eq!(content_of(&dst, "   2010-03-14 11;22;33 a.jpg.jpg"), 1);
}

#[test]
fn file_standing_at_a_directory_name_is_replaced() {
    let src = vec![dir("album", vec![exif_file("a.jpg", EXIF_TIMESTAMP, 1)])];
    let dst_before = vec![plain_file("album", 50)];

    let dst = map_directory_ok(&src, dst_before, true);

    assert_dir_entries(
        &["album", "album/   2010-03-14 11;22;33 a.jpg.jpg"],
        &dst,
    );
}
