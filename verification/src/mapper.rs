//! The two-phase tree reconciler and the path-safety validation in front of
//! it.
//!
//! `map_directory` validates the pair of roots, then computes, per directory
//! level, a create pass over the source entries (every source directory gets
//! a same-named destination directory, every source image a derived image,
//! every source video — when videos are included — a same-named copy, each
//! created only when its name is still absent) followed by a delete pass over
//! the destination entries (everything without a valid corresponding source
//! entry is dropped). The executable functions return the new destination
//! tree; their contracts tie them to the specification functions below, over
//! which the library's laws are proved.
use vstd::prelude::*;

use crate::file_names::{
    decode_spec, destination_image_name_from_file_name,
    destination_image_name_to_source_image_name, encode_spec,
    extension_is_destination_image_extension, extension_is_image_extension,
    extension_is_video_extension, extension_of, extension_of_spec,
    is_destination_image_extension, is_image_extension, is_video_extension,
};
use crate::model::{
    entries_size, entries_view, entry_size, entry_view, lemma_entries_size_bound,
    lemma_entries_view, lemma_entries_view_push, FsEntry, FsNode, GhostEntry, GhostFileData,
    GhostNode,
};
use crate::settings::Settings;

verus! {

// ---------------------------------------------------------------------------
// Queries over a directory's entries
// ---------------------------------------------------------------------------
/// Some entry carries this name.
pub open spec fn has_entry_named(entries: Seq<GhostEntry>, name: Seq<char>) -> bool {
    exists|i: int| 0 <= i < entries.len() && entries[i].name == name
}

/// Some directory entry carries this name.
pub open spec fn has_dir_named(entries: Seq<GhostEntry>, name: Seq<char>) -> bool {
    exists|i: int|
        0 <= i < entries.len() && entries[i].name == name && entries[i].node is Directory
}

/// Some file entry carries this name.
pub open spec fn has_file_named(entries: Seq<GhostEntry>, name: Seq<char>) -> bool {
    exists|i: int| 0 <= i < entries.len() && entries[i].name == name && entries[i].node is File
}

/// The node of the first entry with this name.
pub open spec fn lookup(entries: Seq<GhostEntry>, name: Seq<char>) -> Option<GhostNode>
    decreases entries,
{
    if entries.len() == 0 {
        None
    } else if entries[0].name == name {
        Some(entries[0].node)
    } else {
        lookup(entries.drop_first(), name)
    }
}

/// The entries of the directory this name denotes, or nothing to start from:
/// a file standing at the name is deleted, an absent name is created empty.
pub open spec fn child_entries_at(entries: Seq<GhostEntry>, name: Seq<char>) -> Seq<GhostEntry> {
    match lookup(entries, name) {
        Some(GhostNode::Directory(es)) => es,
        _ => Seq::empty(),
    }
}

// ---------------------------------------------------------------------------
// Classification of names
// ---------------------------------------------------------------------------
/// The name has a recognized source-image extension.
pub open spec fn name_is_image(name: Seq<char>) -> bool {
    extension_of_spec(name) matches Some(ext) && is_image_extension(ext)
}

/// The name has a recognized video extension.
pub open spec fn name_is_video(name: Seq<char>) -> bool {
    extension_of_spec(name) matches Some(ext) && is_video_extension(ext)
}

/// The name has the derived-image extension.
pub open spec fn name_is_destination_image(name: Seq<char>) -> bool {
    extension_of_spec(name) matches Some(ext) && is_destination_image_extension(ext)
}

// ---------------------------------------------------------------------------
// The create pass
// ---------------------------------------------------------------------------
/// Makes the entry at `name` a directory holding `child`: an existing
/// directory is rebuilt in place, a file standing at the name is removed and
/// the directory appended, an absent name is appended.
pub open spec fn upsert_directory(
    dst: Seq<GhostEntry>,
    name: Seq<char>,
    child: Seq<GhostEntry>,
) -> Seq<GhostEntry>
    decreases dst,
{
    let new_entry = GhostEntry { name: name, node: GhostNode::Directory(child) };
    if dst.len() == 0 {
        seq![new_entry]
    } else if dst[0].name == name {
        match dst[0].node {
            GhostNode::Directory(_) => seq![new_entry] + dst.drop_first(),
            GhostNode::File(_) => dst.drop_first().push(new_entry),
        }
    } else {
        seq![dst[0]] + upsert_directory(dst.drop_first(), name, child)
    }
}

/// Appends a file entry, unless the name is already taken.
pub open spec fn create_file(
    dst: Seq<GhostEntry>,
    name: Seq<char>,
    data: GhostFileData,
) -> Seq<GhostEntry> {
    if has_entry_named(dst, name) {
        dst
    } else {
        dst.push(GhostEntry { name: name, node: GhostNode::File(data) })
    }
}

/// The effect of one source entry on the destination entries.
pub open spec fn apply_source_entry(
    entry: GhostEntry,
    dst: Seq<GhostEntry>,
    videos: bool,
) -> Seq<GhostEntry>
    decreases entry, 2int,
{
    match entry.node {
        GhostNode::Directory(child_src) => upsert_directory(
            dst,
            entry.name,
            reconcile_spec(child_src, child_entries_at(dst, entry.name), videos),
        ),
        GhostNode::File(data) => {
            if name_is_image(entry.name) {
                create_file(dst, encode_spec(entry.name, data.timestamp), data)
            } else if videos && name_is_video(entry.name) {
                create_file(dst, entry.name, data)
            } else {
                dst
            }
        },
    }
}

/// The create pass: every source entry applied in order.
pub open spec fn create_pass(
    src: Seq<GhostEntry>,
    dst: Seq<GhostEntry>,
    videos: bool,
) -> Seq<GhostEntry>
    decreases src, 0int,
{
    if src.len() == 0 {
        dst
    } else {
        create_pass(src.drop_first(), apply_source_entry(src[0], dst, videos), videos)
    }
}

// ---------------------------------------------------------------------------
// The delete pass
// ---------------------------------------------------------------------------
/// Whether a destination entry has a valid corresponding source entry and
/// may persist: a directory needs a same-named source directory; a derived
/// image must decode to the name of an existing source file; a video needs
/// videos included and a same-named source file; nothing else persists.
pub open spec fn keep_entry(entry: GhostEntry, src: Seq<GhostEntry>, videos: bool) -> bool {
    match entry.node {
        GhostNode::Directory(_) => has_dir_named(src, entry.name),
        GhostNode::File(_) => keep_destination_file(entry.name, src, videos),
    }
}

/// The file half of `keep_entry`, judged by the name alone.
pub open spec fn keep_destination_file(name: Seq<char>, src: Seq<GhostEntry>, videos: bool) -> bool {
    if name_is_destination_image(name) {
        match decode_spec(name) {
            Some(original) => has_file_named(src, original),
            None => false,
        }
    } else if name_is_video(name) {
        videos && has_file_named(src, name)
    } else {
        false
    }
}

/// The delete pass: only entries with a valid corresponding source entry
/// survive, in order.
pub open spec fn delete_pass(
    dst: Seq<GhostEntry>,
    src: Seq<GhostEntry>,
    videos: bool,
) -> Seq<GhostEntry>
    decreases dst,
{
    if dst.len() == 0 {
        Seq::empty()
    } else if keep_entry(dst[0], src, videos) {
        seq![dst[0]] + delete_pass(dst.drop_first(), src, videos)
    } else {
        delete_pass(dst.drop_first(), src, videos)
    }
}

/// One reconciled directory level: the create pass, then the delete pass.
pub open spec fn reconcile_spec(
    src: Seq<GhostEntry>,
    dst: Seq<GhostEntry>,
    videos: bool,
) -> Seq<GhostEntry>
    decreases src, 1int,
{
    delete_pass(create_pass(src, dst, videos), src, videos)
}

// ---------------------------------------------------------------------------
// Well-formed trees
// ---------------------------------------------------------------------------
/// A directory's entries as a real file system would hold them: non-empty,
/// pairwise distinct names, and well-formed children.
pub open spec fn entries_wf(entries: Seq<GhostEntry>) -> bool
    decreases entries,
{
    if entries.len() == 0 {
        true
    } else {
        &&& entries[0].name.len() > 0
        &&& node_wf(entries[0].node)
        &&& !has_entry_named(entries.drop_first(), entries[0].name)
        &&& entries_wf(entries.drop_first())
    }
}

/// A well-formed node.
pub open spec fn node_wf(node: GhostNode) -> bool
    decreases node,
{
    match node {
        GhostNode::Directory(entries) => entries_wf(entries),
        GhostNode::File(_) => true,
    }
}

// ---------------------------------------------------------------------------
// Path safety
// ---------------------------------------------------------------------------
/// The components of a canonical path.
pub open spec fn path_view(path: Seq<String>) -> Seq<Seq<char>> {
    Seq::new(path.len(), |i: int| path[i]@)
}

/// `prefix` is a component-wise prefix of `path`: the directory `path` lies
/// at or under the directory `prefix`.
pub open spec fn is_path_prefix_of(prefix: Seq<Seq<char>>, path: Seq<Seq<char>>) -> bool {
    prefix.len() <= path.len() && forall|i: int| 0 <= i < prefix.len() ==> path[i] == prefix[i]
}

/// The name of the first top-level destination entry the run would delete:
/// one with no valid corresponding source entry, by the delete pass's own
/// criterion. The safety guard stops the run at such an entry, before any
/// mutation, against the chance that a wrong destination root was given.
pub open spec fn first_missing_top_level(
    dst: Seq<GhostEntry>,
    src: Seq<GhostEntry>,
    videos: bool,
) -> Option<Seq<char>>
    decreases dst,
{
    if dst.len() == 0 {
        None
    } else if !keep_entry(dst[0], src, videos) {
        Some(dst[0].name)
    } else {
        first_missing_top_level(dst.drop_first(), src, videos)
    }
}

// ---------------------------------------------------------------------------
// Errors and the top-level contract
// ---------------------------------------------------------------------------
/// Why a run refuses to start. The top-level-entry guard names the offending
/// destination path, as components.
#[derive(Debug, PartialEq)]
pub enum MapperError {
    SrcDoesNotExist,
    DstDoesNotExist,
    SrcInsideDst,
    DstInsideSrc,
    DstTopLevelEntryNotInSrc(Vec<String>),
}

/// Ghost counterpart of `MapperError`.
pub enum GhostMapperError {
    SrcDoesNotExist,
    DstDoesNotExist,
    SrcInsideDst,
    DstInsideSrc,
    DstTopLevelEntryNotInSrc(Seq<Seq<char>>),
}

impl View for MapperError {
    type V = GhostMapperError;

    open spec fn view(&self) -> GhostMapperError {
        match self {
            MapperError::SrcDoesNotExist => GhostMapperError::SrcDoesNotExist,
            MapperError::DstDoesNotExist => GhostMapperError::DstDoesNotExist,
            MapperError::SrcInsideDst => GhostMapperError::SrcInsideDst,
            MapperError::DstInsideSrc => GhostMapperError::DstInsideSrc,
            MapperError::DstTopLevelEntryNotInSrc(p) => GhostMapperError::DstTopLevelEntryNotInSrc(
                path_view(p@),
            ),
        }
    }
}

/// The entries of a root that exists and is a directory.
pub open spec fn directory_entries_opt(node: Option<&FsNode>) -> Option<Seq<GhostEntry>> {
    match node {
        Some(FsNode::Directory(entries)) => Some(entries_view(entries@)),
        _ => None,
    }
}

/// What one run returns: the validation verdict, checked in a fixed order —
/// the source root must be a directory, the destination root must be a
/// directory, neither root may lie at or under the other, and (when the
/// top-level guard is asked for) no top-level destination entry may be one
/// the run would delete — and on success the reconciled destination
/// entries.
pub open spec fn map_directory_spec(
    source: Option<Seq<GhostEntry>>,
    destination: Option<Seq<GhostEntry>>,
    source_path: Seq<Seq<char>>,
    destination_path: Seq<Seq<char>>,
    videos: bool,
    check_top_level: bool,
) -> Result<Seq<GhostEntry>, GhostMapperError> {
    if source is None {
        Err(GhostMapperError::SrcDoesNotExist)
    } else if destination is None {
        Err(GhostMapperError::DstDoesNotExist)
    } else if is_path_prefix_of(destination_path, source_path) {
        Err(GhostMapperError::SrcInsideDst)
    } else if is_path_prefix_of(source_path, destination_path) {
        Err(GhostMapperError::DstInsideSrc)
    } else {
        let guard = if check_top_level {
            first_missing_top_level(destination.unwrap(), source.unwrap(), videos)
        } else {
            None
        };
        match guard {
            Some(name) => Err(
                GhostMapperError::DstTopLevelEntryNotInSrc(destination_path.push(name)),
            ),
            None => Ok(reconcile_spec(source.unwrap(), destination.unwrap(), videos)),
        }
    }
}

// ---------------------------------------------------------------------------
// Executable queries
// ---------------------------------------------------------------------------
fn contains_entry_named(entries: &Vec<FsEntry>, name: &String) -> (r: bool)
    ensures
        r == has_entry_named(entries_view(entries@), name@),
{
    proof {
        lemma_entries_view(entries@);
    }
    let ghost view = entries_view(entries@);
    let mut i: usize = 0;
    while i < entries.len()
        invariant
            i <= entries@.len(),
            view == entries_view(entries@),
            view.len() == entries@.len(),
            forall|k: int| 0 <= k < entries@.len() ==> #[trigger] view[k] == entry_view(
                entries@[k],
            ),
            forall|k: int| 0 <= k < i ==> #[trigger] view[k].name != name@,
        decreases entries@.len() - i,
    {
        if entries[i].name == *name {
            proof {
                assert(view[i as int].name == name@);
            }
            return true;
        }
        i += 1;
    }
    false
}

fn contains_dir_named(entries: &Vec<FsEntry>, name: &String) -> (r: bool)
    ensures
        r == has_dir_named(entries_view(entries@), name@),
{
    proof {
        lemma_entries_view(entries@);
    }
    let ghost view = entries_view(entries@);
    let mut i: usize = 0;
    while i < entries.len()
        invariant
            i <= entries@.len(),
            view == entries_view(entries@),
            view.len() == entries@.len(),
            forall|k: int| 0 <= k < entries@.len() ==> #[trigger] view[k] == entry_view(
                entries@[k],
            ),
            forall|k: int|
                0 <= k < i ==> !(#[trigger] view[k].name == name@ && view[k].node is Directory),
        decreases entries@.len() - i,
    {
        if entries[i].name == *name && matches!(&entries[i].node, FsNode::Directory(_)) {
            proof {
                assert(view[i as int].name == name@ && view[i as int].node is Directory);
            }
            return true;
        }
        i += 1;
    }
    false
}

fn contains_file_named(entries: &Vec<FsEntry>, name: &String) -> (r: bool)
    ensures
        r == has_file_named(entries_view(entries@), name@),
{
    proof {
        lemma_entries_view(entries@);
    }
    let ghost view = entries_view(entries@);
    let mut i: usize = 0;
    while i < entries.len()
        invariant
            i <= entries@.len(),
            view == entries_view(entries@),
            view.len() == entries@.len(),
            forall|k: int| 0 <= k < entries@.len() ==> #[trigger] view[k] == entry_view(
                entries@[k],
            ),
            forall|k: int|
                0 <= k < i ==> !(#[trigger] view[k].name == name@ && view[k].node is File),
        decreases entries@.len() - i,
    {
        if entries[i].name == *name && matches!(&entries[i].node, FsNode::File(_)) {
            proof {
                assert(view[i as int].name == name@ && view[i as int].node is File);
            }
            return true;
        }
        i += 1;
    }
    false
}

/// The index of the first entry with this name.
fn find_entry_index(entries: &Vec<FsEntry>, name: &String) -> (r: Option<usize>)
    ensures
        match r {
            Some(i) => {
                &&& i < entries@.len()
                &&& entries_view(entries@)[i as int].name == name@
                &&& forall|k: int|
                    0 <= k < i ==> #[trigger] entries_view(entries@)[k].name != name@
            },
            None => !has_entry_named(entries_view(entries@), name@),
        },
{
    proof {
        lemma_entries_view(entries@);
    }
    let ghost view = entries_view(entries@);
    let mut i: usize = 0;
    while i < entries.len()
        invariant
            i <= entries@.len(),
            view == entries_view(entries@),
            view.len() == entries@.len(),
            forall|k: int| 0 <= k < entries@.len() ==> #[trigger] view[k] == entry_view(
                entries@[k],
            ),
            forall|k: int| 0 <= k < i ==> #[trigger] view[k].name != name@,
        decreases entries@.len() - i,
    {
        if entries[i].name == *name {
            return Some(i);
        }
        i += 1;
    }
    None
}

// ---------------------------------------------------------------------------
// Lemmas connecting first-match scans to the recursive specifications
// ---------------------------------------------------------------------------
/// The first entry named `name` determines `lookup`.
pub(crate) proof fn lemma_lookup_first(entries: Seq<GhostEntry>, name: Seq<char>, i: int)
    requires
        0 <= i < entries.len(),
        entries[i].name == name,
        forall|k: int| 0 <= k < i ==> #[trigger] entries[k].name != name,
    ensures
        lookup(entries, name) == Some(entries[i].node),
    decreases entries,
{
    if i > 0 {
        lemma_lookup_first(entries.drop_first(), name, i - 1);
    }
}

/// Without a matching entry, `lookup` finds nothing.
pub(crate) proof fn lemma_lookup_absent(entries: Seq<GhostEntry>, name: Seq<char>)
    requires
        !has_entry_named(entries, name),
    ensures
        lookup(entries, name) is None,
    decreases entries,
{
    if entries.len() > 0 {
        assert(entries[0].name != name);
        assert forall|k: int|
            0 <= k < entries.drop_first().len() implies #[trigger] entries.drop_first()[k].name
            != name by {
            assert(entries.drop_first()[k] == entries[k + 1]);
        }
        lemma_lookup_absent(entries.drop_first(), name);
    }
}

/// Rebuilding a directory over an existing directory entry updates in place.
pub(crate) proof fn lemma_upsert_found_dir(
    dst: Seq<GhostEntry>,
    name: Seq<char>,
    child: Seq<GhostEntry>,
    i: int,
)
    requires
        0 <= i < dst.len(),
        dst[i].name == name,
        dst[i].node is Directory,
        forall|k: int| 0 <= k < i ==> #[trigger] dst[k].name != name,
    ensures
        upsert_directory(dst, name, child) =~= dst.update(
            i,
            GhostEntry { name: name, node: GhostNode::Directory(child) },
        ),
    decreases dst,
{
    if i == 0 {
        assert(upsert_directory(dst, name, child) =~= dst.update(
            0,
            GhostEntry { name: name, node: GhostNode::Directory(child) },
        ));
    } else {
        assert forall|k: int|
            0 <= k < i - 1 implies #[trigger] dst.drop_first()[k].name != name by {
            assert(dst.drop_first()[k] == dst[k + 1]);
        }
        lemma_upsert_found_dir(dst.drop_first(), name, child, i - 1);
        assert(upsert_directory(dst, name, child) =~= dst.update(
            i,
            GhostEntry { name: name, node: GhostNode::Directory(child) },
        ));
    }
}

/// Rebuilding a directory over a file entry removes the file and appends the
/// directory.
pub(crate) proof fn lemma_upsert_found_file(
    dst: Seq<GhostEntry>,
    name: Seq<char>,
    child: Seq<GhostEntry>,
    i: int,
)
    requires
        0 <= i < dst.len(),
        dst[i].name == name,
        dst[i].node is File,
        forall|k: int| 0 <= k < i ==> #[trigger] dst[k].name != name,
    ensures
        upsert_directory(dst, name, child) =~= dst.remove(i).push(
            GhostEntry { name: name, node: GhostNode::Directory(child) },
        ),
    decreases dst,
{
    if i == 0 {
        assert(upsert_directory(dst, name, child) =~= dst.remove(0).push(
            GhostEntry { name: name, node: GhostNode::Directory(child) },
        ));
    } else {
        assert forall|k: int|
            0 <= k < i - 1 implies #[trigger] dst.drop_first()[k].name != name by {
            assert(dst.drop_first()[k] == dst[k + 1]);
        }
        lemma_upsert_found_file(dst.drop_first(), name, child, i - 1);
        assert(dst.remove(i).drop_first() =~= dst.drop_first().remove(i - 1));
        assert(upsert_directory(dst, name, child) =~= dst.remove(i).push(
            GhostEntry { name: name, node: GhostNode::Directory(child) },
        ));
    }
}

/// Rebuilding a directory at an absent name appends it.
pub(crate) proof fn lemma_upsert_absent(dst: Seq<GhostEntry>, name: Seq<char>, child: Seq<GhostEntry>)
    requires
        !has_entry_named(dst, name),
    ensures
        upsert_directory(dst, name, child) =~= dst.push(
            GhostEntry { name: name, node: GhostNode::Directory(child) },
        ),
    decreases dst,
{
    if dst.len() > 0 {
        assert(dst[0].name != name);
        assert forall|k: int|
            0 <= k < dst.drop_first().len() implies #[trigger] dst.drop_first()[k].name != name by {
            assert(dst.drop_first()[k] == dst[k + 1]);
        }
        lemma_upsert_absent(dst.drop_first(), name, child);
        assert(upsert_directory(dst, name, child) =~= dst.push(
            GhostEntry { name: name, node: GhostNode::Directory(child) },
        ));
    }
}

// ---------------------------------------------------------------------------
// The executable create pass
// ---------------------------------------------------------------------------
/// Ensures the destination holds a directory named after the source
/// directory and reconciles into it: an existing directory is reconciled in
/// place, a file standing at the name is deleted first, an absent name is
/// created.
fn handle_source_dir(source_dir: &FsEntry, destination: Vec<FsEntry>, settings: &Settings) -> (r:
    Vec<FsEntry>)
    requires
        source_dir.node is Directory,
    ensures
        entries_view(r@) == apply_source_entry(
            entry_view(*source_dir),
            entries_view(destination@),
            settings.include_videos,
        ),
    decreases entry_size(entry_view(*source_dir)), 0int,
{
    let ghost orig = destination@;
    let ghost dst_view = entries_view(orig);
    let ghost ghost_entry = entry_view(*source_dir);
    proof {
        lemma_entries_view(orig);
    }
    match &source_dir.node {
        FsNode::Directory(child_src) => {
            let mut destination = destination;
            match find_entry_index(&destination, &source_dir.name) {
                Some(i) => {
                    let existing = destination.remove(i);
                    proof {
                        lemma_lookup_first(dst_view, ghost_entry.name, i as int);
                    }
                    match existing.node {
                        FsNode::Directory(old_child) => {
                            let new_child = map_directory_int(child_src, old_child, settings);
                            let entry = FsEntry {
                                name: source_dir.name.clone(),
                                node: FsNode::Directory(new_child),
                            };
                            destination.insert(i, entry);
                            proof {
                                lemma_upsert_found_dir(
                                    dst_view,
                                    ghost_entry.name,
                                    entries_view(new_child@),
                                    i as int,
                                );
                                lemma_entries_view(destination@);
                                assert(destination@ =~= orig.update(i as int, entry));
                                assert(entries_view(destination@) =~= apply_source_entry(
                                    ghost_entry,
                                    dst_view,
                                    settings.include_videos,
                                ));
                            }
                            destination
                        },
                        FsNode::File(_) => {
                            let new_child = map_directory_int(child_src, Vec::new(), settings);
                            let entry = FsEntry {
                                name: source_dir.name.clone(),
                                node: FsNode::Directory(new_child),
                            };
                            proof {
                                lemma_upsert_found_file(
                                    dst_view,
                                    ghost_entry.name,
                                    entries_view(new_child@),
                                    i as int,
                                );
                                lemma_entries_view_push(destination@, entry);
                                lemma_entries_view(destination@);
                            }
                            destination.push(entry);
                            proof {
                                assert(entries_view(destination@) =~= apply_source_entry(
                                    ghost_entry,
                                    dst_view,
                                    settings.include_videos,
                                ));
                            }
                            destination
                        },
                    }
                },
                None => {
                    proof {
                        lemma_lookup_absent(dst_view, ghost_entry.name);
                    }
                    let new_child = map_directory_int(child_src, Vec::new(), settings);
                    let entry = FsEntry {
                        name: source_dir.name.clone(),
                        node: FsNode::Directory(new_child),
                    };
                    proof {
                        lemma_upsert_absent(dst_view, ghost_entry.name, entries_view(new_child@));
                        lemma_entries_view_push(destination@, entry);
                    }
                    destination.push(entry);
                    proof {
                        assert(entries_view(destination@) =~= apply_source_entry(
                            ghost_entry,
                            dst_view,
                            settings.include_videos,
                        ));
                    }
                    destination
                },
            }
        },
        FsNode::File(_) => {
            proof {
                assert(false);
            }
            destination
        },
    }
}

/// Applies one source file to the destination: an image gets its derived
/// name created when absent, a video its own name (when videos are
/// included), anything else is ignored.
fn handle_source_file(source_file: &FsEntry, destination: Vec<FsEntry>, settings: &Settings) -> (r:
    Vec<FsEntry>)
    requires
        source_file.node is File,
    ensures
        entries_view(r@) == apply_source_entry(
            entry_view(*source_file),
            entries_view(destination@),
            settings.include_videos,
        ),
{
    match extension_of(source_file.name.as_str()) {
        Some(extension) => {
            if extension_is_image_extension(extension.as_str()) {
                handle_source_image(source_file, destination, settings)
            } else if extension_is_video_extension(extension.as_str())
                && settings.include_videos {
                handle_source_video(source_file, destination, settings)
            } else {
                destination
            }
        },
        None => destination,
    }
}

/// Creates the derived image for a source image, unless the derived name is
/// already taken.
fn handle_source_image(source_image: &FsEntry, destination: Vec<FsEntry>, settings: &Settings) -> (
    r: Vec<FsEntry>)
    requires
        source_image.node is File,
        name_is_image(source_image.name@),
    ensures
        entries_view(r@) == apply_source_entry(
            entry_view(*source_image),
            entries_view(destination@),
            settings.include_videos,
        ),
{
    match &source_image.node {
        FsNode::File(data) => {
            let date_time: Option<&str> = match &data.timestamp {
                Some(t) => Some(t.as_str()),
                None => None,
            };
            let derived = destination_image_name_from_file_name(
                source_image.name.as_str(),
                date_time,
            );
            let mut destination = destination;
            if !contains_entry_named(&destination, &derived) {
                let entry = FsEntry { name: derived, node: FsNode::File(data.clone()) };
                proof {
                    lemma_entries_view_push(destination@, entry);
                }
                destination.push(entry);
            }
            destination
        },
        FsNode::Directory(_) => {
            proof {
                assert(false);
            }
            destination
        },
    }
}

/// Copies a source video under its own name, unless the name is already
/// taken.
fn handle_source_video(source_video: &FsEntry, destination: Vec<FsEntry>, settings: &Settings) -> (
    r: Vec<FsEntry>)
    requires
        source_video.node is File,
        !name_is_image(source_video.name@),
        name_is_video(source_video.name@),
        settings.include_videos,
    ensures
        entries_view(r@) == apply_source_entry(
            entry_view(*source_video),
            entries_view(destination@),
            settings.include_videos,
        ),
{
    match &source_video.node {
        FsNode::File(data) => {
            let mut destination = destination;
            if !contains_entry_named(&destination, &source_video.name) {
                let entry = FsEntry {
                    name: source_video.name.clone(),
                    node: FsNode::File(data.clone()),
                };
                proof {
                    lemma_entries_view_push(destination@, entry);
                }
                destination.push(entry);
            }
            destination
        },
        FsNode::Directory(_) => {
            proof {
                assert(false);
            }
            destination
        },
    }
}

/// The create pass: walks the source entries in order and applies each.
fn iterate_source_entries(source: &Vec<FsEntry>, destination: Vec<FsEntry>, settings: &Settings)
    -> (r: Vec<FsEntry>)
    ensures
        entries_view(r@) == create_pass(
            entries_view(source@),
            entries_view(destination@),
            settings.include_videos,
        ),
    decreases entries_size(entries_view(source@)), 1int,
{
    let ghost src_view = entries_view(source@);
    let ghost dst0 = entries_view(destination@);
    proof {
        lemma_entries_view(source@);
        lemma_entries_size_bound(src_view);
        assert(src_view.skip(0) =~= src_view);
    }
    let mut destination = destination;
    let mut i: usize = 0;
    while i < source.len()
        invariant
            i <= source@.len(),
            src_view == entries_view(source@),
            src_view.len() == source@.len(),
            forall|k: int| 0 <= k < source@.len() ==> #[trigger] src_view[k] == entry_view(
                source@[k],
            ),
            forall|k: int|
                0 <= k < src_view.len() ==> entry_size(#[trigger] src_view[k]) <= entries_size(
                    src_view,
                ),
            create_pass(
                src_view.skip(i as int),
                entries_view(destination@),
                settings.include_videos,
            ) == create_pass(src_view, dst0, settings.include_videos),
        decreases source@.len() - i,
    {
        let ghost before = entries_view(destination@);
        let entry = &source[i];
        let is_dir = matches!(&entry.node, FsNode::Directory(_));
        if is_dir {
            destination = handle_source_dir(entry, destination, settings);
        } else {
            destination = handle_source_file(entry, destination, settings);
        }
        proof {
            assert(src_view.skip(i as int).drop_first() =~= src_view.skip(i + 1));
            assert(src_view.skip(i as int)[0] == src_view[i as int]);
            assert(entries_view(destination@) == apply_source_entry(
                src_view[i as int],
                before,
                settings.include_videos,
            ));
        }
        i += 1;
    }
    proof {
        assert(src_view.skip(src_view.len() as int) =~= Seq::<GhostEntry>::empty());
    }
    destination
}

// ---------------------------------------------------------------------------
// The executable delete pass
// ---------------------------------------------------------------------------
/// Whether a destination directory may persist: only when a same-named
/// source directory exists.
fn handle_destination_dir(destination_dir_name: &String, source: &Vec<FsEntry>) -> (r: bool)
    ensures
        r == has_dir_named(entries_view(source@), destination_dir_name@),
{
    contains_dir_named(source, destination_dir_name)
}

/// Whether a destination derived image may persist: its name must decode to
/// the name of an existing source file.
fn handle_destination_image(destination_image_name: &String, source: &Vec<FsEntry>) -> (r: bool)
    ensures
        r == match decode_spec(destination_image_name@) {
            Some(original) => has_file_named(entries_view(source@), original),
            None => false,
        },
{
    match destination_image_name_to_source_image_name(destination_image_name.as_str()) {
        Some(original) => contains_file_named(source, &original),
        None => false,
    }
}

/// Whether a destination video may persist: videos must be included and a
/// same-named source file must exist.
fn handle_destination_video(
    destination_video_name: &String,
    source: &Vec<FsEntry>,
    settings: &Settings,
) -> (r: bool)
    ensures
        r == (settings.include_videos && has_file_named(
            entries_view(source@),
            destination_video_name@,
        )),
{
    settings.include_videos && contains_file_named(source, destination_video_name)
}

/// Whether a destination file may persist: derived images and videos are
/// judged by their kind; every other file — extensionless ones included —
/// is deleted.
fn handle_destination_file(
    destination_file_name: &String,
    source: &Vec<FsEntry>,
    settings: &Settings,
) -> (r: bool)
    ensures
        r == keep_destination_file(
            destination_file_name@,
            entries_view(source@),
            settings.include_videos,
        ),
{
    match extension_of(destination_file_name.as_str()) {
        Some(extension) => {
            if extension_is_destination_image_extension(extension.as_str()) {
                handle_destination_image(destination_file_name, source)
            } else if extension_is_video_extension(extension.as_str()) {
                handle_destination_video(destination_file_name, source, settings)
            } else {
                false
            }
        },
        None => false,
    }
}

/// The delete pass: walks the destination entries and keeps only those with
/// a valid corresponding source entry.
fn iterate_destination_entries(
    source: &Vec<FsEntry>,
    destination: Vec<FsEntry>,
    settings: &Settings,
) -> (r: Vec<FsEntry>)
    ensures
        entries_view(r@) == delete_pass(
            entries_view(destination@),
            entries_view(source@),
            settings.include_videos,
        ),
{
    let ghost orig = destination@;
    let ghost dst_view = entries_view(orig);
    let ghost src_view = entries_view(source@);
    proof {
        lemma_entries_view(orig);
        assert(orig.take(orig.len() as int) =~= orig);
    }
    let mut destination = destination;
    let mut kept: Vec<FsEntry> = Vec::new();
    while destination.len() > 0
        invariant
            destination@.len() <= orig.len(),
            destination@ == orig.take(destination@.len() as int),
            dst_view == entries_view(orig),
            dst_view.len() == orig.len(),
            forall|k: int| 0 <= k < orig.len() ==> #[trigger] dst_view[k] == entry_view(orig[k]),
            src_view == entries_view(source@),
            entries_view(kept@) == delete_pass(
                dst_view.skip(destination@.len() as int),
                src_view,
                settings.include_videos,
            ),
        decreases destination@.len(),
    {
        let ghost j = destination@.len() as int;
        proof {
            assert(0 < j <= orig.len());
        }
        let entry = match destination.pop() {
            Some(e) => e,
            None => {
                proof {
                    assert(false);
                }
                return kept;
            },
        };
        proof {
            assert(entry == orig.take(j)[j - 1]);
            assert(orig.take(j)[j - 1] == orig[j - 1]);
            assert(destination@ =~= orig.take(j).subrange(0, j - 1));
            assert(orig.take(j).subrange(0, j - 1) =~= orig.take(j - 1));
        }
        let keep = match &entry.node {
            FsNode::Directory(_) => handle_destination_dir(&entry.name, source),
            FsNode::File(_) => handle_destination_file(&entry.name, source, settings),
        };
        proof {
            assert(entry_view(entry) == dst_view[j - 1]);
            assert(keep == keep_entry(dst_view[j - 1], src_view, settings.include_videos));
            assert(dst_view.skip(j - 1).drop_first() =~= dst_view.skip(j));
            assert(dst_view.skip(j - 1)[0] == dst_view[j - 1]);
        }
        if keep {
            let ghost kept_before = kept@;
            kept.insert(0, entry);
            proof {
                lemma_entries_view(kept@);
                lemma_entries_view(kept_before);
                assert(entries_view(kept@) =~= seq![dst_view[j - 1]] + entries_view(kept_before));
            }
        }
    }
    proof {
        assert(dst_view.skip(0) =~= dst_view);
    }
    kept
}

/// One directory level: the create pass over the source entries, then the
/// delete pass over the destination entries.
fn map_directory_int(source: &Vec<FsEntry>, destination: Vec<FsEntry>, settings: &Settings) -> (r:
    Vec<FsEntry>)
    ensures
        entries_view(r@) == reconcile_spec(
            entries_view(source@),
            entries_view(destination@),
            settings.include_videos,
        ),
    decreases entries_size(entries_view(source@)), 2int,
{
    let destination = iterate_source_entries(source, destination, settings);
    iterate_destination_entries(source, destination, settings)
}

// ---------------------------------------------------------------------------
// Executable validation and the public entry point
// ---------------------------------------------------------------------------
/// Whether `path_to_check` lies at or under `path_to_compare`, both given as
/// canonical path components.
fn is_path_subdir_of(path_to_check: &Vec<String>, path_to_compare: &Vec<String>) -> (r: bool)
    ensures
        r == is_path_prefix_of(path_view(path_to_compare@), path_view(path_to_check@)),
{
    if path_to_compare.len() > path_to_check.len() {
        return false;
    }
    let mut i: usize = 0;
    while i < path_to_compare.len()
        invariant
            i <= path_to_compare@.len(),
            path_to_compare@.len() <= path_to_check@.len(),
            forall|k: int|
                0 <= k < i ==> path_view(path_to_check@)[k] == path_view(path_to_compare@)[k],
        decreases path_to_compare@.len() - i,
    {
        if !(path_to_check[i] == path_to_compare[i]) {
            proof {
                let ghost k = i as int;
                assert(path_view(path_to_check@)[k] != path_view(path_to_compare@)[k]);
            }
            return false;
        }
        i += 1;
    }
    true
}

/// A copy of a path, component by component.
fn clone_path(path: &Vec<String>) -> (r: Vec<String>)
    ensures
        r@ == path@,
{
    let mut r: Vec<String> = Vec::new();
    let mut i: usize = 0;
    while i < path.len()
        invariant
            i <= path@.len(),
            r@ =~= path@.take(i as int),
        decreases path@.len() - i,
    {
        r.push(path[i].clone());
        proof {
            assert(r@ =~= path@.take(i + 1));
        }
        i += 1;
    }
    proof {
        assert(r@ =~= path@);
    }
    r
}

/// The first entry at index `i` the run would delete determines
/// `first_missing_top_level`.
proof fn lemma_first_missing_at(
    dst: Seq<GhostEntry>,
    src: Seq<GhostEntry>,
    videos: bool,
    i: int,
)
    requires
        0 <= i < dst.len(),
        !keep_entry(dst[i], src, videos),
        forall|k: int| 0 <= k < i ==> keep_entry(#[trigger] dst[k], src, videos),
    ensures
        first_missing_top_level(dst, src, videos) == Some(dst[i].name),
    decreases dst,
{
    if i > 0 {
        assert forall|k: int|
            0 <= k < i - 1 implies keep_entry(#[trigger] dst.drop_first()[k], src, videos) by {
            assert(dst.drop_first()[k] == dst[k + 1]);
        }
        assert(dst.drop_first()[i - 1] == dst[i]);
        lemma_first_missing_at(dst.drop_first(), src, videos, i - 1);
    }
}

/// When every destination entry has a valid corresponding source entry,
/// nothing is flagged.
proof fn lemma_first_missing_none(dst: Seq<GhostEntry>, src: Seq<GhostEntry>, videos: bool)
    requires
        forall|k: int| 0 <= k < dst.len() ==> keep_entry(#[trigger] dst[k], src, videos),
    ensures
        first_missing_top_level(dst, src, videos) is None,
    decreases dst,
{
    if dst.len() > 0 {
        assert forall|k: int|
            0 <= k < dst.drop_first().len() implies keep_entry(
            #[trigger] dst.drop_first()[k],
            src,
            videos,
        ) by {
            assert(dst.drop_first()[k] == dst[k + 1]);
        }
        lemma_first_missing_none(dst.drop_first(), src, videos);
    }
}

/// The index of the first destination entry the run would delete.
fn find_missing_top_level(
    destination: &Vec<FsEntry>,
    source: &Vec<FsEntry>,
    settings: &Settings,
) -> (r: Option<usize>)
    ensures
        match r {
            Some(i) => {
                &&& i < destination@.len()
                &&& first_missing_top_level(
                    entries_view(destination@),
                    entries_view(source@),
                    settings.include_videos,
                ) == Some(entries_view(destination@)[i as int].name)
                &&& entries_view(destination@)[i as int].name == destination@[i as int].name@
            },
            None => first_missing_top_level(
                entries_view(destination@),
                entries_view(source@),
                settings.include_videos,
            ) is None,
        },
{
    let ghost dst_view = entries_view(destination@);
    let ghost src_view = entries_view(source@);
    proof {
        lemma_entries_view(destination@);
    }
    let mut i: usize = 0;
    while i < destination.len()
        invariant
            i <= destination@.len(),
            dst_view == entries_view(destination@),
            dst_view.len() == destination@.len(),
            forall|k: int| 0 <= k < destination@.len() ==> #[trigger] dst_view[k] == entry_view(
                destination@[k],
            ),
            src_view == entries_view(source@),
            forall|k: int|
                0 <= k < i ==> keep_entry(#[trigger] dst_view[k], src_view, settings.include_videos),
        decreases destination@.len() - i,
    {
        let entry = &destination[i];
        let keep = match &entry.node {
            FsNode::Directory(_) => handle_destination_dir(&entry.name, source),
            FsNode::File(_) => handle_destination_file(&entry.name, source, settings),
        };
        if !keep {
            proof {
                lemma_first_missing_at(dst_view, src_view, settings.include_videos, i as int);
            }
            return Some(i);
        }
        i += 1;
    }
    proof {
        lemma_first_missing_none(dst_view, src_view, settings.include_videos);
    }
    None
}

/// The ghost value of what `map_directory` returns.
pub open spec fn map_directory_result_view(r: Result<Vec<FsEntry>, MapperError>) -> Result<
    Seq<GhostEntry>,
    GhostMapperError,
> {
    match r {
        Ok(entries) => Ok(entries_view(entries@)),
        Err(e) => Err(e@),
    }
}

/// The root node of a source or destination, as far as it exists and is a
/// directory.
pub open spec fn source_directory_entries(node: Option<&FsNode>) -> Option<Seq<GhostEntry>> {
    match node {
        Some(FsNode::Directory(entries)) => Some(entries_view(entries@)),
        _ => None,
    }
}

/// Likewise, for the owned destination root.
pub open spec fn destination_directory_entries(node: Option<FsNode>) -> Option<Seq<GhostEntry>> {
    match node {
        Some(FsNode::Directory(entries)) => Some(entries_view(entries@)),
        _ => None,
    }
}

/// Reconciles a destination tree with a source tree.
///
/// `source` and `destination` are what stands at the two roots (nothing, a
/// file, or a directory with its entries); `source_path` and
/// `destination_path` are the canonical components of the two root paths,
/// used for the containment checks. On success the new destination entries
/// are returned; every validation failure of the specification is returned
/// exactly as `map_directory_spec` states, before any work. The top-level
/// safety guard is applied.
pub fn map_directory(
    source: Option<&FsNode>,
    destination: Option<FsNode>,
    source_path: &Vec<String>,
    destination_path: &Vec<String>,
    settings: Settings,
) -> (r: Result<Vec<FsEntry>, MapperError>)
    ensures
        map_directory_result_view(r) == map_directory_spec(
            source_directory_entries(source),
            destination_directory_entries(destination),
            path_view(source_path@),
            path_view(destination_path@),
            settings.include_videos,
            true,
        ),
{
    map_directory_opts(source, destination, source_path, destination_path, settings, true)
}

/// Reconciles without the top-level safety guard: what a caller that has
/// already approved the destination root uses, and what repeated runs over
/// a destination holding unrelated-but-doomed top-level entries need.
pub fn map_directory_custom_opts(
    source: Option<&FsNode>,
    destination: Option<FsNode>,
    source_path: &Vec<String>,
    destination_path: &Vec<String>,
    settings: Settings,
) -> (r: Result<Vec<FsEntry>, MapperError>)
    ensures
        map_directory_result_view(r) == map_directory_spec(
            source_directory_entries(source),
            destination_directory_entries(destination),
            path_view(source_path@),
            path_view(destination_path@),
            settings.include_videos,
            false,
        ),
{
    map_directory_opts(source, destination, source_path, destination_path, settings, false)
}

fn map_directory_opts(
    source: Option<&FsNode>,
    destination: Option<FsNode>,
    source_path: &Vec<String>,
    destination_path: &Vec<String>,
    settings: Settings,
    check_top_level: bool,
) -> (r: Result<Vec<FsEntry>, MapperError>)
    ensures
        map_directory_result_view(r) == map_directory_spec(
            source_directory_entries(source),
            destination_directory_entries(destination),
            path_view(source_path@),
            path_view(destination_path@),
            settings.include_videos,
            check_top_level,
        ),
{
    let source_entries: &Vec<FsEntry> = match source {
        Some(FsNode::Directory(entries)) => entries,
        _ => {
            return Err(MapperError::SrcDoesNotExist);
        },
    };
    let destination_entries: Vec<FsEntry> = match destination {
        Some(FsNode::Directory(entries)) => entries,
        _ => {
            return Err(MapperError::DstDoesNotExist);
        },
    };
    if is_path_subdir_of(source_path, destination_path) {
        return Err(MapperError::SrcInsideDst);
    }
    if is_path_subdir_of(destination_path, source_path) {
        return Err(MapperError::DstInsideSrc);
    }
    if check_top_level {
        match find_missing_top_level(&destination_entries, source_entries, &settings) {
            Some(i) => {
                let mut missing = clone_path(destination_path);
                missing.push(destination_entries[i].name.clone());
                proof {
                    assert(path_view(missing@) =~= path_view(destination_path@).push(
                        destination_entries@[i as int].name@,
                    ));
                }
                return Err(MapperError::DstTopLevelEntryNotInSrc(missing));
            },
            None => {},
        }
    }
    Ok(map_directory_int(source_entries, destination_entries, &settings))
}

} // verus!
