//! In-memory model of a file tree: the values the reconciler works on.
//!
//! A directory is a list of named entries; a file carries the capture
//! timestamp its metadata offers (if any) and an abstract content identity.
//! The ghost types mirror the executable ones with mathematical sequences,
//! so contracts and laws can be stated over them.
use vstd::prelude::*;

verus! {

/// What the reconciler needs to know about a plain file: the capture
/// timestamp read from its metadata (if any), and an identity for its bytes.
#[derive(Debug, PartialEq)]
pub struct FileData {
    pub timestamp: Option<String>,
    pub content: u64,
}

impl Clone for FileData {
    fn clone(&self) -> (r: FileData)
        ensures
            r == *self,
    {
        FileData {
            timestamp: match &self.timestamp {
                Some(t) => Some(t.clone()),
                None => None,
            },
            content: self.content,
        }
    }
}

/// A file-system node: a directory with its entries, or a plain file.
#[derive(Debug, PartialEq)]
pub enum FsNode {
    Directory(Vec<FsEntry>),
    File(FileData),
}

/// A named node inside a directory.
#[derive(Debug, PartialEq)]
pub struct FsEntry {
    pub name: String,
    pub node: FsNode,
}

/// Ghost counterpart of `FileData`.
pub struct GhostFileData {
    pub timestamp: Option<Seq<char>>,
    pub content: u64,
}

/// Ghost counterpart of `FsNode`.
pub enum GhostNode {
    Directory(Seq<GhostEntry>),
    File(GhostFileData),
}

/// Ghost counterpart of `FsEntry`.
pub struct GhostEntry {
    pub name: Seq<char>,
    pub node: GhostNode,
}

pub open spec fn file_data_view(data: FileData) -> GhostFileData {
    GhostFileData {
        timestamp: match data.timestamp {
            Some(t) => Some(t@),
            None => None,
        },
        content: data.content,
    }
}

pub open spec fn node_view(node: FsNode) -> GhostNode
    decreases node,
{
    match node {
        FsNode::Directory(entries) => GhostNode::Directory(entries_view(entries@)),
        FsNode::File(data) => GhostNode::File(file_data_view(data)),
    }
}

pub open spec fn entry_view(entry: FsEntry) -> GhostEntry
    decreases entry,
{
    GhostEntry { name: entry.name@, node: node_view(entry.node) }
}

pub open spec fn entries_view(entries: Seq<FsEntry>) -> Seq<GhostEntry>
    decreases entries,
{
    if entries.len() == 0 {
        Seq::empty()
    } else {
        seq![entry_view(entries[0])] + entries_view(entries.drop_first())
    }
}

impl View for FsNode {
    type V = GhostNode;

    open spec fn view(&self) -> GhostNode {
        node_view(*self)
    }
}

impl View for FsEntry {
    type V = GhostEntry;

    open spec fn view(&self) -> GhostEntry {
        entry_view(*self)
    }
}

/// The size of a ghost node: a termination measure for walks of a tree.
pub open spec fn node_size(node: GhostNode) -> nat
    decreases node,
{
    match node {
        GhostNode::Directory(entries) => 1 + entries_size(entries),
        GhostNode::File(_) => 1,
    }
}

/// The summed size of a directory's entries.
pub open spec fn entries_size(entries: Seq<GhostEntry>) -> nat
    decreases entries,
{
    if entries.len() == 0 {
        0
    } else {
        entry_size(entries[0]) + entries_size(entries.drop_first())
    }
}

/// The size of one entry.
pub open spec fn entry_size(entry: GhostEntry) -> nat
    decreases entry,
{
    1 + node_size(entry.node)
}

/// Every entry weighs no more than the whole directory.
pub proof fn lemma_entries_size_bound(entries: Seq<GhostEntry>)
    ensures
        forall|i: int| 0 <= i < entries.len() ==> entry_size(#[trigger] entries[i]) <= entries_size(
            entries,
        ),
    decreases entries,
{
    if entries.len() > 0 {
        lemma_entries_size_bound(entries.drop_first());
        assert forall|i: int| 0 <= i < entries.len() implies entry_size(#[trigger] entries[i])
            <= entries_size(entries) by {
            if i > 0 {
                assert(entries[i] == entries.drop_first()[i - 1]);
            }
        }
    }
}

/// `entries_view` maps the entries one by one.
pub proof fn lemma_entries_view(entries: Seq<FsEntry>)
    ensures
        entries_view(entries).len() == entries.len(),
        forall|i: int|
            0 <= i < entries.len() ==> #[trigger] entries_view(entries)[i] == entry_view(
                entries[i],
            ),
    decreases entries,
{
    if entries.len() > 0 {
        lemma_entries_view(entries.drop_first());
    }
}

/// Appending an entry appends its view.
pub proof fn lemma_entries_view_push(entries: Seq<FsEntry>, entry: FsEntry)
    ensures
        entries_view(entries.push(entry)) == entries_view(entries).push(entry_view(entry)),
{
    let pushed = entries.push(entry);
    lemma_entries_view(pushed);
    lemma_entries_view(entries);
    assert(pushed[entries.len() as int] == entry);
    assert forall|i: int| 0 <= i < entries.len() implies pushed[i] == entries[i] by {}
    assert(entries_view(pushed) =~= entries_view(entries).push(entry_view(entry)));
}

} // verus!
