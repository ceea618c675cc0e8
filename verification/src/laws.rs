//! The laws of the reconciler, proved over the specification functions that
//! the executable functions are tied to.
use vstd::prelude::*;

use crate::file_names::{decode_spec, encode_spec, lemma_encode_extension};
use crate::mapper::{
    apply_source_entry, child_entries_at, create_file, create_pass, delete_pass, entries_wf,
    has_dir_named, has_entry_named, has_file_named, keep_destination_file, keep_entry,
    lemma_lookup_absent, lemma_lookup_first, lemma_upsert_found_dir, lookup, name_is_destination_image,
    name_is_image, name_is_video, node_wf, reconcile_spec, upsert_directory,
};
use crate::model::{
    entries_size, lemma_entries_size_bound, GhostEntry, GhostFileData, GhostNode,
};

verus! {

// ---------------------------------------------------------------------------
// The delete pass as a filter
// ---------------------------------------------------------------------------
/// Pairwise-distinct entry names.
pub open spec fn unique_names(entries: Seq<GhostEntry>) -> bool {
    forall|i: int, j: int|
        0 <= i < j < entries.len() ==> #[trigger] entries[i].name != #[trigger] entries[j].name
}

/// Everything the delete pass lets through has a valid corresponding source
/// entry.
proof fn lemma_delete_pass_sound(dst: Seq<GhostEntry>, src: Seq<GhostEntry>, videos: bool)
    ensures
        forall|i: int|
            0 <= i < delete_pass(dst, src, videos).len() ==> keep_entry(
                #[trigger] delete_pass(dst, src, videos)[i],
                src,
                videos,
            ),
    decreases dst,
{
    if dst.len() > 0 {
        lemma_delete_pass_sound(dst.drop_first(), src, videos);
        let d = delete_pass(dst, src, videos);
        let dr = delete_pass(dst.drop_first(), src, videos);
        if keep_entry(dst[0], src, videos) {
            assert forall|i: int| 0 <= i < d.len() implies keep_entry(d[i], src, videos) by {
                if i == 0 {
                    assert(d[0] == dst[0]);
                } else {
                    assert(d[i] == dr[i - 1]);
                }
            }
        }
    }
}

/// A destination whose entries all have valid corresponding source entries
/// passes the delete pass untouched.
proof fn lemma_delete_pass_keeps_all(dst: Seq<GhostEntry>, src: Seq<GhostEntry>, videos: bool)
    requires
        forall|i: int| 0 <= i < dst.len() ==> keep_entry(#[trigger] dst[i], src, videos),
    ensures
        delete_pass(dst, src, videos) == dst,
    decreases dst,
{
    if dst.len() > 0 {
        lemma_delete_pass_keeps_all(dst.drop_first(), src, videos);
        assert(delete_pass(dst, src, videos) =~= dst);
    }
}

/// The delete pass distributes over concatenation.
proof fn lemma_delete_pass_concat(
    a: Seq<GhostEntry>,
    b: Seq<GhostEntry>,
    src: Seq<GhostEntry>,
    videos: bool,
)
    ensures
        delete_pass(a + b, src, videos) == delete_pass(a, src, videos) + delete_pass(
            b,
            src,
            videos,
        ),
    decreases a,
{
    if a.len() == 0 {
        assert(a + b =~= b);
        assert(delete_pass(a, src, videos) + delete_pass(b, src, videos) =~= delete_pass(
            b,
            src,
            videos,
        ));
    } else {
        lemma_delete_pass_concat(a.drop_first(), b, src, videos);
        assert((a + b).drop_first() =~= a.drop_first() + b);
        assert((a + b)[0] == a[0]);
        if keep_entry(a[0], src, videos) {
            assert(delete_pass(a + b, src, videos) =~= delete_pass(a, src, videos) + delete_pass(
                b,
                src,
                videos,
            ));
        }
    }
}

/// A delete pass over entries that all lack corresponding source entries
/// drops everything.
proof fn lemma_delete_pass_drops_all(dst: Seq<GhostEntry>, src: Seq<GhostEntry>, videos: bool)
    requires
        forall|i: int| 0 <= i < dst.len() ==> !keep_entry(#[trigger] dst[i], src, videos),
    ensures
        delete_pass(dst, src, videos) == Seq::<GhostEntry>::empty(),
    decreases dst,
{
    if dst.len() > 0 {
        lemma_delete_pass_drops_all(dst.drop_first(), src, videos);
    }
}

// ---------------------------------------------------------------------------
// Lookup algebra
// ---------------------------------------------------------------------------
/// A name is present exactly when `lookup` finds something.
proof fn lemma_lookup_has(entries: Seq<GhostEntry>, name: Seq<char>)
    ensures
        has_entry_named(entries, name) <==> lookup(entries, name) is Some,
    decreases entries,
{
    if entries.len() > 0 {
        lemma_lookup_has(entries.drop_first(), name);
        if entries[0].name != name {
            assert forall|i: int|
                0 <= i < entries.drop_first().len() && entries.drop_first()[i].name
                    == name implies has_entry_named(entries, name) by {
                assert(entries[i + 1] == entries.drop_first()[i]);
            }
            if has_entry_named(entries, name) {
                let i = choose|i: int| 0 <= i < entries.len() && entries[i].name == name;
                assert(entries.drop_first()[i - 1] == entries[i]);
                assert(has_entry_named(entries.drop_first(), name));
            }
        }
    }
}

/// `lookup` finds a first match.
proof fn lemma_lookup_index(entries: Seq<GhostEntry>, name: Seq<char>)
    requires
        lookup(entries, name) is Some,
    ensures
        exists|i: int|
            {
                &&& 0 <= i < entries.len()
                &&& #[trigger] entries[i].name == name
                &&& entries[i].node == lookup(entries, name).unwrap()
                &&& forall|k: int| 0 <= k < i ==> #[trigger] entries[k].name != name
            },
    decreases entries,
{
    if entries[0].name == name {
        assert(entries[0].name == name && entries[0].node == lookup(entries, name).unwrap()
            && forall|k: int| 0 <= k < 0 ==> #[trigger] entries[k].name != name);
    } else {
        lemma_lookup_index(entries.drop_first(), name);
        let i = choose|i: int|
            {
                &&& 0 <= i < entries.drop_first().len()
                &&& #[trigger] entries.drop_first()[i].name == name
                &&& entries.drop_first()[i].node == lookup(entries.drop_first(), name).unwrap()
                &&& forall|k: int| 0 <= k < i ==> #[trigger] entries.drop_first()[k].name != name
            };
        assert(entries[i + 1] == entries.drop_first()[i]);
        assert forall|k: int| 0 <= k < i + 1 implies #[trigger] entries[k].name != name by {
            if k > 0 {
                assert(entries.drop_first()[k - 1] == entries[k]);
            }
        }
        assert(entries[i + 1].name == name && entries[i + 1].node == lookup(
            entries,
            name,
        ).unwrap() && forall|k: int| 0 <= k < i + 1 ==> #[trigger] entries[k].name != name);
    }
}

/// Appending an entry does not change existing lookups and answers for a
/// fresh name.
proof fn lemma_lookup_push(entries: Seq<GhostEntry>, entry: GhostEntry, name: Seq<char>)
    ensures
        lookup(entries.push(entry), name) == if lookup(entries, name) is Some {
            lookup(entries, name)
        } else if entry.name == name {
            Some(entry.node)
        } else {
            None::<GhostNode>
        },
    decreases entries,
{
    let pushed = entries.push(entry);
    if entries.len() == 0 {
        assert(pushed[0] == entry);
        assert(pushed.drop_first() =~= Seq::<GhostEntry>::empty());
        assert(lookup(pushed.drop_first(), name) is None);
        if entry.name == name {
            assert(lookup(pushed, name) == Some(entry.node));
        } else {
            assert(lookup(pushed, name) is None);
        }
    } else {
        lemma_lookup_push(entries.drop_first(), entry, name);
        assert(pushed[0] == entries[0]);
        assert(pushed.drop_first() =~= entries.drop_first().push(entry));
        assert(lookup(pushed.drop_first(), name) == lookup(
            entries.drop_first().push(entry),
            name,
        ));
        if entries[0].name == name {
            assert(lookup(pushed, name) == Some(entries[0].node));
        } else {
            assert(lookup(pushed, name) == lookup(entries.drop_first().push(entry), name));
        }
    }
}

/// Lookup over a concatenation prefers the left side.
proof fn lemma_lookup_concat(a: Seq<GhostEntry>, b: Seq<GhostEntry>, name: Seq<char>)
    ensures
        lookup(a + b, name) == if lookup(a, name) is Some {
            lookup(a, name)
        } else {
            lookup(b, name)
        },
    decreases a,
{
    if a.len() == 0 {
        assert(a + b =~= b);
    } else {
        lemma_lookup_concat(a.drop_first(), b, name);
        assert((a + b)[0] == a[0]);
        assert((a + b).drop_first() =~= a.drop_first() + b);
    }
}

/// What `upsert_directory` does to every lookup.
proof fn lemma_lookup_upsert(
    dst: Seq<GhostEntry>,
    name: Seq<char>,
    child: Seq<GhostEntry>,
    probe: Seq<char>,
)
    requires
        unique_names(dst),
    ensures
        lookup(upsert_directory(dst, name, child), probe) == if probe == name {
            Some(GhostNode::Directory(child))
        } else {
            lookup(dst, probe)
        },
    decreases dst,
{
    let new_entry = GhostEntry { name: name, node: GhostNode::Directory(child) };
    if dst.len() == 0 {
        let out = seq![new_entry];
        assert(out[0] == new_entry);
        assert(out.drop_first() =~= Seq::<GhostEntry>::empty());
        assert(upsert_directory(dst, name, child) == out);
        if probe == name {
            assert(lookup(out, probe) == Some(new_entry.node));
        } else {
            assert(lookup(Seq::<GhostEntry>::empty(), probe) is None);
            assert(lookup(out, probe) is None);
        }
    } else {
        assert forall|p: int, q: int|
            0 <= p < q < dst.drop_first().len() implies #[trigger] dst.drop_first()[p].name
            != #[trigger] dst.drop_first()[q].name by {
            assert(dst.drop_first()[p] == dst[p + 1]);
            assert(dst.drop_first()[q] == dst[q + 1]);
        }
        if dst[0].name == name {
            lemma_lookup_has(dst.drop_first(), name);
            if has_entry_named(dst.drop_first(), name) {
                let j = choose|j: int|
                    0 <= j < dst.drop_first().len() && dst.drop_first()[j].name == name;
                assert(dst[j + 1] == dst.drop_first()[j]);
                assert(false);
            }
            match dst[0].node {
                GhostNode::Directory(_) => {
                    let out = seq![new_entry] + dst.drop_first();
                    assert(upsert_directory(dst, name, child) == out);
                    assert(out[0] == new_entry);
                    assert(out.drop_first() =~= dst.drop_first());
                    if probe == name {
                        assert(lookup(out, probe) == Some(new_entry.node));
                    } else {
                        assert(lookup(out, probe) == lookup(dst.drop_first(), probe));
                    }
                },
                GhostNode::File(_) => {
                    let out = dst.drop_first().push(new_entry);
                    assert(upsert_directory(dst, name, child) == out);
                    lemma_lookup_push(dst.drop_first(), new_entry, probe);
                    if probe == name {
                        assert(lookup(dst.drop_first(), probe) is None);
                        assert(lookup(out, probe) == Some(new_entry.node));
                    } else {
                        assert(lookup(out, probe) == lookup(dst.drop_first(), probe));
                    }
                },
            }
        } else {
            lemma_lookup_upsert(dst.drop_first(), name, child, probe);
            let out = seq![dst[0]] + upsert_directory(dst.drop_first(), name, child);
            assert(upsert_directory(dst, name, child) == out);
            assert(out[0] == dst[0]);
            assert(out.drop_first() =~= upsert_directory(dst.drop_first(), name, child));
        }
    }
}

/// Removing one entry of a duplicate-free directory erases exactly its name.
proof fn lemma_lookup_remove(entries: Seq<GhostEntry>, i: int, probe: Seq<char>)
    requires
        unique_names(entries),
        0 <= i < entries.len(),
    ensures
        lookup(entries.remove(i), probe) == if probe == entries[i].name {
            None::<GhostNode>
        } else {
            lookup(entries, probe)
        },
    decreases entries,
{
    lemma_lookup_has(entries, probe);
    lemma_lookup_has(entries.remove(i), probe);
    if i == 0 {
        assert(entries.remove(0) =~= entries.drop_first());
        if probe == entries[0].name {
            if has_entry_named(entries.drop_first(), probe) {
                let j = choose|j: int|
                    0 <= j < entries.drop_first().len() && entries.drop_first()[j].name == probe;
                assert(entries[j + 1] == entries.drop_first()[j]);
                assert(false);
            }
        }
    } else {
        assert forall|p: int, q: int|
            0 <= p < q < entries.drop_first().len() implies #[trigger] entries.drop_first()[p].name
            != #[trigger] entries.drop_first()[q].name by {
            assert(entries.drop_first()[p] == entries[p + 1]);
            assert(entries.drop_first()[q] == entries[q + 1]);
        }
        lemma_lookup_remove(entries.drop_first(), i - 1, probe);
        assert(entries.remove(i)[0] == entries[0]);
        assert(entries.remove(i).drop_first() =~= entries.drop_first().remove(i - 1));
        assert(entries.drop_first()[i - 1] == entries[i]);
    }
}

// ---------------------------------------------------------------------------
// Uniqueness preservation
// ---------------------------------------------------------------------------
/// Names surviving the delete pass were present before.
proof fn lemma_delete_pass_names(
    dst: Seq<GhostEntry>,
    src: Seq<GhostEntry>,
    videos: bool,
    name: Seq<char>,
)
    ensures
        has_entry_named(delete_pass(dst, src, videos), name) ==> has_entry_named(dst, name),
    decreases dst,
{
    if dst.len() > 0 {
        lemma_delete_pass_names(dst.drop_first(), src, videos, name);
        let d = delete_pass(dst, src, videos);
        let dr = delete_pass(dst.drop_first(), src, videos);
        if has_entry_named(d, name) {
            let i = choose|i: int| 0 <= i < d.len() && d[i].name == name;
            if keep_entry(dst[0], src, videos) {
                if i == 0 {
                    assert(d[0] == dst[0]);
                    assert(has_entry_named(dst, name));
                } else {
                    assert(d[i] == dr[i - 1]);
                    assert(has_entry_named(dr, name));
                    let j = choose|j: int|
                        0 <= j < dst.drop_first().len() && dst.drop_first()[j].name == name;
                    assert(dst[j + 1] == dst.drop_first()[j]);
                }
            } else {
                assert(has_entry_named(dr, name));
                let j = choose|j: int|
                    0 <= j < dst.drop_first().len() && dst.drop_first()[j].name == name;
                assert(dst[j + 1] == dst.drop_first()[j]);
            }
        }
    }
}

/// The delete pass keeps names pairwise distinct.
proof fn lemma_delete_pass_unique(dst: Seq<GhostEntry>, src: Seq<GhostEntry>, videos: bool)
    requires
        unique_names(dst),
    ensures
        unique_names(delete_pass(dst, src, videos)),
    decreases dst,
{
    if dst.len() > 0 {
        assert forall|p: int, q: int|
            0 <= p < q < dst.drop_first().len() implies #[trigger] dst.drop_first()[p].name
            != #[trigger] dst.drop_first()[q].name by {
            assert(dst.drop_first()[p] == dst[p + 1]);
            assert(dst.drop_first()[q] == dst[q + 1]);
        }
        lemma_delete_pass_unique(dst.drop_first(), src, videos);
        let d = delete_pass(dst, src, videos);
        let dr = delete_pass(dst.drop_first(), src, videos);
        if keep_entry(dst[0], src, videos) {
            assert forall|p: int, q: int|
                0 <= p < q < d.len() implies #[trigger] d[p].name != #[trigger] d[q].name by {
                assert(d[q] == dr[q - 1]);
                if p == 0 {
                    assert(d[0] == dst[0]);
                    lemma_delete_pass_names(dst.drop_first(), src, videos, dst[0].name);
                    if d[q].name == dst[0].name {
                        assert(has_entry_named(dr, dst[0].name));
                        let j = choose|j: int|
                            0 <= j < dst.drop_first().len() && dst.drop_first()[j].name
                                == dst[0].name;
                        assert(dst[j + 1] == dst.drop_first()[j]);
                        assert(false);
                    }
                } else {
                    assert(d[p] == dr[p - 1]);
                }
            }
        }
    }
}

// ---------------------------------------------------------------------------
// What the delete pass does to lookups
// ---------------------------------------------------------------------------
/// Over a duplicate-free destination, the delete pass filters each lookup by
/// `keep_entry`.
proof fn lemma_lookup_delete(
    dst: Seq<GhostEntry>,
    src: Seq<GhostEntry>,
    videos: bool,
    probe: Seq<char>,
)
    requires
        unique_names(dst),
    ensures
        lookup(delete_pass(dst, src, videos), probe) == match lookup(dst, probe) {
            Some(node) => if keep_entry(GhostEntry { name: probe, node: node }, src, videos) {
                Some(node)
            } else {
                None::<GhostNode>
            },
            None => None::<GhostNode>,
        },
    decreases dst,
{
    lemma_lookup_has(dst, probe);
    if dst.len() > 0 {
        assert forall|p: int, q: int|
            0 <= p < q < dst.drop_first().len() implies #[trigger] dst.drop_first()[p].name
            != #[trigger] dst.drop_first()[q].name by {
            assert(dst.drop_first()[p] == dst[p + 1]);
            assert(dst.drop_first()[q] == dst[q + 1]);
        }
        lemma_lookup_delete(dst.drop_first(), src, videos, probe);
        let d = delete_pass(dst, src, videos);
        let dr = delete_pass(dst.drop_first(), src, videos);
        if dst[0].name == probe {
            assert(GhostEntry { name: probe, node: dst[0].node } == dst[0]);
            lemma_lookup_has(dst.drop_first(), probe);
            if has_entry_named(dst.drop_first(), probe) {
                let j = choose|j: int|
                    0 <= j < dst.drop_first().len() && dst.drop_first()[j].name == probe;
                assert(dst[j + 1] == dst.drop_first()[j]);
                assert(false);
            }
            if keep_entry(dst[0], src, videos) {
                assert(d[0] == dst[0]);
                assert(d.drop_first() =~= dr);
            }
        } else {
            if keep_entry(dst[0], src, videos) {
                assert(d[0] == dst[0]);
                assert(d.drop_first() =~= dr);
            }
        }
    }
}

// ---------------------------------------------------------------------------
// Well-formedness, flattened
// ---------------------------------------------------------------------------
/// What `entries_wf` gives entry by entry.
proof fn lemma_wf_facts(entries: Seq<GhostEntry>)
    requires
        entries_wf(entries),
    ensures
        unique_names(entries),
        forall|i: int| 0 <= i < entries.len() ==> #[trigger] entries[i].name.len() > 0,
        forall|i: int| 0 <= i < entries.len() ==> node_wf(#[trigger] entries[i].node),
    decreases entries,
{
    if entries.len() > 0 {
        lemma_wf_facts(entries.drop_first());
        assert forall|i: int| 0 <= i < entries.len() implies #[trigger] entries[i].name.len()
            > 0 by {
            if i > 0 {
                assert(entries[i] == entries.drop_first()[i - 1]);
            }
        }
        assert forall|i: int| 0 <= i < entries.len() implies node_wf(
            #[trigger] entries[i].node,
        ) by {
            if i > 0 {
                assert(entries[i] == entries.drop_first()[i - 1]);
            }
        }
        assert forall|p: int, q: int|
            0 <= p < q < entries.len() implies #[trigger] entries[p].name
            != #[trigger] entries[q].name by {
            if p == 0 {
                assert(entries.drop_first()[q - 1] == entries[q]);
                assert(!has_entry_named(entries.drop_first(), entries[0].name));
            } else {
                assert(entries[p] == entries.drop_first()[p - 1]);
                assert(entries[q] == entries.drop_first()[q - 1]);
            }
        }
    }
}

// ---------------------------------------------------------------------------
// What a create pass from an empty destination produces, name by name
// ---------------------------------------------------------------------------
/// The file payload of a node; meaningless for a directory.
pub open spec fn file_data_of(node: GhostNode) -> GhostFileData {
    match node {
        GhostNode::File(data) => data,
        GhostNode::Directory(_) => arbitrary(),
    }
}

/// The destination name a relevant source file is created under.
pub open spec fn derived_name_of(entry: GhostEntry) -> Seq<char> {
    if name_is_image(entry.name) {
        encode_spec(entry.name, file_data_of(entry.node).timestamp)
    } else {
        entry.name
    }
}

/// Whether this source entry would create a destination file named `n`.
pub open spec fn derives(entry: GhostEntry, n: Seq<char>, videos: bool) -> bool {
    &&& entry.node is File
    &&& (name_is_image(entry.name) || (videos && name_is_video(entry.name)))
    &&& derived_name_of(entry) == n
}

/// The data of the first source entry that derives `n`.
pub open spec fn first_deriver(src: Seq<GhostEntry>, n: Seq<char>, videos: bool) -> Option<
    GhostFileData,
>
    decreases src,
{
    if src.len() == 0 {
        None
    } else if derives(src[0], n, videos) {
        Some(file_data_of(src[0].node))
    } else {
        first_deriver(src.drop_first(), n, videos)
    }
}

/// What the create pass from an empty destination leaves at each name: a
/// directory for each source directory, reconciled from nothing, else the
/// file created by the first source entry deriving the name.
pub open spec fn expected_create(p: Seq<GhostEntry>, n: Seq<char>, videos: bool) -> Option<
    GhostNode,
> {
    if has_dir_named(p, n) {
        Some(
            GhostNode::Directory(reconcile_spec(child_entries_at(p, n), Seq::empty(), videos)),
        )
    } else {
        match first_deriver(p, n, videos) {
            Some(data) => Some(GhostNode::File(data)),
            None => None,
        }
    }
}

/// What the whole fresh reconciliation leaves at each name: the create-pass
/// result, filtered by the delete pass.
pub open spec fn expected_fresh(src: Seq<GhostEntry>, n: Seq<char>, videos: bool) -> Option<
    GhostNode,
> {
    match expected_create(src, n, videos) {
        Some(node) => if keep_entry(GhostEntry { name: n, node: node }, src, videos) {
            Some(node)
        } else {
            None
        },
        None => None,
    }
}

proof fn lemma_first_deriver_push(
    p: Seq<GhostEntry>,
    e: GhostEntry,
    n: Seq<char>,
    videos: bool,
)
    ensures
        first_deriver(p.push(e), n, videos) == if first_deriver(p, n, videos) is Some {
            first_deriver(p, n, videos)
        } else if derives(e, n, videos) {
            Some(file_data_of(e.node))
        } else {
            None::<GhostFileData>
        },
    decreases p,
{
    let pushed = p.push(e);
    if p.len() == 0 {
        assert(pushed[0] == e);
        assert(pushed.drop_first() =~= Seq::<GhostEntry>::empty());
        assert(first_deriver(Seq::<GhostEntry>::empty(), n, videos) is None);
    } else {
        lemma_first_deriver_push(p.drop_first(), e, n, videos);
        assert(pushed[0] == p[0]);
        assert(pushed.drop_first() =~= p.drop_first().push(e));
    }
}

/// An entry that derives `n` guarantees a first deriver.
proof fn lemma_first_deriver_some(src: Seq<GhostEntry>, k: int, n: Seq<char>, videos: bool)
    requires
        0 <= k < src.len(),
        derives(src[k], n, videos),
    ensures
        first_deriver(src, n, videos) is Some,
    decreases src,
{
    if !derives(src[0], n, videos) {
        assert(src.drop_first()[k - 1] == src[k]);
        lemma_first_deriver_some(src.drop_first(), k - 1, n, videos);
    }
}

/// The first deriver is the earliest deriving entry.
proof fn lemma_first_deriver_first(src: Seq<GhostEntry>, k: int, n: Seq<char>, videos: bool)
    requires
        0 <= k < src.len(),
        derives(src[k], n, videos),
        forall|j: int| 0 <= j < k ==> !derives(#[trigger] src[j], n, videos),
    ensures
        first_deriver(src, n, videos) == Some(file_data_of(src[k].node)),
    decreases src,
{
    if k > 0 {
        assert(src.drop_first()[k - 1] == src[k]);
        assert forall|j: int| 0 <= j < k - 1 implies !derives(
            #[trigger] src.drop_first()[j],
            n,
            videos,
        ) by {
            assert(src.drop_first()[j] == src[j + 1]);
        }
        lemma_first_deriver_first(src.drop_first(), k - 1, n, videos);
    }
}

proof fn lemma_has_dir_push(p: Seq<GhostEntry>, e: GhostEntry, n: Seq<char>)
    ensures
        has_dir_named(p.push(e), n) == (has_dir_named(p, n) || (e.node is Directory && e.name
            == n)),
{
    let pushed = p.push(e);
    if has_dir_named(p, n) {
        let i = choose|i: int| 0 <= i < p.len() && p[i].name == n && p[i].node is Directory;
        assert(pushed[i] == p[i]);
        assert(has_dir_named(pushed, n));
    }
    if e.node is Directory && e.name == n {
        assert(pushed[p.len() as int] == e);
        assert(has_dir_named(pushed, n));
    }
    if has_dir_named(pushed, n) {
        let i = choose|i: int|
            0 <= i < pushed.len() && pushed[i].name == n && pushed[i].node is Directory;
        if i < p.len() {
            assert(pushed[i] == p[i]);
            assert(has_dir_named(p, n));
        } else {
            assert(pushed[i] == e);
        }
    }
}

/// A directory name is an entry name.
proof fn lemma_has_dir_entry(p: Seq<GhostEntry>, n: Seq<char>)
    ensures
        has_dir_named(p, n) ==> has_entry_named(p, n),
        has_file_named(p, n) ==> has_entry_named(p, n),
{
    if has_dir_named(p, n) {
        let i = choose|i: int| 0 <= i < p.len() && p[i].name == n && p[i].node is Directory;
        assert(has_entry_named(p, n));
    }
    if has_file_named(p, n) {
        let i = choose|i: int| 0 <= i < p.len() && p[i].name == n && p[i].node is File;
        assert(has_entry_named(p, n));
    }
}

/// No earlier source entry shares the name of the entry at `k`.
proof fn lemma_take_no_entry(src: Seq<GhostEntry>, k: int)
    requires
        unique_names(src),
        0 <= k < src.len(),
    ensures
        !has_entry_named(src.take(k), src[k].name),
        !has_dir_named(src.take(k), src[k].name),
{
    if has_entry_named(src.take(k), src[k].name) {
        let i = choose|i: int| 0 <= i < src.take(k).len() && src.take(k)[i].name == src[k].name;
        assert(src.take(k)[i] == src[i]);
        assert(false);
    }
    lemma_has_dir_entry(src.take(k), src[k].name);
}

/// Pushing a fresh directory entry moves `expected_create` as the create
/// pass does.
proof fn lemma_expected_push_dir(p: Seq<GhostEntry>, e: GhostEntry, n: Seq<char>, videos: bool)
    requires
        e.node is Directory,
        !has_entry_named(p, e.name),
    ensures
        n == e.name ==> expected_create(p.push(e), n, videos) == Some(
            GhostNode::Directory(
                reconcile_spec(
                    match e.node {
                        GhostNode::Directory(c) => c,
                        GhostNode::File(_) => Seq::empty(),
                    },
                    Seq::empty(),
                    videos,
                ),
            ),
        ),
        n != e.name ==> expected_create(p.push(e), n, videos) == expected_create(p, n, videos),
{
    let pushed = p.push(e);
    lemma_has_dir_push(p, e, n);
    lemma_lookup_push(p, e, n);
    lemma_lookup_has(p, n);
    lemma_first_deriver_push(p, e, n, videos);
    if n == e.name {
        lemma_lookup_has(p, e.name);
        assert(lookup(p, e.name) is None);
        assert(lookup(pushed, n) == Some(e.node));
        assert(has_dir_named(pushed, n));
    } else {
        if has_dir_named(p, n) {
            lemma_has_dir_entry(p, n);
            assert(lookup(pushed, n) == lookup(p, n));
        }
    }
}

/// Pushing a file entry moves `expected_create` as the create pass does.
proof fn lemma_expected_push_file(p: Seq<GhostEntry>, e: GhostEntry, n: Seq<char>, videos: bool)
    requires
        e.node is File,
    ensures
        expected_create(p.push(e), n, videos) == if derives(e, n, videos) && !has_dir_named(
            p,
            n,
        ) && first_deriver(p, n, videos) is None {
            Some(GhostNode::File(file_data_of(e.node)))
        } else {
            expected_create(p, n, videos)
        },
{
    let pushed = p.push(e);
    lemma_has_dir_push(p, e, n);
    lemma_lookup_push(p, e, n);
    lemma_lookup_has(p, n);
    lemma_first_deriver_push(p, e, n, videos);
    if has_dir_named(p, n) {
        lemma_has_dir_entry(p, n);
        assert(lookup(pushed, n) == lookup(p, n));
    }
}

/// The names present after an upsert.
proof fn lemma_upsert_names(
    dst: Seq<GhostEntry>,
    name: Seq<char>,
    child: Seq<GhostEntry>,
    m: Seq<char>,
)
    requires
        unique_names(dst),
    ensures
        has_entry_named(upsert_directory(dst, name, child), m) == (m == name || has_entry_named(
            dst,
            m,
        )),
{
    lemma_lookup_upsert(dst, name, child, m);
    lemma_lookup_has(upsert_directory(dst, name, child), m);
    lemma_lookup_has(dst, m);
}

/// An upsert keeps names pairwise distinct.
proof fn lemma_upsert_unique(dst: Seq<GhostEntry>, name: Seq<char>, child: Seq<GhostEntry>)
    requires
        unique_names(dst),
    ensures
        unique_names(upsert_directory(dst, name, child)),
    decreases dst,
{
    let new_entry = GhostEntry { name: name, node: GhostNode::Directory(child) };
    let out = upsert_directory(dst, name, child);
    if dst.len() == 0 {
        assert(out =~= seq![new_entry]);
    } else {
        assert forall|p: int, q: int|
            0 <= p < q < dst.drop_first().len() implies #[trigger] dst.drop_first()[p].name
            != #[trigger] dst.drop_first()[q].name by {
            assert(dst.drop_first()[p] == dst[p + 1]);
            assert(dst.drop_first()[q] == dst[q + 1]);
        }
        if dst[0].name == name {
            assert forall|j: int|
                0 <= j < dst.drop_first().len() implies #[trigger] dst.drop_first()[j].name
                != name by {
                assert(dst.drop_first()[j] == dst[j + 1]);
            }
            match dst[0].node {
                GhostNode::Directory(_) => {
                    assert(out == seq![new_entry] + dst.drop_first());
                    assert forall|p: int, q: int|
                        0 <= p < q < out.len() implies #[trigger] out[p].name
                        != #[trigger] out[q].name by {
                        if p == 0 {
                            assert(out[q] == dst.drop_first()[q - 1]);
                        } else {
                            assert(out[p] == dst.drop_first()[p - 1]);
                            assert(out[q] == dst.drop_first()[q - 1]);
                        }
                    }
                },
                GhostNode::File(_) => {
                    assert(out == dst.drop_first().push(new_entry));
                    assert forall|p: int, q: int|
                        0 <= p < q < out.len() implies #[trigger] out[p].name
                        != #[trigger] out[q].name by {
                        assert(out[p] == dst.drop_first()[p]);
                        if q < dst.drop_first().len() {
                            assert(out[q] == dst.drop_first()[q]);
                        } else {
                            assert(out[q] == new_entry);
                        }
                    }
                },
            }
        } else {
            lemma_upsert_unique(dst.drop_first(), name, child);
            let rec = upsert_directory(dst.drop_first(), name, child);
            assert(out == seq![dst[0]] + rec);
            assert forall|p: int, q: int|
                0 <= p < q < out.len() implies #[trigger] out[p].name
                != #[trigger] out[q].name by {
                if p == 0 {
                    assert(out[q] == rec[q - 1]);
                    assert(has_entry_named(rec, rec[q - 1].name));
                    lemma_upsert_names(dst.drop_first(), name, child, rec[q - 1].name);
                    if rec[q - 1].name == dst[0].name {
                        if has_entry_named(dst.drop_first(), dst[0].name) {
                            let j = choose|j: int|
                                0 <= j < dst.drop_first().len() && dst.drop_first()[j].name
                                    == dst[0].name;
                            assert(dst[j + 1] == dst.drop_first()[j]);
                            assert(false);
                        }
                        assert(false);
                    }
                } else {
                    assert(out[p] == rec[p - 1]);
                    assert(out[q] == rec[q - 1]);
                }
            }
        }
    }
}

// ---------------------------------------------------------------------------
// The run of a create pass from an empty destination
// ---------------------------------------------------------------------------
/// Walking the remaining source entries over an accumulator that is exactly
/// explained by the processed prefix produces the full characterization.
proof fn lemma_create_from_empty_char(
    src: Seq<GhostEntry>,
    k: int,
    acc: Seq<GhostEntry>,
    videos: bool,
)
    requires
        entries_wf(src),
        0 <= k <= src.len(),
        unique_names(acc),
        forall|n: Seq<char>| #[trigger] lookup(acc, n) == expected_create(src.take(k), n, videos),
    ensures
        unique_names(create_pass(src.skip(k), acc, videos)),
        forall|n: Seq<char>| #[trigger] lookup(create_pass(src.skip(k), acc, videos), n)
            == expected_create(src, n, videos),
    decreases src.len() - k,
{
    lemma_wf_facts(src);
    if k == src.len() {
        assert(src.skip(k) =~= Seq::<GhostEntry>::empty());
        assert(src.take(k) =~= src);
        assert(create_pass(Seq::<GhostEntry>::empty(), acc, videos) == acc);
    } else {
        let e = src[k];
        let acc2 = apply_source_entry(e, acc, videos);
        let prefix = src.take(k);
        let prefix2 = src.take(k + 1);
        assert(prefix2 =~= prefix.push(e));
        lemma_take_no_entry(src, k);
        match e.node {
            GhostNode::Directory(c) => {
                let rc = reconcile_spec(c, Seq::empty(), videos);
                // the accumulator holds no directory at this name, so the
                // child starts from nothing
                lemma_lookup_has(acc, e.name);
                assert(lookup(acc, e.name) == expected_create(prefix, e.name, videos));
                assert(!has_dir_named(prefix, e.name));
                assert(child_entries_at(acc, e.name) == Seq::<GhostEntry>::empty());
                assert(acc2 == upsert_directory(acc, e.name, rc));
                lemma_upsert_unique(acc, e.name, rc);
                assert forall|n: Seq<char>| #[trigger] lookup(acc2, n) == expected_create(
                    prefix2,
                    n,
                    videos,
                ) by {
                    lemma_lookup_upsert(acc, e.name, rc, n);
                    lemma_expected_push_dir(prefix, e, n, videos);
                }
            },
            GhostNode::File(data) => {
                if name_is_image(e.name) || (videos && name_is_video(e.name)) {
                    let target = derived_name_of(e);
                    assert(derives(e, target, videos));
                    assert(acc2 == create_file(acc, target, data)) by {
                        if name_is_image(e.name) {
                            assert(target == encode_spec(e.name, data.timestamp));
                        } else {
                            assert(target == e.name);
                        }
                    }
                    lemma_lookup_has(acc, target);
                    if has_entry_named(acc, target) {
                        assert(acc2 == acc);
                        assert forall|n: Seq<char>| #[trigger] lookup(acc2, n) == expected_create(
                            prefix2,
                            n,
                            videos,
                        ) by {
                            lemma_expected_push_file(prefix, e, n, videos);
                            if n == target {
                                assert(expected_create(prefix, n, videos) is Some);
                            }
                        }
                    } else {
                        let junk = GhostEntry { name: target, node: GhostNode::File(data) };
                        assert(acc2 == acc.push(junk));
                        assert forall|p: int, q: int|
                            0 <= p < q < acc2.len() implies #[trigger] acc2[p].name
                            != #[trigger] acc2[q].name by {
                            assert(acc2[p] == acc[p]);
                            if q < acc.len() {
                                assert(acc2[q] == acc[q]);
                            } else {
                                assert(acc2[q] == junk);
                                assert(!has_entry_named(acc, acc2[p].name) ==> acc2[p].name
                                    != target);
                            }
                        }
                        assert forall|n: Seq<char>| #[trigger] lookup(acc2, n) == expected_create(
                            prefix2,
                            n,
                            videos,
                        ) by {
                            lemma_lookup_push(acc, junk, n);
                            lemma_expected_push_file(prefix, e, n, videos);
                            if n == target {
                                assert(expected_create(prefix, n, videos) is None);
                                assert(!has_dir_named(prefix, n));
                                assert(first_deriver(prefix, n, videos) is None);
                            }
                        }
                    }
                } else {
                    assert(acc2 == acc);
                    assert forall|n: Seq<char>| #[trigger] lookup(acc2, n) == expected_create(
                        prefix2,
                        n,
                        videos,
                    ) by {
                        lemma_expected_push_file(prefix, e, n, videos);
                        assert(!derives(e, n, videos));
                    }
                }
            },
        }
        lemma_create_from_empty_char(src, k + 1, acc2, videos);
        assert(src.skip(k).drop_first() =~= src.skip(k + 1));
        assert(src.skip(k)[0] == e);
        assert(create_pass(src.skip(k), acc, videos) == create_pass(
            src.skip(k + 1),
            acc2,
            videos,
        ));
    }
}

/// The full characterization of a reconciliation against an empty
/// destination: pairwise-distinct names, every entry keep-worthy, and at
/// each name exactly what `expected_fresh` says.
proof fn lemma_fresh_reconcile_char(src: Seq<GhostEntry>, videos: bool)
    requires
        entries_wf(src),
    ensures
        unique_names(reconcile_spec(src, Seq::empty(), videos)),
        forall|i: int|
            0 <= i < reconcile_spec(src, Seq::empty(), videos).len() ==> keep_entry(
                #[trigger] reconcile_spec(src, Seq::empty(), videos)[i],
                src,
                videos,
            ),
        forall|n: Seq<char>| #[trigger] lookup(reconcile_spec(src, Seq::empty(), videos), n)
            == expected_fresh(src, n, videos),
{
    let c1 = create_pass(src, Seq::empty(), videos);
    let r = reconcile_spec(src, Seq::empty(), videos);
    assert forall|n: Seq<char>| #[trigger] lookup(Seq::<GhostEntry>::empty(), n)
        == expected_create(src.take(0), n, videos) by {
        assert(src.take(0) =~= Seq::<GhostEntry>::empty());
        assert(lookup(Seq::<GhostEntry>::empty(), n) is None);
        assert(!has_dir_named(Seq::<GhostEntry>::empty(), n));
        assert(first_deriver(Seq::<GhostEntry>::empty(), n, videos) is None);
    }
    lemma_create_from_empty_char(src, 0, Seq::empty(), videos);
    assert(src.skip(0) =~= src);
    assert(r == delete_pass(c1, src, videos));
    lemma_delete_pass_sound(c1, src, videos);
    lemma_delete_pass_unique(c1, src, videos);
    assert forall|n: Seq<char>| #[trigger] lookup(r, n) == expected_fresh(src, n, videos) by {
        lemma_lookup_delete(c1, src, videos, n);
    }
}

// ---------------------------------------------------------------------------
// A second run over a fresh result
// ---------------------------------------------------------------------------
/// A second create pass over a fresh reconciliation result leaves the
/// result untouched, at most appending files that its delete pass drops
/// again.
#[verifier::rlimit(60)]
proof fn lemma_second_create(
    src: Seq<GhostEntry>,
    k: int,
    acc: Seq<GhostEntry>,
    r: Seq<GhostEntry>,
    videos: bool,
)
    requires
        entries_wf(src),
        0 <= k <= src.len(),
        unique_names(r),
        forall|n: Seq<char>| #[trigger] lookup(r, n) == expected_fresh(src, n, videos),
        acc.len() >= r.len(),
        acc.take(r.len() as int) == r,
        unique_names(acc),
        forall|j: int|
            r.len() <= j < acc.len() ==> (#[trigger] acc[j]).node is File && !keep_entry(
                acc[j],
                src,
                videos,
            ),
    ensures
        create_pass(src.skip(k), acc, videos).len() >= r.len(),
        create_pass(src.skip(k), acc, videos).take(r.len() as int) == r,
        forall|j: int|
            r.len() <= j < create_pass(src.skip(k), acc, videos).len() ==> (
            #[trigger] create_pass(src.skip(k), acc, videos)[j]).node is File && !keep_entry(
                create_pass(src.skip(k), acc, videos)[j],
                src,
                videos,
            ),
    decreases entries_size(src), src.len() - k,
{
    lemma_wf_facts(src);
    if k == src.len() {
        assert(src.skip(k) =~= Seq::<GhostEntry>::empty());
        assert(create_pass(Seq::<GhostEntry>::empty(), acc, videos) == acc);
    } else {
        let e = src[k];
        let acc2 = apply_source_entry(e, acc, videos);
        let tail = acc.skip(r.len() as int);
        assert(acc =~= r + tail);
        match e.node {
            GhostNode::Directory(c) => {
                // the fresh result holds this directory, reconciled from
                // nothing; reconciling its child again changes nothing
                assert(has_dir_named(src, e.name));
                lemma_lookup_first(src, e.name, k);
                assert(child_entries_at(src, e.name) == c);
                let rc = reconcile_spec(c, Seq::empty(), videos);
                assert(keep_entry(
                    GhostEntry { name: e.name, node: GhostNode::Directory(rc) },
                    src,
                    videos,
                ));
                assert(lookup(r, e.name) == Some(GhostNode::Directory(rc)));
                lemma_lookup_concat(r, tail, e.name);
                assert(lookup(acc, e.name) == Some(GhostNode::Directory(rc)));
                assert(child_entries_at(acc, e.name) == rc);
                assert(entries_wf(c)) by {
                    assert(node_wf(src[k].node));
                }
                lemma_entries_size_bound(src);
                lemma_reconcile_idempotent(c, videos);
                assert(reconcile_spec(c, rc, videos) == rc);
                assert(acc2 == upsert_directory(acc, e.name, rc));
                lemma_lookup_index(acc, e.name);
                let i = choose|i: int|
                    {
                        &&& 0 <= i < acc.len()
                        &&& #[trigger] acc[i].name == e.name
                        &&& acc[i].node == lookup(acc, e.name).unwrap()
                        &&& forall|p: int| 0 <= p < i ==> #[trigger] acc[p].name != e.name
                    };
                lemma_upsert_found_dir(acc, e.name, rc, i);
                assert(acc[i] == GhostEntry { name: e.name, node: GhostNode::Directory(rc) });
                assert(acc2 =~= acc.update(i, acc[i]));
                assert(acc2 =~= acc);
            },
            GhostNode::File(data) => {
                if name_is_image(e.name) || (videos && name_is_video(e.name)) {
                    let target = derived_name_of(e);
                    assert(derives(e, target, videos));
                    assert(acc2 == create_file(acc, target, data)) by {
                        if name_is_image(e.name) {
                            assert(target == encode_spec(e.name, data.timestamp));
                        } else {
                            assert(target == e.name);
                        }
                    }
                    if !has_entry_named(acc, target) {
                        let junk = GhostEntry { name: target, node: GhostNode::File(data) };
                        assert(acc2 == acc.push(junk));
                        // the first run already decided against this name
                        assert(!has_entry_named(r, target)) by {
                            if has_entry_named(r, target) {
                                let w = choose|w: int|
                                    0 <= w < r.len() && r[w].name == target;
                                assert(acc[w] == r[w]);
                                assert(has_entry_named(acc, target));
                            }
                        }
                        lemma_lookup_has(r, target);
                        assert(expected_fresh(src, target, videos) is None);
                        lemma_first_deriver_some(src, k, target, videos);
                        assert(!keep_destination_file(target, src, videos)) by {
                            if has_dir_named(src, target) {
                                assert(keep_entry(
                                    GhostEntry {
                                        name: target,
                                        node: expected_create(src, target, videos).unwrap(),
                                    },
                                    src,
                                    videos,
                                ));
                                assert(false);
                            }
                        }
                        assert(!keep_entry(junk, src, videos));
                        assert(acc2.take(r.len() as int) =~= r);
                        assert forall|p: int, q: int|
                            0 <= p < q < acc2.len() implies #[trigger] acc2[p].name
                            != #[trigger] acc2[q].name by {
                            assert(acc2[p] == acc[p]);
                            if q < acc.len() {
                                assert(acc2[q] == acc[q]);
                            } else {
                                assert(acc2[q] == junk);
                                if acc[p].name == target {
                                    assert(has_entry_named(acc, target));
                                    assert(false);
                                }
                            }
                        }
                    }
                }
            },
        }
        lemma_second_create(src, k + 1, acc2, r, videos);
        assert(src.skip(k).drop_first() =~= src.skip(k + 1));
        assert(src.skip(k)[0] == e);
        assert(create_pass(src.skip(k), acc, videos) == create_pass(
            src.skip(k + 1),
            acc2,
            videos,
        ));
    }
}

/// Law: idempotence. Reconciling a fixed source tree into the destination
/// that a first reconciliation against an empty destination produced makes
/// no further change.
pub proof fn lemma_reconcile_idempotent(src: Seq<GhostEntry>, videos: bool)
    requires
        entries_wf(src),
    ensures
        reconcile_spec(src, reconcile_spec(src, Seq::empty(), videos), videos) == reconcile_spec(
            src,
            Seq::empty(),
            videos,
        ),
    decreases entries_size(src), src.len() + 1,
{
    let r = reconcile_spec(src, Seq::empty(), videos);
    lemma_fresh_reconcile_char(src, videos);
    assert(r.take(r.len() as int) =~= r);
    lemma_second_create(src, 0, r, r, videos);
    assert(src.skip(0) =~= src);
    let out = create_pass(src, r, videos);
    let tail = out.skip(r.len() as int);
    assert(out =~= r + tail);
    assert forall|j: int| 0 <= j < tail.len() implies !keep_entry(
        #[trigger] tail[j],
        src,
        videos,
    ) by {
        assert(tail[j] == out[j + r.len()]);
    }
    lemma_delete_pass_concat(r, tail, src, videos);
    lemma_delete_pass_keeps_all(r, src, videos);
    lemma_delete_pass_drops_all(tail, src, videos);
    assert(reconcile_spec(src, r, videos) == delete_pass(out, src, videos));
    assert(delete_pass(out, src, videos) =~= r);
}

/// A recognized video extension is never the derived-image extension.
proof fn lemma_video_not_destination_image(ext: Seq<char>)
    requires
        crate::file_names::is_video_extension(ext),
    ensures
        !crate::file_names::is_destination_image_extension(ext),
{
    if crate::file_names::is_destination_image_extension(ext) {
        assert(crate::file_names::lower_code(ext[0]) == crate::file_names::lower_code(
            seq!['j', 'p', 'g'][0],
        ));
        assert(seq!['j', 'p', 'g'][0] == 'j');
        if crate::file_names::matches_ignore_case(ext, seq!['m', 'o', 'v']) {
            assert(crate::file_names::lower_code(ext[0]) == crate::file_names::lower_code(
                seq!['m', 'o', 'v'][0],
            ));
        } else if crate::file_names::matches_ignore_case(ext, seq!['a', 'v', 'i']) {
            assert(crate::file_names::lower_code(ext[0]) == crate::file_names::lower_code(
                seq!['a', 'v', 'i'][0],
            ));
        } else if crate::file_names::matches_ignore_case(ext, seq!['m', 'p', '4']) {
            assert(crate::file_names::lower_code(ext[0]) == crate::file_names::lower_code(
                seq!['m', 'p', '4'][0],
            ));
        } else if crate::file_names::matches_ignore_case(ext, seq!['m', '4', 'v']) {
            assert(crate::file_names::lower_code(ext[0]) == crate::file_names::lower_code(
                seq!['m', '4', 'v'][0],
            ));
        } else if crate::file_names::matches_ignore_case(ext, seq!['m', 'p', 'g']) {
            assert(crate::file_names::lower_code(ext[0]) == crate::file_names::lower_code(
                seq!['m', 'p', 'g'][0],
            ));
        } else {
            assert(crate::file_names::matches_ignore_case(ext, seq!['m', 'p', 'e', 'g']));
            assert(crate::file_names::lower_code(ext[0]) == crate::file_names::lower_code(
                seq!['m', 'p', 'e', 'g'][0],
            ));
        }
        assert(false);
    }
}

// ---------------------------------------------------------------------------
// Law: completeness of a fresh reconciliation
// ---------------------------------------------------------------------------
/// Law: after reconciling against an empty destination, every source entry
/// has its counterpart. A source directory always has a same-named
/// destination directory. A source image has its derived image, provided
/// its derived name decodes back to the source name (`lemma_decode_encode`
/// delimits when that holds) and no source directory occupies the derived
/// name. A source video, when videos are included, has its same-named copy,
/// unless a source directory occupies the name.
pub proof fn lemma_reconcile_complete(src: Seq<GhostEntry>, videos: bool, k: int)
    requires
        entries_wf(src),
        0 <= k < src.len(),
    ensures
        src[k].node is Directory ==> has_dir_named(
            reconcile_spec(src, Seq::empty(), videos),
            src[k].name,
        ),
        (src[k].node is File && name_is_image(src[k].name) && decode_spec(
            derived_name_of(src[k]),
        ) == Some(src[k].name) && !has_dir_named(src, derived_name_of(src[k])))
            ==> has_file_named(
            reconcile_spec(src, Seq::empty(), videos),
            derived_name_of(src[k]),
        ),
        (src[k].node is File && !name_is_image(src[k].name) && name_is_video(src[k].name)
            && videos && !has_dir_named(src, src[k].name)) ==> has_file_named(
            reconcile_spec(src, Seq::empty(), videos),
            src[k].name,
        ),
{
    lemma_wf_facts(src);
    lemma_fresh_reconcile_char(src, videos);
    let r = reconcile_spec(src, Seq::empty(), videos);
    let e = src[k];
    match e.node {
        GhostNode::Directory(_) => {
            assert(has_dir_named(src, e.name));
            assert(expected_create(src, e.name, videos) matches Some(node) && node is Directory);
            assert(keep_entry(
                GhostEntry {
                    name: e.name,
                    node: expected_create(src, e.name, videos).unwrap(),
                },
                src,
                videos,
            ));
            assert(lookup(r, e.name) is Some);
            lemma_lookup_index(r, e.name);
            let i = choose|i: int|
                {
                    &&& 0 <= i < r.len()
                    &&& #[trigger] r[i].name == e.name
                    &&& r[i].node == lookup(r, e.name).unwrap()
                    &&& forall|p: int| 0 <= p < i ==> #[trigger] r[p].name != e.name
                };
            assert(has_dir_named(r, e.name));
        },
        GhostNode::File(data) => {
            if name_is_image(e.name) && decode_spec(derived_name_of(e)) == Some(e.name)
                && !has_dir_named(src, derived_name_of(e)) {
                let derived = derived_name_of(e);
                assert(derives(e, derived, videos));
                lemma_first_deriver_some(src, k, derived, videos);
                assert(expected_create(src, derived, videos) matches Some(node)
                    && node is File);
                assert(e.name.len() > 0);
                lemma_encode_extension(e.name, data.timestamp);
                assert(derived == encode_spec(e.name, data.timestamp));
                assert(name_is_destination_image(derived)) by {
                    let jpg = seq!['j', 'p', 'g'];
                    assert(crate::file_names::extension_of_spec(derived) == Some(jpg));
                    assert(crate::file_names::matches_ignore_case(jpg, jpg));
                }
                assert(has_file_named(src, e.name));
                assert(keep_destination_file(derived, src, videos));
                assert(lookup(r, derived) is Some);
                lemma_lookup_index(r, derived);
                let i = choose|i: int|
                    {
                        &&& 0 <= i < r.len()
                        &&& #[trigger] r[i].name == derived
                        &&& r[i].node == lookup(r, derived).unwrap()
                        &&& forall|p: int| 0 <= p < i ==> #[trigger] r[p].name != derived
                    };
                assert(has_file_named(r, derived));
            }
            if !name_is_image(e.name) && name_is_video(e.name) && videos && !has_dir_named(
                src,
                e.name,
            ) {
                assert(derives(e, e.name, videos));
                assert(derived_name_of(e) == e.name);
                lemma_first_deriver_some(src, k, e.name, videos);
                assert(expected_create(src, e.name, videos) matches Some(node) && node is File);
                assert(!name_is_destination_image(e.name)) by {
                    if name_is_destination_image(e.name) {
                        let ext = crate::file_names::extension_of_spec(e.name).unwrap();
                        lemma_video_not_destination_image(ext);
                    }
                }
                assert(has_file_named(src, e.name));
                assert(keep_destination_file(e.name, src, videos));
                assert(lookup(r, e.name) is Some);
                lemma_lookup_index(r, e.name);
                let i = choose|i: int|
                    {
                        &&& 0 <= i < r.len()
                        &&& #[trigger] r[i].name == e.name
                        &&& r[i].node == lookup(r, e.name).unwrap()
                        &&& forall|p: int| 0 <= p < i ==> #[trigger] r[p].name != e.name
                    };
                assert(has_file_named(r, e.name));
            }
        },
    }
}

// ---------------------------------------------------------------------------
// Law: recreation of a deleted derived file
// ---------------------------------------------------------------------------
/// A delete pass over files of which exactly one is keep-worthy keeps
/// exactly that one.
proof fn lemma_delete_single(
    tail: Seq<GhostEntry>,
    src: Seq<GhostEntry>,
    videos: bool,
    p: int,
    re: GhostEntry,
)
    requires
        0 <= p < tail.len(),
        tail[p] == re,
        keep_entry(re, src, videos),
        forall|q: int| 0 <= q < tail.len() && q != p ==> !keep_entry(#[trigger] tail[q], src, videos),
    ensures
        delete_pass(tail, src, videos) == seq![re],
    decreases tail,
{
    if p == 0 {
        assert forall|q: int|
            0 <= q < tail.drop_first().len() implies !keep_entry(
            #[trigger] tail.drop_first()[q],
            src,
            videos,
        ) by {
            assert(tail.drop_first()[q] == tail[q + 1]);
        }
        lemma_delete_pass_drops_all(tail.drop_first(), src, videos);
        assert(delete_pass(tail, src, videos) =~= seq![re]);
    } else {
        assert(tail.drop_first()[p - 1] == tail[p]);
        assert forall|q: int|
            0 <= q < tail.drop_first().len() && q != p - 1 implies !keep_entry(
            #[trigger] tail.drop_first()[q],
            src,
            videos,
        ) by {
            assert(tail.drop_first()[q] == tail[q + 1]);
        }
        lemma_delete_single(tail.drop_first(), src, videos, p - 1, re);
        assert(!keep_entry(tail[0], src, videos));
    }
}

/// Rebuilding over a fresh result from which one derived file was removed:
/// the create pass restores that file — with the data the first deriving
/// source entry carries — and otherwise at most appends files that the
/// delete pass drops again.
#[verifier::rlimit(60)]
proof fn lemma_recreate_create(
    src: Seq<GhostEntry>,
    k: int,
    acc: Seq<GhostEntry>,
    r2: Seq<GhostEntry>,
    removed: GhostEntry,
    videos: bool,
)
    requires
        entries_wf(src),
        0 <= k <= src.len(),
        removed.node is File,
        keep_entry(removed, src, videos),
        unique_names(r2),
        !has_entry_named(r2, removed.name),
        forall|n: Seq<char>| #[trigger] lookup(r2, n) == if n == removed.name {
            None::<GhostNode>
        } else {
            expected_fresh(src, n, videos)
        },
        expected_fresh(src, removed.name, videos) == Some(removed.node),
        acc.len() >= r2.len(),
        acc.take(r2.len() as int) == r2,
        unique_names(acc),
        forall|j: int|
            r2.len() <= j < acc.len() ==> (#[trigger] acc[j]).node is File && (!keep_entry(
                acc[j],
                src,
                videos,
            ) || acc[j] == removed),
        has_entry_named(acc, removed.name) <==> first_deriver(
            src.take(k),
            removed.name,
            videos,
        ) is Some,
    ensures
        create_pass(src.skip(k), acc, videos).len() >= r2.len(),
        create_pass(src.skip(k), acc, videos).take(r2.len() as int) == r2,
        unique_names(create_pass(src.skip(k), acc, videos)),
        forall|j: int|
            r2.len() <= j < create_pass(src.skip(k), acc, videos).len() ==> (
            #[trigger] create_pass(src.skip(k), acc, videos)[j]).node is File && (!keep_entry(
                create_pass(src.skip(k), acc, videos)[j],
                src,
                videos,
            ) || create_pass(src.skip(k), acc, videos)[j] == removed),
        has_entry_named(create_pass(src.skip(k), acc, videos), removed.name) <==> first_deriver(
            src,
            removed.name,
            videos,
        ) is Some,
    decreases src.len() - k,
{
    lemma_wf_facts(src);
    if k == src.len() {
        assert(src.skip(k) =~= Seq::<GhostEntry>::empty());
        assert(src.take(k) =~= src);
        assert(create_pass(Seq::<GhostEntry>::empty(), acc, videos) == acc);
    } else {
        let e = src[k];
        let acc2 = apply_source_entry(e, acc, videos);
        let tail = acc.skip(r2.len() as int);
        assert(acc =~= r2 + tail);
        let prefix = src.take(k);
        let prefix2 = src.take(k + 1);
        assert(prefix2 =~= prefix.push(e));
        // no source directory carries the removed name
        assert(!has_dir_named(src, removed.name)) by {
            if has_dir_named(src, removed.name) {
                assert(expected_create(src, removed.name, videos) matches Some(node)
                    && node is Directory);
                assert(keep_entry(
                    GhostEntry {
                        name: removed.name,
                        node: expected_create(src, removed.name, videos).unwrap(),
                    },
                    src,
                    videos,
                ));
            }
        }
        match e.node {
            GhostNode::Directory(c) => {
                assert(has_dir_named(src, e.name));
                assert(e.name != removed.name);
                lemma_lookup_first(src, e.name, k);
                assert(child_entries_at(src, e.name) == c);
                let rc = reconcile_spec(c, Seq::empty(), videos);
                assert(keep_entry(
                    GhostEntry { name: e.name, node: GhostNode::Directory(rc) },
                    src,
                    videos,
                ));
                assert(lookup(r2, e.name) == Some(GhostNode::Directory(rc)));
                lemma_lookup_concat(r2, tail, e.name);
                assert(lookup(acc, e.name) == Some(GhostNode::Directory(rc)));
                assert(child_entries_at(acc, e.name) == rc);
                assert(entries_wf(c)) by {
                    assert(node_wf(src[k].node));
                }
                lemma_reconcile_idempotent(c, videos);
                assert(reconcile_spec(c, rc, videos) == rc);
                assert(acc2 == upsert_directory(acc, e.name, rc));
                lemma_lookup_index(acc, e.name);
                let i = choose|i: int|
                    {
                        &&& 0 <= i < acc.len()
                        &&& #[trigger] acc[i].name == e.name
                        &&& acc[i].node == lookup(acc, e.name).unwrap()
                        &&& forall|p: int| 0 <= p < i ==> #[trigger] acc[p].name != e.name
                    };
                lemma_upsert_found_dir(acc, e.name, rc, i);
                assert(acc[i] == GhostEntry { name: e.name, node: GhostNode::Directory(rc) });
                assert(acc2 =~= acc.update(i, acc[i]));
                assert(acc2 =~= acc);
                lemma_first_deriver_push(prefix, e, removed.name, videos);
            },
            GhostNode::File(data) => {
                if name_is_image(e.name) || (videos && name_is_video(e.name)) {
                    let target = derived_name_of(e);
                    assert(derives(e, target, videos));
                    assert(acc2 == create_file(acc, target, data)) by {
                        if name_is_image(e.name) {
                            assert(target == encode_spec(e.name, data.timestamp));
                        } else {
                            assert(target == e.name);
                        }
                    }
                    lemma_first_deriver_push(prefix, e, removed.name, videos);
                    if !has_entry_named(acc, target) {
                        let fresh = GhostEntry { name: target, node: GhostNode::File(data) };
                        assert(acc2 == acc.push(fresh));
                        lemma_lookup_has(acc, removed.name);
                        lemma_lookup_has(acc2, removed.name);
                        lemma_lookup_push(acc, fresh, removed.name);
                        assert(has_entry_named(acc2, removed.name) == (has_entry_named(
                            acc,
                            removed.name,
                        ) || target == removed.name));
                        assert(!has_entry_named(r2, target)) by {
                            if has_entry_named(r2, target) {
                                let w = choose|w: int|
                                    0 <= w < r2.len() && r2[w].name == target;
                                assert(acc[w] == r2[w]);
                                assert(has_entry_named(acc, target));
                            }
                        }
                        if target == removed.name {
                            // this is the first deriving entry, so the
                            // recreated file equals the removed one
                            assert(first_deriver(prefix, target, videos) is None);
                            assert forall|j: int| 0 <= j < k implies !derives(
                                #[trigger] src[j],
                                target,
                                videos,
                            ) by {
                                if derives(src[j], target, videos) {
                                    assert(prefix[j] == src[j]);
                                    lemma_first_deriver_some(prefix, j, target, videos);
                                }
                            }
                            lemma_first_deriver_first(src, k, target, videos);
                            assert(expected_create(src, target, videos) == Some(
                                GhostNode::File(data),
                            ));
                            assert(removed.node == GhostNode::File(data));
                            assert(fresh == removed);
                        } else {
                            lemma_lookup_has(r2, target);
                            assert(expected_fresh(src, target, videos) is None);
                            lemma_first_deriver_some(src, k, target, videos);
                            assert(!keep_destination_file(target, src, videos)) by {
                                if has_dir_named(src, target) {
                                    assert(keep_entry(
                                        GhostEntry {
                                            name: target,
                                            node: expected_create(src, target, videos).unwrap(),
                                        },
                                        src,
                                        videos,
                                    ));
                                    assert(false);
                                }
                            }
                            assert(!keep_entry(fresh, src, videos));
                        }
                        assert(acc2.take(r2.len() as int) =~= r2);
                        assert forall|p: int, q: int|
                            0 <= p < q < acc2.len() implies #[trigger] acc2[p].name
                            != #[trigger] acc2[q].name by {
                            assert(acc2[p] == acc[p]);
                            if q < acc.len() {
                                assert(acc2[q] == acc[q]);
                            } else {
                                assert(acc2[q] == fresh);
                                if acc[p].name == target {
                                    assert(has_entry_named(acc, target));
                                    assert(false);
                                }
                            }
                        }
                    } else {
                        if target == removed.name {
                            assert(first_deriver(prefix2, removed.name, videos) is Some);
                        }
                    }
                } else {
                    assert(acc2 == acc);
                    lemma_first_deriver_push(prefix, e, removed.name, videos);
                }
            },
        }
        lemma_recreate_create(src, k + 1, acc2, r2, removed, videos);
        assert(src.skip(k).drop_first() =~= src.skip(k + 1));
        assert(src.skip(k)[0] == e);
        assert(create_pass(src.skip(k), acc, videos) == create_pass(
            src.skip(k + 1),
            acc2,
            videos,
        ));
    }
}

/// Law: recreation. Deleting one derived file from the destination that a
/// reconciliation against an empty destination produced, and reconciling
/// again, recreates exactly that file — same name, same content — and
/// changes nothing else.
pub proof fn lemma_reconcile_recreates(src: Seq<GhostEntry>, videos: bool, i: int)
    requires
        entries_wf(src),
        0 <= i < reconcile_spec(src, Seq::empty(), videos).len(),
        reconcile_spec(src, Seq::empty(), videos)[i].node is File,
    ensures
        reconcile_spec(
            src,
            reconcile_spec(src, Seq::empty(), videos).remove(i),
            videos,
        ) == reconcile_spec(src, Seq::empty(), videos).remove(i).push(
            reconcile_spec(src, Seq::empty(), videos)[i],
        ),
{
    let r = reconcile_spec(src, Seq::empty(), videos);
    let removed = r[i];
    let r2 = r.remove(i);
    lemma_fresh_reconcile_char(src, videos);
    assert(keep_entry(removed, src, videos));
    assert forall|p: int, q: int|
        0 <= p < q < r2.len() implies #[trigger] r2[p].name != #[trigger] r2[q].name by {
        let pp = if p < i {
            p
        } else {
            p + 1
        };
        let qq = if q < i {
            q
        } else {
            q + 1
        };
        assert(r2[p] == r[pp]);
        assert(r2[q] == r[qq]);
    }
    assert(!has_entry_named(r2, removed.name)) by {
        if has_entry_named(r2, removed.name) {
            let w = choose|w: int| 0 <= w < r2.len() && r2[w].name == removed.name;
            let ww = if w < i {
                w
            } else {
                w + 1
            };
            assert(r2[w] == r[ww]);
            assert(false);
        }
    }
    lemma_lookup_first(r, removed.name, i);
    assert(lookup(r, removed.name) == Some(removed.node));
    assert(expected_fresh(src, removed.name, videos) == Some(removed.node));
    assert forall|n: Seq<char>| #[trigger] lookup(r2, n) == if n == removed.name {
        None::<GhostNode>
    } else {
        expected_fresh(src, n, videos)
    } by {
        lemma_lookup_remove(r, i, n);
    }
    assert(r2.take(r2.len() as int) =~= r2);
    assert(first_deriver(src.take(0), removed.name, videos) is None) by {
        assert(src.take(0) =~= Seq::<GhostEntry>::empty());
    }
    lemma_recreate_create(src, 0, r2, r2, removed, videos);
    assert(src.skip(0) =~= src);
    let out = create_pass(src, r2, videos);
    let tail = out.skip(r2.len() as int);
    assert(out =~= r2 + tail);
    // the removed name reappears, necessarily in the tail, necessarily as
    // the removed entry itself
    assert(first_deriver(src, removed.name, videos) is Some) by {
        assert(expected_create(src, removed.name, videos) == Some(removed.node));
        assert(!has_dir_named(src, removed.name)) by {
            if has_dir_named(src, removed.name) {
                assert(expected_create(src, removed.name, videos) matches Some(node)
                    && node is Directory);
            }
        }
    }
    assert(has_entry_named(out, removed.name));
    let w = choose|w: int| 0 <= w < out.len() && out[w].name == removed.name;
    assert(w >= r2.len()) by {
        if w < r2.len() {
            assert(out[w] == r2[w]);
            assert(has_entry_named(r2, removed.name));
        }
    }
    assert(out[w] == removed) by {
        assert(out[w].node is File && (!keep_entry(out[w], src, videos) || out[w] == removed));
        if out[w] != removed {
            assert(keep_entry(out[w], src, videos) == keep_destination_file(
                removed.name,
                src,
                videos,
            ));
            assert(keep_entry(removed, src, videos) == keep_destination_file(
                removed.name,
                src,
                videos,
            ));
            assert(false);
        }
    }
    let p = w - r2.len();
    assert(tail[p] == out[w]);
    assert forall|q: int|
        0 <= q < tail.len() && q != p implies !keep_entry(#[trigger] tail[q], src, videos) by {
        assert(tail[q] == out[q + r2.len()]);
        if keep_entry(tail[q], src, videos) {
            assert(tail[q] == removed);
            assert(out[q + r2.len()].name == out[w].name);
            assert(false);
        }
    }
    lemma_delete_single(tail, src, videos, p, removed);
    assert forall|j: int| 0 <= j < r2.len() implies keep_entry(#[trigger] r2[j], src, videos) by {
        let jj = if j < i {
            j
        } else {
            j + 1
        };
        assert(r2[j] == r[jj]);
    }
    lemma_delete_pass_concat(r2, tail, src, videos);
    lemma_delete_pass_keeps_all(r2, src, videos);
    assert(reconcile_spec(src, r2, videos) == delete_pass(out, src, videos));
    assert(delete_pass(out, src, videos) =~= r2.push(removed));
}

// ---------------------------------------------------------------------------
// Law: orphan removal (and one half of the synchronization invariant)
// ---------------------------------------------------------------------------
/// Law: after a reconciliation, every destination entry has a valid
/// corresponding source entry — a directory only persists beside a
/// same-named source directory, a derived image only when its name decodes
/// to an existing source file, a video only when videos are included and a
/// same-named source file exists, and nothing else persists. In particular,
/// every orphan is removed.
pub proof fn lemma_reconcile_orphans_removed(
    src: Seq<GhostEntry>,
    dst: Seq<GhostEntry>,
    videos: bool,
)
    ensures
        forall|i: int|
            0 <= i < reconcile_spec(src, dst, videos).len() ==> keep_entry(
                #[trigger] reconcile_spec(src, dst, videos)[i],
                src,
                videos,
            ),
{
    lemma_delete_pass_sound(create_pass(src, dst, videos), src, videos);
}

} // verus!
