//! What the storage engine asks of the disk.
//!
//! The engine changes its files by returning actions, which the embedding
//! program carries out in order.

use vstd::prelude::*;
use crate::storage::manifest::{EntryView, Manifest};

verus! {

/// A change to the files of the engine.
#[derive(Debug)]
pub enum DiskAction {
    /// Store a file.
    WriteFile { name: String, data: Vec<u8> },
    /// Delete a file.
    RemoveFile { name: String },
    /// Append to the log and make it last.
    AppendWal { data: Vec<u8> },
    /// Start the log anew.
    ResetWal,
    /// Store the manifest.
    SaveManifest { manifest: Manifest },
}

/// What an action is.
pub enum ActionView {
    WriteFile(Seq<char>, Seq<u8>),
    RemoveFile(Seq<char>),
    AppendWal(Seq<u8>),
    ResetWal,
    SaveManifest(Seq<Seq<EntryView>>, u64),
}

impl View for DiskAction {
    type V = ActionView;

    open spec fn view(&self) -> ActionView {
        match self {
            DiskAction::WriteFile { name, data } => ActionView::WriteFile(name@, data@),
            DiskAction::RemoveFile { name } => ActionView::RemoveFile(name@),
            DiskAction::AppendWal { data } => ActionView::AppendWal(data@),
            DiskAction::ResetWal => ActionView::ResetWal,
            DiskAction::SaveManifest { manifest } => ActionView::SaveManifest(
                manifest@,
                manifest.next_sst_id,
            ),
        }
    }
}

pub open spec fn actions_view(actions: Seq<DiskAction>) -> Seq<ActionView> {
    Seq::new(actions.len(), |i: int| actions[i]@)
}

/// What is on the disk: table files by name, the log, and the manifest once it
/// was stored.
#[verifier::ext_equal]
pub struct DiskView {
    pub files: Map<Seq<char>, Seq<u8>>,
    pub wal: Seq<u8>,
    pub manifest: Option<(Seq<Seq<EntryView>>, u64)>,
}

/// The disk after an action.
pub open spec fn apply(d: DiskView, a: ActionView) -> DiskView {
    match a {
        ActionView::WriteFile(name, data) => DiskView { files: d.files.insert(name, data), ..d },
        ActionView::RemoveFile(name) => DiskView { files: d.files.remove(name), ..d },
        ActionView::AppendWal(data) => DiskView { wal: d.wal + data, ..d },
        ActionView::ResetWal => DiskView { wal: Seq::empty(), ..d },
        ActionView::SaveManifest(levels, next_id) => DiskView {
            manifest: Some((levels, next_id)),
            ..d
        },
    }
}

/// The disk after a row of actions.
pub open spec fn apply_all(d: DiskView, actions: Seq<ActionView>) -> DiskView
    decreases actions.len(),
{
    if actions.len() == 0 {
        d
    } else {
        apply(apply_all(d, actions.drop_last()), actions.last())
    }
}

/// One more action comes last.
pub proof fn lemma_apply_push(d: DiskView, actions: Seq<ActionView>, a: ActionView)
    ensures
        apply_all(d, actions.push(a)) == apply(apply_all(d, actions), a),
{
    assert(actions.push(a).drop_last() =~= actions);
}

/// Actions in two parts are carried out one part after the other.
pub proof fn lemma_apply_parts(d: DiskView, a: Seq<ActionView>, b: Seq<ActionView>)
    ensures
        apply_all(d, a + b) == apply_all(apply_all(d, a), b),
    decreases b.len(),
{
    if b.len() == 0 {
        assert(a + b =~= a);
    } else {
        lemma_apply_parts(d, a, b.drop_last());
        assert((a + b).drop_last() =~= a + b.drop_last());
    }
}

/// The actions that delete files.
pub open spec fn removals(names: Seq<Seq<char>>) -> Seq<ActionView> {
    Seq::new(names.len(), |i: int| ActionView::RemoveFile(names[i]))
}

/// Deleting files touches nothing but them.
pub proof fn lemma_removals(d: DiskView, names: Seq<Seq<char>>)
    ensures
        apply_all(d, removals(names)).wal == d.wal,
        apply_all(d, removals(names)).manifest == d.manifest,
        forall|n: Seq<char>| #[trigger]
            d.files.contains_key(n) && !names.contains(n) ==> apply_all(
                d,
                removals(names),
            ).files.contains_key(n) && apply_all(d, removals(names)).files[n] == d.files[n],
    decreases names.len(),
{
    if names.len() > 0 {
        let rest = names.drop_last();
        lemma_removals(d, rest);
        assert(removals(names).drop_last() =~= removals(rest));
        assert forall|n: Seq<char>| #[trigger]
            d.files.contains_key(n) && !names.contains(n) implies apply_all(
            d,
            removals(names),
        ).files.contains_key(n) && apply_all(d, removals(names)).files[n] == d.files[n] by {
            assert(!rest.contains(n)) by {
                if rest.contains(n) {
                    assert(names[rest.index_of(n)] == n);
                }
            }
            assert(names[names.len() - 1] != n);
        }
    }
}

} // verus!
