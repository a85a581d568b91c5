//! Per-node state: resident bookkeeping, in-flight loading state, and the
//! CPU-visible snapshot of a loaded node.

use vstd::prelude::*;

use crate::coordinate::{AtlasIndex, AttachmentHandle, AttachmentIndex, NodeCoordinate};

verus! {

/// Whether a resident node is still loading or ready to be used.
#[derive(Clone, Copy, PartialEq, Eq, Structural, Debug)]
pub enum LoadingState {
    /// The node is loading and can not be used yet.
    Loading,
    /// The node is loaded and can be used.
    Loaded,
}

/// The internal representation of a resident node of the atlas.
#[derive(Clone, Copy, PartialEq, Eq, Structural, Debug)]
pub struct AtlasNode {
    /// Indicates whether the node is loading or loaded.
    pub state: LoadingState,
    /// The slot the node occupies.
    pub atlas_index: AtlasIndex,
    /// The count of views that have requested and not yet released this node.
    pub requests: u32,
}

/// A slot that no view currently uses, queued for reuse in
/// least-recently-freed order.
#[derive(Clone, Copy, PartialEq, Eq, Structural, Debug)]
pub struct UnusedNode {
    /// The coordinate the slot last held, or the invalid sentinel for a slot
    /// that never held one.
    pub node_coordinate: NodeCoordinate,
    /// The slot itself.
    pub atlas_index: AtlasIndex,
}

/// The mathematical view of a [`LoadingNode`].
#[verifier::ext_equal]
pub struct LoadingModel {
    pub atlas_index: AtlasIndex,
    pub attachments: Seq<Option<AttachmentHandle>>,
    pub loading_attachments: Seq<bool>,
}

impl LoadingModel {
    /// Both per-attachment vectors cover exactly the configured attachments.
    pub open spec fn wf(self, attachment_count: int) -> bool {
        &&& self.attachments.len() == attachment_count
        &&& self.loading_attachments.len() == attachment_count
    }

    /// Every attachment of the node has finished loading.
    pub open spec fn finished(self) -> bool {
        forall|i: int| 0 <= i < self.loading_attachments.len() ==> !self.loading_attachments[i]
    }
}

/// All attachments of one node that is currently being loaded, alongside
/// which of them are still pending.
pub struct LoadingNode {
    /// The slot of the node.
    pub atlas_index: AtlasIndex,
    /// The handle of each attachment that has arrived so far.
    pub attachments: Vec<Option<AttachmentHandle>>,
    /// `true` at each attachment index that is still loading. The node is
    /// fully loaded once no entry is `true`.
    pub loading_attachments: Vec<bool>,
}

impl View for LoadingNode {
    type V = LoadingModel;

    open spec fn view(&self) -> LoadingModel {
        LoadingModel {
            atlas_index: self.atlas_index,
            attachments: self.attachments@,
            loading_attachments: self.loading_attachments@,
        }
    }
}

impl LoadingNode {
    /// A fresh loading record for a node placed in `atlas_index`, expecting
    /// all `attachment_count` attachments.
    pub fn start(atlas_index: AtlasIndex, attachment_count: usize) -> (n: LoadingNode)
        ensures
            n@ == (LoadingModel {
                atlas_index,
                attachments: Seq::new(attachment_count as nat, |i: int| None),
                loading_attachments: Seq::new(attachment_count as nat, |i: int| true),
            }),
    {
        let mut attachments: Vec<Option<AttachmentHandle>> = Vec::new();
        let mut loading_attachments: Vec<bool> = Vec::new();
        let mut i: usize = 0;
        while i < attachment_count
            invariant
                i <= attachment_count,
                attachments@ =~= Seq::new(i as nat, |j: int| None::<AttachmentHandle>),
                loading_attachments@ =~= Seq::new(i as nat, |j: int| true),
            decreases attachment_count - i,
        {
            attachments.push(None);
            loading_attachments.push(true);
            i = i + 1;
        }
        proof {
            assert(attachments@ =~= Seq::new(attachment_count as nat, |i: int| None::<AttachmentHandle>));
            assert(loading_attachments@ =~= Seq::new(attachment_count as nat, |i: int| true));
        }
        LoadingNode { atlas_index, attachments, loading_attachments }
    }

    /// Sets the attachment data of the node.
    pub fn set_attachment(&mut self, attachment_index: AttachmentIndex, attachment: AttachmentHandle)
        requires
            attachment_index < old(self).attachments@.len(),
        ensures
            final(self)@ == (LoadingModel {
                attachments: old(self)@.attachments.update(attachment_index as int, Some(attachment)),
                ..old(self)@
            }),
    {
        self.attachments.set(attachment_index, Some(attachment));
    }

    /// Marks the corresponding attachment as loaded.
    pub fn loaded(&mut self, attachment_index: AttachmentIndex)
        requires
            attachment_index < old(self).loading_attachments@.len(),
        ensures
            final(self)@ == (LoadingModel {
                loading_attachments: old(self)@.loading_attachments.update(attachment_index as int, false),
                ..old(self)@
            }),
    {
        self.loading_attachments.set(attachment_index, false);
    }

    /// Returns whether all attachments of the node have finished loading.
    pub fn finished_loading(&self) -> (r: bool)
        ensures
            r == self@.finished(),
    {
        let mut i: usize = 0;
        while i < self.loading_attachments.len()
            invariant
                i <= self.loading_attachments@.len(),
                forall|j: int| 0 <= j < i ==> !self.loading_attachments@[j],
            decreases self.loading_attachments@.len() - i,
        {
            if self.loading_attachments[i] {
                proof {
                    assert(self@.loading_attachments[i as int]);
                }
                return false;
            }
            i = i + 1;
        }
        true
    }
}

/// The CPU-visible snapshot of a loaded node's attachment handles. One such
/// record exists per slot and is overwritten in place as nodes cycle through
/// the slot.
pub struct NodeData {
    /// The handle of each attachment, by attachment index.
    pub attachments: Vec<Option<AttachmentHandle>>,
}

impl View for NodeData {
    type V = Seq<Option<AttachmentHandle>>;

    open spec fn view(&self) -> Seq<Option<AttachmentHandle>> {
        self.attachments@
    }
}

impl NodeData {
    /// The snapshot of a slot that no node has been loaded into yet.
    pub fn empty() -> (d: NodeData)
        ensures
            d@ == Seq::<Option<AttachmentHandle>>::empty(),
    {
        NodeData { attachments: Vec::new() }
    }
}

} // verus!
