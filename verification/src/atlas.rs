//! The node atlas: a bounded, reference-counted cache of terrain nodes with
//! least-recently-used slot reuse, asynchronous attachment loading, and a
//! save-slot counter throttling readback saves.
//!
//! Every operation is proved to follow the transition functions of
//! [`crate::model`], so the global invariant [`AtlasModel::wf`] holds after
//! any sequence of operations.

use vstd::prelude::*;

use crate::coordinate::{AtlasAttachment, AtlasIndex, AttachmentHandle, NodeCoordinate};
use crate::model::{
    has_key, has_slot, key_index, lemma_allocate_wf, lemma_harvest_from_wf,
    lemma_key_index, lemma_release_wf, lemma_request_wf, lemma_slot_index,
    lemma_unused_entry_of_zero, lemma_wf_cleared, slot_index, spec_allocate, spec_fulfill,
    spec_get_or_allocate, spec_harvest, spec_harvest_from, spec_release, spec_release_all,
    spec_request, spec_request_all, AtlasError, AtlasModel,
};
use crate::node::{AtlasNode, LoadingModel, LoadingNode, LoadingState, NodeData, UnusedNode};

use std::collections::VecDeque;

verus! {

/// How many readback save operations may be outstanding at once.
pub const DEFAULT_SAVE_SLOTS: u32 = 16;

/// The view of the loading map: each record replaced by its model.
pub open spec fn loading_view(s: Seq<(NodeCoordinate, LoadingNode)>) -> Seq<(
    NodeCoordinate,
    LoadingModel,
)> {
    s.map_values(|p: (NodeCoordinate, LoadingNode)| (p.0, p.1@))
}

/// Taking the view of the loading map keeps every key and its position.
pub proof fn lemma_loading_view_keys(s: Seq<(NodeCoordinate, LoadingNode)>, c: NodeCoordinate)
    ensures
        has_key(loading_view(s), c) == has_key(s, c),
        key_index(loading_view(s), c) == key_index(s, c),
    decreases s.len(),
{
    assert(loading_view(s).len() == s.len());
    assert(forall|i: int| 0 <= i < s.len() ==> loading_view(s)[i].0 == s[i].0);
    if s.len() == 0 {
    } else if s[0].0 == c {
    } else {
        lemma_loading_view_keys(s.drop_first(), c);
        assert(loading_view(s).drop_first() =~= loading_view(s.drop_first()));
        if has_key(s, c) {
            let w = choose|i: int| 0 <= i < s.len() && s[i].0 == c;
            assert(s.drop_first()[w - 1].0 == c);
            assert(has_key(s.drop_first(), c));
            assert(loading_view(s)[w].0 == c);
        }
        if has_key(s.drop_first(), c) {
            let w = choose|i: int| 0 <= i < s.drop_first().len() && s.drop_first()[i].0 == c;
            assert(s[w + 1].0 == c);
        }
        if has_key(loading_view(s), c) {
            let w = choose|i: int| 0 <= i < loading_view(s).len() && loading_view(s)[i].0 == c;
            assert(s[w].0 == c);
        }
    }
}

/// What the atlas needs from a terrain configuration: its slot count, its
/// attachments, and the coordinates that exist in the dataset.
pub struct TerrainConfig {
    /// How many nodes can be resident simultaneously.
    pub node_atlas_size: u16,
    /// The attachments of the terrain.
    pub attachments: Vec<AtlasAttachment>,
    /// The coordinates that exist in the dataset.
    pub nodes: Vec<NodeCoordinate>,
}

/// A sparse store of terrain nodes with a fixed pool of slots.
///
/// A node is resident and holds an [`AtlasIndex`] from the moment any view
/// requests it. The atlas announces new loads through `load_events`, gathers
/// finished loads into `loaded_nodes`, and reuses the least recently freed
/// slot once no view holds a node any more.
pub struct NodeAtlas {
    /// Nodes whose loading started this frame.
    pub load_events: Vec<NodeCoordinate>,
    /// The CPU-visible snapshot of every slot, by atlas index.
    pub data: Vec<NodeData>,
    /// The configured attachments of the terrain.
    pub attachments: Vec<AtlasAttachment>,
    /// Nodes that finished loading this frame, for the upload collaborator.
    pub loaded_nodes: Vec<LoadingNode>,
    /// The currently loading nodes, keyed by coordinate.
    pub loading_nodes: Vec<(NodeCoordinate, LoadingNode)>,
    /// The count of slots.
    pub size: AtlasIndex,
    /// The resident nodes, keyed by coordinate.
    pub nodes: Vec<(NodeCoordinate, AtlasNode)>,
    /// The coordinates that exist in the dataset; others are ignored.
    pub existing_nodes: Vec<NodeCoordinate>,
    /// The unused slots in least-recently-freed order.
    pub unused_nodes: VecDeque<UnusedNode>,
    /// How many readback save operations may still be started.
    pub slots: u32,
    /// The configured bound of `slots`.
    pub max_slots: u32,
}

impl View for NodeAtlas {
    type V = AtlasModel;

    open spec fn view(&self) -> AtlasModel {
        AtlasModel {
            nodes: self.nodes@,
            unused: self.unused_nodes@,
            loading: loading_view(self.loading_nodes@),
            load_events: self.load_events@,
            loaded: self.loaded_nodes@.map_values(|n: LoadingNode| n@),
            data: self.data@.map_values(|d: NodeData| d@),
            existing: self.existing_nodes@,
            size: self.size,
            attachment_count: self.attachments@.len(),
            slots: self.slots,
            max_slots: self.max_slots,
        }
    }
}

/// The position of key `c` in the association vector `s`, if present.
fn find_key<V>(s: &Vec<(NodeCoordinate, V)>, c: NodeCoordinate) -> (r: Option<usize>)
    ensures
        match r {
            Some(i) => has_key(s@, c) && i as int == key_index(s@, c),
            None => !has_key(s@, c),
        },
{
    let mut i: usize = 0;
    while i < s.len()
        invariant
            i <= s@.len(),
            forall|j: int| 0 <= j < i ==> s@[j].0 != c,
        decreases s@.len() - i,
    {
        if s[i].0 == c {
            proof {
                lemma_key_index(s@, c);
                let k = key_index(s@, c);
                if k < i {
                    assert(s@[k].0 != c);
                }
            }
            return Some(i);
        }
        i = i + 1;
    }
    None
}

/// The position of the unused entry holding slot `idx`, if any.
fn find_slot(s: &VecDeque<UnusedNode>, idx: AtlasIndex) -> (r: Option<usize>)
    ensures
        match r {
            Some(i) => has_slot(s@, idx) && i as int == slot_index(s@, idx),
            None => !has_slot(s@, idx),
        },
{
    let mut i: usize = 0;
    while i < s.len()
        invariant
            i <= s@.len(),
            forall|j: int| 0 <= j < i ==> s@[j].atlas_index != idx,
        decreases s@.len() - i,
    {
        if s[i].atlas_index == idx {
            proof {
                lemma_slot_index(s@, idx);
                let k = slot_index(s@, idx);
                if k < i {
                    assert(s@[k].atlas_index != idx);
                }
            }
            return Some(i);
        }
        i = i + 1;
    }
    None
}

/// Whether the coordinate vector contains `c`.
fn contains_coord(s: &Vec<NodeCoordinate>, c: NodeCoordinate) -> (r: bool)
    ensures
        r == s@.contains(c),
{
    let mut i: usize = 0;
    while i < s.len()
        invariant
            i <= s@.len(),
            forall|j: int| 0 <= j < i ==> s@[j] != c,
        decreases s@.len() - i,
    {
        if s[i] == c {
            return true;
        }
        i = i + 1;
    }
    false
}

/// A copy of a snapshot vector of attachment handles.
fn clone_attachments(v: &Vec<Option<AttachmentHandle>>) -> (r: Vec<Option<AttachmentHandle>>)
    ensures
        r@ == v@,
{
    let mut r: Vec<Option<AttachmentHandle>> = Vec::new();
    let mut i: usize = 0;
    while i < v.len()
        invariant
            i <= v@.len(),
            r@ =~= v@.subrange(0, i as int),
        decreases v@.len() - i,
    {
        r.push(v[i]);
        i = i + 1;
    }
    proof {
        assert(r@ =~= v@);
    }
    r
}

impl NodeAtlas {
    /// The global invariant; established by the constructor and preserved by
    /// every operation.
    pub open spec fn wf(self) -> bool {
        self@.wf()
    }

    /// Creates a new node atlas.
    ///
    /// * `size` - how many nodes can be resident simultaneously.
    /// * `attachments` - the attachments of the terrain.
    /// * `existing_nodes` - the coordinates that exist in the dataset; the
    ///   invalid sentinel must not be among them.
    pub fn new(
        size: u16,
        attachments: Vec<AtlasAttachment>,
        existing_nodes: Vec<NodeCoordinate>,
    ) -> (atlas: NodeAtlas)
        requires
            !existing_nodes@.contains(NodeCoordinate::invalid_spec()),
        ensures
            atlas.wf(),
            atlas@.nodes.len() == 0,
            atlas@.loading.len() == 0,
            atlas@.load_events.len() == 0,
            atlas@.loaded.len() == 0,
            atlas@.unused.len() == size,
            forall|i: int|
                0 <= i < size ==> atlas@.unused[i] == (UnusedNode {
                    node_coordinate: NodeCoordinate::invalid_spec(),
                    atlas_index: i as u16,
                }),
            atlas@.existing == existing_nodes@,
            atlas@.size == size,
            atlas.attachments@ == attachments@,
            atlas@.attachment_count == attachments@.len(),
            atlas@.data.len() == size,
            forall|i: int| 0 <= i < size ==> atlas@.data[i].len() == 0,
            atlas@.slots == DEFAULT_SAVE_SLOTS,
            atlas@.max_slots == DEFAULT_SAVE_SLOTS,
    {
        let mut unused_nodes: VecDeque<UnusedNode> = VecDeque::new();
        let mut data: Vec<NodeData> = Vec::new();
        let mut i: u16 = 0;
        while i < size
            invariant
                i <= size,
                unused_nodes@.len() == i,
                forall|j: int|
                    0 <= j < i ==> unused_nodes@[j] == (UnusedNode {
                        node_coordinate: NodeCoordinate::invalid_spec(),
                        atlas_index: j as u16,
                    }),
                data@.len() == i,
                forall|j: int| 0 <= j < i ==> data@[j]@.len() == 0,
            decreases size - i,
        {
            unused_nodes.push_back(
                UnusedNode { node_coordinate: NodeCoordinate::invalid(), atlas_index: i },
            );
            data.push(NodeData::empty());
            i = i + 1;
        }
        let atlas = NodeAtlas {
            load_events: Vec::new(),
            data,
            attachments,
            loaded_nodes: Vec::new(),
            loading_nodes: Vec::new(),
            size,
            nodes: Vec::new(),
            existing_nodes,
            unused_nodes,
            slots: DEFAULT_SAVE_SLOTS,
            max_slots: DEFAULT_SAVE_SLOTS,
        };
        proof {
            let m = atlas@;
            assert forall|w: int| 0 <= w < m.unused.len() implies m.unused_entry_ok(m.unused[w]) by {
                assert(m.unused[w].node_coordinate == NodeCoordinate::invalid_spec());
            }
            assert(m.wf());
        }
        atlas
    }

    /// Creates a node atlas from a terrain configuration, exactly as
    /// [`NodeAtlas::new`] would from the configuration's fields.
    pub fn from_config(config: TerrainConfig) -> (atlas: NodeAtlas)
        requires
            !config.nodes@.contains(NodeCoordinate::invalid_spec()),
        ensures
            atlas.wf(),
            atlas@.nodes.len() == 0,
            atlas@.loading.len() == 0,
            atlas@.load_events.len() == 0,
            atlas@.loaded.len() == 0,
            atlas@.unused.len() == config.node_atlas_size,
            forall|i: int|
                0 <= i < config.node_atlas_size ==> atlas@.unused[i] == (UnusedNode {
                    node_coordinate: NodeCoordinate::invalid_spec(),
                    atlas_index: i as u16,
                }),
            atlas@.existing == config.nodes@,
            atlas@.size == config.node_atlas_size,
            atlas.attachments@ == config.attachments@,
            atlas@.attachment_count == config.attachments@.len(),
            atlas@.data.len() == config.node_atlas_size,
            forall|i: int| 0 <= i < config.node_atlas_size ==> atlas@.data[i].len() == 0,
            atlas@.slots == DEFAULT_SAVE_SLOTS,
            atlas@.max_slots == DEFAULT_SAVE_SLOTS,
    {
        NodeAtlas::new(config.node_atlas_size, config.attachments, config.nodes)
    }

    /// How many nodes are currently resident.
    pub fn resident_count(&self) -> (r: usize)
        ensures
            r == self@.nodes.len(),
    {
        self.nodes.len()
    }

    /// The resident record of `c`, if it is resident.
    pub fn get_node(&self, c: NodeCoordinate) -> (r: Option<AtlasNode>)
        ensures
            self@.resident(c) ==> r == Some(self@.node(c)),
            !self@.resident(c) ==> r is None,
    {
        match find_key(&self.nodes, c) {
            Some(i) => {
                proof {
                    lemma_key_index(self.nodes@, c);
                }
                Some(self.nodes[i].1)
            },
            None => None,
        }
    }

    /// Evicts the least recently used slot and registers `c` in it.
    fn allocate(&mut self, c: NodeCoordinate, state: LoadingState) -> (idx: AtlasIndex)
        requires
            old(self).wf(),
            !old(self)@.resident(c),
            c != NodeCoordinate::invalid_spec(),
            old(self)@.unused.len() > 0,
        ensures
            final(self).wf(),
            final(self)@ == spec_allocate(old(self)@, c, state),
            idx == old(self)@.unused[0].atlas_index,
    {
        let unused_node = match self.unused_nodes.pop_front() {
            Some(u) => u,
            None => {
                proof {
                    assert(false);
                }
                UnusedNode { node_coordinate: NodeCoordinate::invalid(), atlas_index: 0 }
            },
        };
        let n1 = AtlasNode { state, atlas_index: unused_node.atlas_index, requests: 1 };
        match find_key(&self.nodes, unused_node.node_coordinate) {
            Some(k) => {
                proof {
                    lemma_key_index(self.nodes@, unused_node.node_coordinate);
                }
                self.nodes.set(k, (c, n1));
            },
            None => {
                self.nodes.push((c, n1));
            },
        }
        self.load_events.push(c);
        let loading = LoadingNode::start(unused_node.atlas_index, self.attachments.len());
        match find_key(&self.loading_nodes, c) {
            Some(k) => {
                proof {
                    lemma_key_index(self.loading_nodes@, c);
                }
                self.loading_nodes.set(k, (c, loading));
            },
            None => {
                self.loading_nodes.push((c, loading));
            },
        }
        proof {
            let m = old(self)@;
            lemma_allocate_wf(m, c, state);
            lemma_loading_view_keys(old(self).loading_nodes@, c);
            assert(loading_view(self.loading_nodes@) =~= spec_allocate(m, c, state).loading);
            assert(self@ =~= spec_allocate(m, c, state));
        }
        unused_node.atlas_index
    }

    /// Returns the slot of `c`, allocating one if `c` is not yet resident.
    ///
    /// Allocation is idempotent: a resident coordinate keeps its slot and
    /// the atlas does not change, so asking twice consumes one slot. When
    /// every slot is held by a requested node, the atlas is out of indices
    /// and the state is left unchanged.
    pub fn get_or_allocate(&mut self, node_coordinate: NodeCoordinate) -> (r: Result<
        AtlasIndex,
        AtlasError,
    >)
        requires
            old(self).wf(),
            node_coordinate != NodeCoordinate::invalid_spec(),
        ensures
            final(self).wf(),
            final(self)@ == spec_get_or_allocate(old(self)@, node_coordinate).0,
            r == spec_get_or_allocate(old(self)@, node_coordinate).1,
    {
        match find_key(&self.nodes, node_coordinate) {
            Some(k) => {
                proof {
                    lemma_key_index(self.nodes@, node_coordinate);
                }
                Ok(self.nodes[k].1.atlas_index)
            },
            None => {
                if self.unused_nodes.len() == 0 {
                    Err(AtlasError::OutOfIndices)
                } else {
                    Ok(self.allocate(node_coordinate, LoadingState::Loaded))
                }
            },
        }
    }

    /// Applies one released coordinate, as [`spec_release`] describes.
    fn release_one(&mut self, c: NodeCoordinate) -> (r: Option<AtlasError>)
        requires
            old(self).wf(),
        ensures
            final(self).wf(),
            final(self)@ == spec_release(old(self)@, c).0,
            r == spec_release(old(self)@, c).1,
    {
        if !contains_coord(&self.existing_nodes, c) {
            return None;
        }
        match find_key(&self.nodes, c) {
            None => Some(AtlasError::ReleasedAbsent),
            Some(k) => {
                proof {
                    lemma_key_index(self.nodes@, c);
                }
                let n = self.nodes[k].1;
                if n.requests == 0 {
                    Some(AtlasError::ReleasedUnrequested)
                } else {
                    let n1 = AtlasNode { requests: n.requests - 1, ..n };
                    self.nodes.set(k, (c, n1));
                    if n.requests == 1 {
                        self.unused_nodes.push_back(
                            UnusedNode { node_coordinate: c, atlas_index: n.atlas_index },
                        );
                    }
                    proof {
                        lemma_release_wf(old(self)@, c);
                        assert(self@ =~= spec_release(old(self)@, c).0);
                    }
                    None
                }
            },
        }
    }

    /// Applies one requested coordinate, as [`spec_request`] describes.
    fn request_one(&mut self, c: NodeCoordinate) -> (r: Option<AtlasError>)
        requires
            old(self).wf(),
        ensures
            final(self).wf(),
            final(self)@ == spec_request(old(self)@, c).0,
            r == spec_request(old(self)@, c).1,
    {
        if !contains_coord(&self.existing_nodes, c) {
            return None;
        }
        match find_key(&self.nodes, c) {
            Some(k) => {
                proof {
                    lemma_key_index(self.nodes@, c);
                }
                let n = self.nodes[k].1;
                if n.requests == u32::MAX {
                    return Some(AtlasError::TooManyRequests);
                }
                if n.requests == 0 {
                    // The node returns to use before its slot was reclaimed.
                    proof {
                        lemma_unused_entry_of_zero(old(self)@, c, k as int);
                    }
                    match find_slot(&self.unused_nodes, n.atlas_index) {
                        Some(p) => {
                            let _ = self.unused_nodes.remove(p);
                        },
                        None => {
                            proof {
                                assert(false);
                            }
                        },
                    }
                }
                let n1 = AtlasNode { requests: n.requests + 1, ..n };
                self.nodes.set(k, (c, n1));
                proof {
                    lemma_request_wf(old(self)@, c);
                    assert(self@ =~= spec_request(old(self)@, c).0);
                }
                None
            },
            None => {
                if self.unused_nodes.len() == 0 {
                    Some(AtlasError::OutOfIndices)
                } else {
                    proof {
                        assert(old(self)@.existing.contains(c));
                        assert(c != NodeCoordinate::invalid_spec());
                        lemma_request_wf(old(self)@, c);
                    }
                    let _ = self.allocate(c, LoadingState::Loading);
                    None
                }
            },
        }
    }

    /// Adjusts the atlas according to the released and requested coordinates
    /// of one view, releases first.
    ///
    /// Coordinates outside the dataset are ignored. Releases are applied
    /// before requests, so a coordinate released and re-requested within one
    /// call keeps its slot. The first fatal condition stops the pass and is
    /// returned; the coordinates before it have been applied.
    pub fn fulfill_request(
        &mut self,
        released: Vec<NodeCoordinate>,
        requested: Vec<NodeCoordinate>,
    ) -> (r: Result<(), AtlasError>)
        requires
            old(self).wf(),
        ensures
            final(self).wf(),
            final(self)@ == spec_fulfill(old(self)@, released@, requested@).0,
            match r {
                Ok(_) => spec_fulfill(old(self)@, released@, requested@).1 is None,
                Err(e) => spec_fulfill(old(self)@, released@, requested@).1 == Some(e),
            },
    {
        let mut i: usize = 0;
        while i < released.len()
            invariant
                old(self).wf(),
                self.wf(),
                i <= released@.len(),
                spec_release_all(old(self)@, released@, 0) == spec_release_all(
                    self@,
                    released@,
                    i as int,
                ),
            decreases released@.len() - i,
        {
            let c = released[i];
            let step = self.release_one(c);
            i = i + 1;
            if let Some(e) = step {
                return Err(e);
            }
        }
        let ghost mid = self@;
        proof {
            assert(spec_release_all(old(self)@, released@, 0) == (mid, None::<AtlasError>));
        }
        let mut i: usize = 0;
        while i < requested.len()
            invariant
                old(self).wf(),
                self.wf(),
                i <= requested@.len(),
                spec_release_all(old(self)@, released@, 0) == (mid, None::<AtlasError>),
                spec_request_all(mid, requested@, 0) == spec_request_all(
                    self@,
                    requested@,
                    i as int,
                ),
            decreases requested@.len() - i,
        {
            let c = requested[i];
            let step = self.request_one(c);
            i = i + 1;
            if let Some(e) = step {
                return Err(e);
            }
        }
        Ok(())
    }

    /// Harvests the nodes that have finished loading.
    ///
    /// Clears the previous frame's load events, extracts every loading
    /// record whose pending set is empty, marks the still-resident ones
    /// loaded, snapshots their attachments into `data`, and appends them to
    /// `loaded_nodes`; a finished record whose coordinate was evicted while
    /// loading is dropped.
    #[verifier::loop_isolation(false)]
    pub fn update_loaded_nodes(&mut self)
        requires
            old(self).wf(),
        ensures
            final(self).wf(),
            final(self)@ == spec_harvest(old(self)@),
            final(self)@.load_events.len() == 0,
    {
        self.load_events.clear();
        let mut pending: Vec<(NodeCoordinate, LoadingNode)> = Vec::new();
        core::mem::swap(&mut pending, &mut self.loading_nodes);
        let ghost raw = pending@;
        let ghost lv = loading_view(raw);
        let ghost m0 = self@;
        proof {
            assert(lv == old(self)@.loading);
            assert(loading_view(self.loading_nodes@) =~= Seq::<(
                NodeCoordinate,
                LoadingModel,
            )>::empty());
            assert(m0 =~= (AtlasModel {
                loading: Seq::empty(),
                load_events: Seq::empty(),
                ..old(self)@
            }));
            lemma_wf_cleared(old(self)@);
            assert(m0.wf());
        }
        while pending.len() > 0
            invariant
                self@.wf(),
                self@.load_events.len() == 0,
                self@.size == m0.size,
                self@.attachment_count == m0.attachment_count,
                pending@.len() <= raw.len(),
                pending@ =~= raw.subrange(raw.len() - pending@.len(), raw.len() as int),
                spec_harvest_from(m0, lv, 0) == spec_harvest_from(
                    self@,
                    lv,
                    raw.len() - pending@.len(),
                ),
                forall|l: int| 0 <= l < lv.len() ==> (#[trigger] lv[l].1).wf(
                    m0.attachment_count as int,
                ),
                forall|l: int| 0 <= l < lv.len() ==> (#[trigger] lv[l].1).atlas_index < m0.size,
                forall|p: int, q: int| 0 <= p < q < lv.len() ==> lv[p].0 != lv[q].0,
                forall|j: int, l: int|
                    0 <= j < self@.loading.len() && raw.len() - pending@.len() <= l < lv.len()
                        ==> self@.loading[j].0 != lv[l].0,
            decreases pending@.len(),
        {
            let ghost i = raw.len() - pending@.len();
            let ghost pre = self@;
            proof {
                assert(pending@[0] == raw[i]);
                assert(lv[i] == (raw[i].0, raw[i].1@));
            }
            let (c, ln) = pending.remove(0);
            proof {
                assert(pending@ =~= raw.subrange(i + 1, raw.len() as int));
            }
            let finished = ln.finished_loading();
            if finished {
                match find_key(&self.nodes, c) {
                    Some(k) => {
                        proof {
                            lemma_key_index(self.nodes@, c);
                        }
                        let pair = self.nodes[k];
                        self.nodes.set(k, (c, AtlasNode { state: LoadingState::Loaded, ..pair.1 }));
                        let snapshot = clone_attachments(&ln.attachments);
                        self.data.set(pair.1.atlas_index as usize, NodeData { attachments: snapshot });
                        self.loaded_nodes.push(ln);
                        proof {
                            let m1 = AtlasModel {
                                nodes: pre.nodes.update(
                                    key_index(pre.nodes, c),
                                    (c, AtlasNode { state: LoadingState::Loaded, ..pre.nodes[key_index(pre.nodes, c)].1 }),
                                ),
                                data: pre.data.update(
                                    pre.nodes[key_index(pre.nodes, c)].1.atlas_index as int,
                                    lv[i].1.attachments,
                                ),
                                loaded: pre.loaded.push(lv[i].1),
                                ..pre
                            };
                            assert(self@.data =~= m1.data);
                            assert(self@.loaded =~= m1.loaded);
                            assert(self@ =~= m1);
                            lemma_harvest_from_wf(pre, seq![lv[i]], 0);
                            reveal_with_fuel(spec_harvest_from, 3);
                            assert(seq![lv[i]][0] == lv[i]);
                            assert(spec_harvest_from(pre, seq![lv[i]], 0) == m1);
                            assert(spec_harvest_from(pre, lv, i) == spec_harvest_from(
                                self@,
                                lv,
                                i + 1,
                            ));
                        }
                    },
                    None => {
                        proof {
                            assert(spec_harvest_from(pre, lv, i) == spec_harvest_from(
                                self@,
                                lv,
                                i + 1,
                            ));
                        }
                    },
                }
            } else {
                self.loading_nodes.push((c, ln));
                proof {
                    let m1 = AtlasModel { loading: pre.loading.push(lv[i]), ..pre };
                    assert(self@.loading =~= m1.loading);
                    assert(self@ =~= m1);
                    lemma_harvest_from_wf(pre, seq![lv[i]], 0);
                    reveal_with_fuel(spec_harvest_from, 3);
                    assert(seq![lv[i]][0] == lv[i]);
                    assert(spec_harvest_from(pre, seq![lv[i]], 0) == m1);
                    assert(spec_harvest_from(pre, lv, i) == spec_harvest_from(self@, lv, i + 1));
                }
            }
        }
        proof {
            assert(spec_harvest_from(self@, lv, raw.len() as int) == self@);
            assert(self@ == spec_harvest(old(self)@));
        }
    }

    /// Takes one save slot if any is free; returns whether one was taken.
    pub fn take_save_slot(&mut self) -> (r: bool)
        requires
            old(self).wf(),
        ensures
            final(self).wf(),
            old(self).slots > 0 ==> r && final(self)@ == (AtlasModel {
                slots: (old(self)@.slots - 1) as u32,
                ..old(self)@
            }),
            old(self).slots == 0 ==> !r && final(self)@ == old(self)@,
    {
        if self.slots > 0 {
            self.slots = self.slots - 1;
            proof {
                lemma_wf_slots(old(self)@, self.slots);
            }
            true
        } else {
            false
        }
    }

    /// Returns the one save slot a finished save operation held.
    pub fn finish_save(&mut self)
        requires
            old(self).wf(),
            old(self).slots < old(self).max_slots,
        ensures
            final(self).wf(),
            final(self)@ == (AtlasModel { slots: (old(self)@.slots + 1) as u32, ..old(self)@ }),
    {
        self.slots = self.slots + 1;
        proof {
            lemma_wf_slots(old(self)@, self.slots);
        }
    }
}

/// Changing only the save-slot count keeps the invariant, while the count
/// stays within its bound.
proof fn lemma_wf_slots(m: AtlasModel, s: u32)
    requires
        m.wf(),
        s <= m.max_slots,
    ensures
        (AtlasModel { slots: s, ..m }).wf(),
{
    let m1 = AtlasModel { slots: s, ..m };
    assert forall|w: int| 0 <= w < m1.unused.len() implies m1.unused_entry_ok(m1.unused[w]) by {
        assert(m.unused_entry_ok(m.unused[w]));
    }
    assert forall|j: int|
        0 <= j < m1.nodes.len() && m1.nodes[j].1.requests == 0 implies exists|w: int|
        0 <= w < m1.unused.len() && m1.unused[w].node_coordinate == m1.nodes[j].0 by {
        let w = choose|w: int|
            0 <= w < m.unused.len() && m.unused[w].node_coordinate == m.nodes[j].0;
        assert(m1.unused[w].node_coordinate == m1.nodes[j].0);
    }
    assert(m1.wf());
}

} // verus!
