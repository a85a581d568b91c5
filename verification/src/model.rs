//! The mathematical model of the node atlas: its state as sequences and the
//! transition functions that the executable operations are proved to follow.
//!
//! Resident nodes and in-flight loading records are association sequences of
//! `(NodeCoordinate, _)` pairs with pairwise distinct keys; the unused queue
//! is a sequence in least-recently-freed-first order.

use vstd::prelude::*;

use crate::coordinate::{AtlasIndex, AttachmentHandle, NodeCoordinate};
use crate::node::{AtlasNode, LoadingModel, LoadingState, UnusedNode};

verus! {

/// A fatal condition surfaced by the atlas instead of corrupting its state.
#[derive(Clone, Copy, PartialEq, Eq, Structural, Debug)]
pub enum AtlasError {
    /// A slot was needed but every slot is held by a requested node: the
    /// caller's working set exceeds the configured capacity.
    OutOfIndices,
    /// A coordinate of the dataset was released while not resident: the
    /// requester and the atlas have desynchronized.
    ReleasedAbsent,
    /// A resident coordinate was released more often than it was requested.
    ReleasedUnrequested,
    /// A request would push a node's reference count past the capacity of
    /// its counter.
    TooManyRequests,
}

/// Whether the association sequence `s` holds the key `k`.
pub open spec fn has_key<K, V>(s: Seq<(K, V)>, k: K) -> bool {
    exists|i: int| 0 <= i < s.len() && s[i].0 == k
}

/// The first position of key `k` in `s`, or `s.len()` if `k` is absent.
pub open spec fn key_index<K, V>(s: Seq<(K, V)>, k: K) -> int
    decreases s.len(),
{
    if s.len() == 0 {
        0
    } else if s[0].0 == k {
        0
    } else {
        1 + key_index(s.drop_first(), k)
    }
}

pub proof fn lemma_key_index<K, V>(s: Seq<(K, V)>, k: K)
    ensures
        has_key(s, k) ==> 0 <= key_index(s, k) < s.len() && s[key_index(s, k)].0 == k
            && (forall|j: int| 0 <= j < key_index(s, k) ==> s[j].0 != k),
        !has_key(s, k) ==> key_index(s, k) == s.len(),
    decreases s.len(),
{
    if s.len() == 0 {
    } else if s[0].0 == k {
    } else {
        let t = s.drop_first();
        lemma_key_index(t, k);
        assert(forall|i: int| 0 <= i < t.len() ==> t[i] == s[i + 1]);
        assert(forall|i: int| 1 <= i < s.len() ==> s[i] == t[i - 1]);
        if has_key(s, k) {
            let w = choose|i: int| 0 <= i < s.len() && s[i].0 == k;
            assert(t[w - 1].0 == k);
            assert(has_key(t, k));
            assert(s[key_index(s, k)] == t[key_index(t, k)]);
            assert(forall|j: int|
                0 <= j < key_index(s, k) ==> s[j].0 != k) by {
                assert(forall|j: int| 1 <= j < key_index(s, k) ==> s[j] == t[j - 1] && t[j - 1].0 != k);
            }
        } else {
            if has_key(t, k) {
                let w = choose|i: int| 0 <= i < t.len() && t[i].0 == k;
                assert(s[w + 1].0 == k);
            }
            assert(!has_key(t, k));
        }
    }
}

/// In a sequence with pairwise distinct keys, any position holding `k` is
/// `key_index(s, k)`.
pub proof fn lemma_key_index_unique<K, V>(s: Seq<(K, V)>, k: K, i: int)
    requires
        forall|p: int, q: int| 0 <= p < q < s.len() ==> s[p].0 != s[q].0,
        0 <= i < s.len(),
        s[i].0 == k,
    ensures
        key_index(s, k) == i,
{
    lemma_key_index(s, k);
    assert(has_key(s, k));
    let w = key_index(s, k);
    if w < i {
        assert(s[w].0 == s[i].0);
    } else if w > i {
        assert(s[i].0 != k);
    }
}

/// Replaces the value of key `k`, or appends the pair if `k` is absent.
pub open spec fn upsert<K, V>(s: Seq<(K, V)>, k: K, v: V) -> Seq<(K, V)> {
    if has_key(s, k) {
        s.update(key_index(s, k), (k, v))
    } else {
        s.push((k, v))
    }
}

/// The first position in the unused queue whose entry holds slot `idx`, or
/// `s.len()` if no entry does.
pub open spec fn slot_index(s: Seq<UnusedNode>, idx: AtlasIndex) -> int
    decreases s.len(),
{
    if s.len() == 0 {
        0
    } else if s[0].atlas_index == idx {
        0
    } else {
        1 + slot_index(s.drop_first(), idx)
    }
}

/// Whether some entry of the unused queue holds slot `idx`.
pub open spec fn has_slot(s: Seq<UnusedNode>, idx: AtlasIndex) -> bool {
    exists|i: int| 0 <= i < s.len() && s[i].atlas_index == idx
}

pub proof fn lemma_slot_index(s: Seq<UnusedNode>, idx: AtlasIndex)
    ensures
        has_slot(s, idx) ==> 0 <= slot_index(s, idx) < s.len()
            && s[slot_index(s, idx)].atlas_index == idx
            && (forall|j: int| 0 <= j < slot_index(s, idx) ==> s[j].atlas_index != idx),
        !has_slot(s, idx) ==> slot_index(s, idx) == s.len(),
    decreases s.len(),
{
    if s.len() == 0 {
    } else if s[0].atlas_index == idx {
    } else {
        let t = s.drop_first();
        lemma_slot_index(t, idx);
        assert(forall|i: int| 0 <= i < t.len() ==> t[i] == s[i + 1]);
        assert(forall|i: int| 1 <= i < s.len() ==> s[i] == t[i - 1]);
        if has_slot(s, idx) {
            let w = choose|i: int| 0 <= i < s.len() && s[i].atlas_index == idx;
            assert(t[w - 1].atlas_index == idx);
            assert(has_slot(t, idx));
            assert(s[slot_index(s, idx)] == t[slot_index(t, idx)]);
            assert(forall|j: int|
                0 <= j < slot_index(s, idx) ==> s[j].atlas_index != idx) by {
                assert(forall|j: int|
                    1 <= j < slot_index(s, idx) ==> s[j] == t[j - 1] && t[j - 1].atlas_index != idx);
            }
        } else {
            if has_slot(t, idx) {
                let w = choose|i: int| 0 <= i < t.len() && t[i].atlas_index == idx;
                assert(s[w + 1].atlas_index == idx);
            }
            assert(!has_slot(t, idx));
        }
    }
}

/// A fresh loading record: no attachment arrived, every attachment pending.
pub open spec fn fresh_loading(atlas_index: AtlasIndex, count: nat) -> LoadingModel {
    LoadingModel {
        atlas_index,
        attachments: Seq::new(count, |i: int| None),
        loading_attachments: Seq::new(count, |i: int| true),
    }
}

/// The state of a node atlas, as mathematical sequences.
#[verifier::ext_equal]
pub struct AtlasModel {
    /// The resident nodes, keyed by coordinate.
    pub nodes: Seq<(NodeCoordinate, AtlasNode)>,
    /// Slots held by no requester, least recently freed first.
    pub unused: Seq<UnusedNode>,
    /// The in-flight loading records, keyed by coordinate.
    pub loading: Seq<(NodeCoordinate, LoadingModel)>,
    /// The coordinates whose loading started this frame.
    pub load_events: Seq<NodeCoordinate>,
    /// The nodes that finished loading this frame.
    pub loaded: Seq<LoadingModel>,
    /// The CPU-visible attachment snapshot of every slot.
    pub data: Seq<Seq<Option<AttachmentHandle>>>,
    /// The coordinates that exist in the dataset.
    pub existing: Seq<NodeCoordinate>,
    /// The slot count.
    pub size: AtlasIndex,
    /// The count of configured attachments.
    pub attachment_count: nat,
    /// How many readback save operations may still be started.
    pub slots: u32,
    /// The configured bound of `slots`.
    pub max_slots: u32,
}

impl AtlasModel {
    /// Whether `c` currently occupies a slot.
    pub open spec fn resident(self, c: NodeCoordinate) -> bool {
        has_key(self.nodes, c)
    }

    /// The resident record of `c`.
    pub open spec fn node(self, c: NodeCoordinate) -> AtlasNode {
        self.nodes[key_index(self.nodes, c)].1
    }

    /// Whether some resident node occupies slot `idx`.
    pub open spec fn slot_used(self, idx: AtlasIndex) -> bool {
        exists|i: int| 0 <= i < self.nodes.len() && self.nodes[i].1.atlas_index == idx
    }

    /// Resident coordinates are pairwise distinct, occupy pairwise distinct
    /// slots below `size`, and never include the invalid sentinel.
    pub open spec fn wf_nodes(self) -> bool {
        &&& forall|i: int, j: int|
            0 <= i < j < self.nodes.len() ==> self.nodes[i].0 != self.nodes[j].0
        &&& forall|i: int|
            0 <= i < self.nodes.len() ==> self.nodes[i].1.atlas_index < self.size
        &&& forall|i: int, j: int|
            0 <= i < j < self.nodes.len()
                ==> self.nodes[i].1.atlas_index != self.nodes[j].1.atlas_index
        &&& forall|i: int|
            0 <= i < self.nodes.len() ==> self.nodes[i].0 != NodeCoordinate::invalid_spec()
    }

    /// An unused entry either still names its resident node, which then has
    /// no outstanding request, or is a placeholder whose slot no resident
    /// node occupies.
    pub open spec fn unused_entry_ok(self, u: UnusedNode) -> bool {
        if u.node_coordinate == NodeCoordinate::invalid_spec() {
            !self.slot_used(u.atlas_index)
        } else {
            exists|j: int|
                0 <= j < self.nodes.len() && self.nodes[j].0 == u.node_coordinate
                    && self.nodes[j].1.atlas_index == u.atlas_index
                    && self.nodes[j].1.requests == 0
        }
    }

    /// Unused entries hold pairwise distinct slots below `size`, each
    /// consistent with the resident nodes.
    pub open spec fn wf_unused(self) -> bool {
        &&& forall|i: int|
            0 <= i < self.unused.len() ==> self.unused[i].atlas_index < self.size
        &&& forall|i: int, j: int|
            0 <= i < j < self.unused.len()
                ==> self.unused[i].atlas_index != self.unused[j].atlas_index
        &&& forall|i: int| 0 <= i < self.unused.len() ==> self.unused_entry_ok(self.unused[i])
    }

    /// Every resident node without an outstanding request stands in the
    /// unused queue.
    pub open spec fn zero_requests_queued(self) -> bool {
        forall|j: int|
            0 <= j < self.nodes.len() && self.nodes[j].1.requests == 0 ==> exists|i: int|
                0 <= i < self.unused.len()
                    && self.unused[i].node_coordinate == self.nodes[j].0
    }

    /// Loading records have pairwise distinct coordinates, cover exactly the
    /// configured attachments, and name slots below `size`.
    pub open spec fn wf_loading(self) -> bool {
        &&& forall|i: int, j: int|
            0 <= i < j < self.loading.len() ==> self.loading[i].0 != self.loading[j].0
        &&& forall|i: int|
            0 <= i < self.loading.len() ==> self.loading[i].1.wf(self.attachment_count as int)
        &&& forall|i: int|
            0 <= i < self.loading.len() ==> self.loading[i].1.atlas_index < self.size
    }

    /// The global invariant of the atlas.
    pub open spec fn wf(self) -> bool {
        &&& self.wf_nodes()
        &&& self.wf_unused()
        &&& self.zero_requests_queued()
        &&& self.wf_loading()
        &&& self.data.len() == self.size
        &&& !self.existing.contains(NodeCoordinate::invalid_spec())
        &&& self.slots <= self.max_slots
    }
}

/// Evicts the front of the unused queue and registers `c` in its slot with
/// one request, a fresh loading record, and a load-start event.
pub open spec fn spec_allocate(m: AtlasModel, c: NodeCoordinate, state: LoadingState) -> AtlasModel
    recommends
        m.unused.len() > 0,
{
    let u = m.unused[0];
    let n1 = AtlasNode { state, atlas_index: u.atlas_index, requests: 1 };
    let nodes1 = if has_key(m.nodes, u.node_coordinate) {
        m.nodes.update(key_index(m.nodes, u.node_coordinate), (c, n1))
    } else {
        m.nodes.push((c, n1))
    };
    AtlasModel {
        nodes: nodes1,
        unused: m.unused.drop_first(),
        loading: upsert(m.loading, c, fresh_loading(u.atlas_index, m.attachment_count)),
        load_events: m.load_events.push(c),
        ..m
    }
}

/// One released coordinate: ignored when outside the dataset; otherwise the
/// node's request count drops by one, and on reaching zero the node joins
/// the back of the unused queue.
pub open spec fn spec_release(m: AtlasModel, c: NodeCoordinate) -> (AtlasModel, Option<AtlasError>) {
    if !m.existing.contains(c) {
        (m, None)
    } else if !m.resident(c) {
        (m, Some(AtlasError::ReleasedAbsent))
    } else {
        let k = key_index(m.nodes, c);
        let n = m.nodes[k].1;
        if n.requests == 0 {
            (m, Some(AtlasError::ReleasedUnrequested))
        } else {
            let n1 = AtlasNode { requests: (n.requests - 1) as u32, ..n };
            let unused1 = if n.requests == 1 {
                m.unused.push(UnusedNode { node_coordinate: c, atlas_index: n.atlas_index })
            } else {
                m.unused
            };
            (AtlasModel { nodes: m.nodes.update(k, (c, n1)), unused: unused1, ..m }, None)
        }
    }
}

/// One requested coordinate: ignored when outside the dataset; a resident
/// node gains a request, leaving the unused queue if it was there; an absent
/// one is allocated into the least recently used slot.
pub open spec fn spec_request(m: AtlasModel, c: NodeCoordinate) -> (AtlasModel, Option<AtlasError>) {
    if !m.existing.contains(c) {
        (m, None)
    } else if m.resident(c) {
        let k = key_index(m.nodes, c);
        let n = m.nodes[k].1;
        if n.requests == u32::MAX {
            (m, Some(AtlasError::TooManyRequests))
        } else {
            let unused1 = if n.requests == 0 {
                m.unused.remove(slot_index(m.unused, n.atlas_index))
            } else {
                m.unused
            };
            let n1 = AtlasNode { requests: (n.requests + 1) as u32, ..n };
            (AtlasModel { nodes: m.nodes.update(k, (c, n1)), unused: unused1, ..m }, None)
        }
    } else if m.unused.len() == 0 {
        (m, Some(AtlasError::OutOfIndices))
    } else {
        (spec_allocate(m, c, LoadingState::Loading), None)
    }
}

/// Releases `cs[i..]` in order, stopping at the first fatal condition.
pub open spec fn spec_release_all(m: AtlasModel, cs: Seq<NodeCoordinate>, i: int) -> (
    AtlasModel,
    Option<AtlasError>,
)
    decreases cs.len() - i,
{
    if i < 0 || i >= cs.len() {
        (m, None)
    } else {
        let s = spec_release(m, cs[i]);
        if s.1 is Some {
            s
        } else {
            spec_release_all(s.0, cs, i + 1)
        }
    }
}

/// Requests `cs[i..]` in order, stopping at the first fatal condition.
pub open spec fn spec_request_all(m: AtlasModel, cs: Seq<NodeCoordinate>, i: int) -> (
    AtlasModel,
    Option<AtlasError>,
)
    decreases cs.len() - i,
{
    if i < 0 || i >= cs.len() {
        (m, None)
    } else {
        let s = spec_request(m, cs[i]);
        if s.1 is Some {
            s
        } else {
            spec_request_all(s.0, cs, i + 1)
        }
    }
}

/// One fulfillment pass: all releases, then all requests.
pub open spec fn spec_fulfill(
    m: AtlasModel,
    released: Seq<NodeCoordinate>,
    requested: Seq<NodeCoordinate>,
) -> (AtlasModel, Option<AtlasError>) {
    let r = spec_release_all(m, released, 0);
    if r.1 is Some {
        r
    } else {
        spec_request_all(r.0, requested, 0)
    }
}

/// Idempotent allocation outside the request protocol: a resident coordinate
/// keeps its slot and nothing changes; an absent one is allocated as loaded.
pub open spec fn spec_get_or_allocate(m: AtlasModel, c: NodeCoordinate) -> (
    AtlasModel,
    Result<AtlasIndex, AtlasError>,
) {
    if m.resident(c) {
        (m, Ok(m.node(c).atlas_index))
    } else if m.unused.len() == 0 {
        (m, Err(AtlasError::OutOfIndices))
    } else {
        (spec_allocate(m, c, LoadingState::Loaded), Ok(m.unused[0].atlas_index))
    }
}

/// In a well-formed atlas, no unused entry names a coordinate whose node
/// still has outstanding requests.
pub proof fn lemma_no_unused_entry_for_requested(m: AtlasModel, c: NodeCoordinate, k: int)
    requires
        m.wf(),
        0 <= k < m.nodes.len(),
        m.nodes[k].0 == c,
        m.nodes[k].1.requests > 0,
    ensures
        forall|i: int| 0 <= i < m.unused.len() ==> m.unused[i].node_coordinate != c,
{
    assert forall|i: int| 0 <= i < m.unused.len() implies m.unused[i].node_coordinate != c by {
        if m.unused[i].node_coordinate == c {
            assert(m.unused_entry_ok(m.unused[i]));
            assert(c != NodeCoordinate::invalid_spec());
            let j = choose|j: int|
                0 <= j < m.nodes.len() && m.nodes[j].0 == c
                    && m.nodes[j].1.atlas_index == m.unused[i].atlas_index
                    && m.nodes[j].1.requests == 0;
            assert(j == k);
        }
    }
}

/// Allocating an absent coordinate into the least recently used slot
/// preserves the invariant; the new node holds that slot with one request.
#[verifier::rlimit(60)]
pub proof fn lemma_allocate_wf(m: AtlasModel, c: NodeCoordinate, state: LoadingState)
    requires
        m.wf(),
        !m.resident(c),
        c != NodeCoordinate::invalid_spec(),
        m.unused.len() > 0,
    ensures
        spec_allocate(m, c, state).wf(),
        spec_allocate(m, c, state).resident(c),
        spec_allocate(m, c, state).node(c) == (AtlasNode {
            state,
            atlas_index: m.unused[0].atlas_index,
            requests: 1,
        }),
        m.nodes.len() <= spec_allocate(m, c, state).nodes.len() <= m.nodes.len() + 1,
{
    let m1 = spec_allocate(m, c, state);
    let u = m.unused[0];
    let n1 = AtlasNode { state, atlas_index: u.atlas_index, requests: 1 };
    assert(m.unused_entry_ok(u));
    assert(forall|i: int| 0 <= i < m.nodes.len() ==> m.nodes[i].0 != c);
    assert(forall|i: int| 0 <= i < m1.unused.len() ==> m1.unused[i] == m.unused[i + 1]);
    if has_key(m.nodes, u.node_coordinate) {
        // The evicted slot still held a zero-request node, which is replaced.
        lemma_key_index(m.nodes, u.node_coordinate);
        let k = key_index(m.nodes, u.node_coordinate);
        assert(u.node_coordinate != NodeCoordinate::invalid_spec());
        let j = choose|j: int|
            0 <= j < m.nodes.len() && m.nodes[j].0 == u.node_coordinate
                && m.nodes[j].1.atlas_index == u.atlas_index && m.nodes[j].1.requests == 0;
        lemma_key_index_unique(m.nodes, u.node_coordinate, j);
        assert(k == j);
        assert(m1.nodes == m.nodes.update(k, (c, n1)));
        assert(m1.wf_nodes());
        assert forall|idx: AtlasIndex| m1.slot_used(idx) == m.slot_used(idx) by {
            if m.slot_used(idx) {
                let i = choose|i: int|
                    0 <= i < m.nodes.len() && m.nodes[i].1.atlas_index == idx;
                assert(m1.nodes[i].1.atlas_index == idx);
            }
            if m1.slot_used(idx) {
                let i = choose|i: int|
                    0 <= i < m1.nodes.len() && m1.nodes[i].1.atlas_index == idx;
                assert(m.nodes[i].1.atlas_index == idx);
            }
        }
        assert forall|i: int|
            0 <= i < m1.unused.len() implies m1.unused_entry_ok(m1.unused[i]) by {
            let e = m.unused[i + 1];
            assert(m.unused_entry_ok(e));
            if e.node_coordinate != NodeCoordinate::invalid_spec() {
                let j2 = choose|j2: int|
                    0 <= j2 < m.nodes.len() && m.nodes[j2].0 == e.node_coordinate
                        && m.nodes[j2].1.atlas_index == e.atlas_index
                        && m.nodes[j2].1.requests == 0;
                assert(e.atlas_index != u.atlas_index);
                assert(j2 != k);
                assert(m1.nodes[j2].0 == e.node_coordinate);
            }
        }
        assert forall|j2: int|
            0 <= j2 < m1.nodes.len() && m1.nodes[j2].1.requests == 0 implies exists|i: int|
            0 <= i < m1.unused.len() && m1.unused[i].node_coordinate == m1.nodes[j2].0 by {
            assert(j2 != k);
            let i = choose|i: int|
                0 <= i < m.unused.len() && m.unused[i].node_coordinate == m.nodes[j2].0;
            assert(m.unused[i].node_coordinate != u.node_coordinate) by {
                assert(m.unused_entry_ok(m.unused[i]));
                if m.unused[i].node_coordinate == u.node_coordinate {
                    let j3 = choose|j3: int|
                        0 <= j3 < m.nodes.len() && m.nodes[j3].0 == m.unused[i].node_coordinate
                            && m.nodes[j3].1.atlas_index == m.unused[i].atlas_index
                            && m.nodes[j3].1.requests == 0;
                    assert(j3 == k);
                    assert(m.unused[i].atlas_index == u.atlas_index);
                    assert(i == 0);
                    assert(m.nodes[j2].0 == u.node_coordinate);
                }
            }
            assert(i >= 1);
            assert(m1.unused[i - 1].node_coordinate == m1.nodes[j2].0);
        }
        lemma_key_index_unique(m1.nodes, c, k);
        assert(m1.wf_loading()) by { lemma_upsert_loading(m, c, u.atlas_index); }
        assert(m1.wf());
    } else {
        // The evicted entry is a placeholder: its slot holds no node.
        assert(u.node_coordinate == NodeCoordinate::invalid_spec()) by {
            if u.node_coordinate != NodeCoordinate::invalid_spec() {
                let j = choose|j: int|
                    0 <= j < m.nodes.len() && m.nodes[j].0 == u.node_coordinate
                        && m.nodes[j].1.atlas_index == u.atlas_index
                        && m.nodes[j].1.requests == 0;
                assert(has_key(m.nodes, u.node_coordinate));
            }
        }
        assert(!m.slot_used(u.atlas_index));
        assert(m1.nodes == m.nodes.push((c, n1)));
        let len = m.nodes.len() as int;
        assert forall|idx: AtlasIndex| m1.slot_used(idx) implies
            m.slot_used(idx) || idx == u.atlas_index by {
            let i = choose|i: int|
                0 <= i < m1.nodes.len() && m1.nodes[i].1.atlas_index == idx;
            if i < len {
                assert(m.nodes[i].1.atlas_index == idx);
            }
        }
        assert(m1.wf_nodes());
        assert forall|i: int|
            0 <= i < m1.unused.len() implies m1.unused_entry_ok(m1.unused[i]) by {
            let e = m.unused[i + 1];
            assert(m.unused_entry_ok(e));
            if e.node_coordinate == NodeCoordinate::invalid_spec() {
                assert(e.atlas_index != u.atlas_index);
                if m1.slot_used(e.atlas_index) {
                    assert(m.slot_used(e.atlas_index));
                }
            } else {
                let j2 = choose|j2: int|
                    0 <= j2 < m.nodes.len() && m.nodes[j2].0 == e.node_coordinate
                        && m.nodes[j2].1.atlas_index == e.atlas_index
                        && m.nodes[j2].1.requests == 0;
                assert(m1.nodes[j2].0 == e.node_coordinate);
            }
        }
        assert forall|j2: int|
            0 <= j2 < m1.nodes.len() && m1.nodes[j2].1.requests == 0 implies exists|i: int|
            0 <= i < m1.unused.len() && m1.unused[i].node_coordinate == m1.nodes[j2].0 by {
            assert(j2 < len);
            let i = choose|i: int|
                0 <= i < m.unused.len() && m.unused[i].node_coordinate == m.nodes[j2].0;
            assert(i >= 1);
            assert(m1.unused[i - 1].node_coordinate == m1.nodes[j2].0);
        }
        lemma_key_index_unique(m1.nodes, c, len);
        assert(m1.wf_loading()) by { lemma_upsert_loading(m, c, u.atlas_index); }
        assert(m1.wf());
    }
}

/// Replacing or inserting a fresh loading record keeps the loading map
/// well formed.
proof fn lemma_upsert_loading(m: AtlasModel, c: NodeCoordinate, idx: AtlasIndex)
    requires
        m.wf_loading(),
        idx < m.size,
    ensures
        ({
            let l1 = upsert(m.loading, c, fresh_loading(idx, m.attachment_count));
            &&& forall|i: int, j: int| 0 <= i < j < l1.len() ==> l1[i].0 != l1[j].0
            &&& forall|i: int| 0 <= i < l1.len() ==> l1[i].1.wf(m.attachment_count as int)
            &&& forall|i: int| 0 <= i < l1.len() ==> l1[i].1.atlas_index < m.size
        }),
{
    let f = fresh_loading(idx, m.attachment_count);
    assert(f.wf(m.attachment_count as int));
    let l1 = upsert(m.loading, c, f);
    if has_key(m.loading, c) {
        lemma_key_index(m.loading, c);
    } else {
        assert(forall|i: int| 0 <= i < m.loading.len() ==> m.loading[i].0 != c);
    }
}

/// Releasing a coordinate preserves the invariant.
pub proof fn lemma_release_wf(m: AtlasModel, c: NodeCoordinate)
    requires
        m.wf(),
    ensures
        spec_release(m, c).0.wf(),
{
    let r = spec_release(m, c);
    let m1 = r.0;
    if !m.existing.contains(c) {
    } else if !m.resident(c) {
    } else {
        lemma_key_index(m.nodes, c);
        let k = key_index(m.nodes, c);
        let n = m.nodes[k].1;
        if n.requests == 0 {
        } else {
            let n1 = AtlasNode { requests: (n.requests - 1) as u32, ..n };
            let nodes1 = m.nodes.update(k, (c, n1));
            lemma_no_unused_entry_for_requested(m, c, k);
            assert forall|idx: AtlasIndex| m1.slot_used(idx) == m.slot_used(idx) by {
                if m.slot_used(idx) {
                    let i = choose|i: int|
                        0 <= i < m.nodes.len() && m.nodes[i].1.atlas_index == idx;
                    assert(m1.nodes[i].1.atlas_index == idx);
                }
                if m1.slot_used(idx) {
                    let i = choose|i: int|
                        0 <= i < m1.nodes.len() && m1.nodes[i].1.atlas_index == idx;
                    assert(m.nodes[i].1.atlas_index == idx);
                }
            }
            assert(m1.wf_nodes());
            if n.requests == 1 {
                let e = UnusedNode { node_coordinate: c, atlas_index: n.atlas_index };
                // No existing unused entry holds the slot of `c`.
                assert forall|i: int|
                    0 <= i < m.unused.len() implies m.unused[i].atlas_index != n.atlas_index by {
                    assert(m.unused_entry_ok(m.unused[i]));
                    if m.unused[i].atlas_index == n.atlas_index {
                        if m.unused[i].node_coordinate == NodeCoordinate::invalid_spec() {
                            assert(m.slot_used(n.atlas_index));
                        } else {
                            let j = choose|j: int|
                                0 <= j < m.nodes.len()
                                    && m.nodes[j].0 == m.unused[i].node_coordinate
                                    && m.nodes[j].1.atlas_index == m.unused[i].atlas_index
                                    && m.nodes[j].1.requests == 0;
                            assert(j == k);
                        }
                    }
                }
                assert(m1.unused == m.unused.push(e));
                assert forall|i: int|
                    0 <= i < m1.unused.len() implies m1.unused_entry_ok(m1.unused[i]) by {
                    if i < m.unused.len() {
                        assert(m.unused_entry_ok(m.unused[i]));
                        assert(m.unused[i].node_coordinate != c);
                        if m.unused[i].node_coordinate != NodeCoordinate::invalid_spec() {
                            let j = choose|j: int|
                                0 <= j < m.nodes.len()
                                    && m.nodes[j].0 == m.unused[i].node_coordinate
                                    && m.nodes[j].1.atlas_index == m.unused[i].atlas_index
                                    && m.nodes[j].1.requests == 0;
                            assert(nodes1[j].0 == m.unused[i].node_coordinate);
                            assert(nodes1[j].1.requests == 0);
                        }
                    } else {
                        assert(m1.unused[i] == e);
                        assert(nodes1[k].0 == c && nodes1[k].1.requests == 0);
                    }
                }
                assert forall|j: int|
                    0 <= j < m1.nodes.len() && m1.nodes[j].1.requests == 0 implies exists|i: int|
                    0 <= i < m1.unused.len()
                        && m1.unused[i].node_coordinate == m1.nodes[j].0 by {
                    if j == k {
                        assert(m1.unused[m.unused.len() as int].node_coordinate == c);
                    } else {
                        let i = choose|i: int|
                            0 <= i < m.unused.len()
                                && m.unused[i].node_coordinate == m.nodes[j].0;
                        assert(m1.unused[i].node_coordinate == m1.nodes[j].0);
                    }
                }
                assert(m1.wf());
            } else {
                assert(m1.unused == m.unused);
                assert forall|i: int|
                    0 <= i < m1.unused.len() implies m1.unused_entry_ok(m1.unused[i]) by {
                    assert(m.unused_entry_ok(m.unused[i]));
                    assert(m.unused[i].node_coordinate != c);
                    if m.unused[i].node_coordinate != NodeCoordinate::invalid_spec() {
                        let j = choose|j: int|
                            0 <= j < m.nodes.len()
                                && m.nodes[j].0 == m.unused[i].node_coordinate
                                && m.nodes[j].1.atlas_index == m.unused[i].atlas_index
                                && m.nodes[j].1.requests == 0;
                        assert(nodes1[j].0 == m.unused[i].node_coordinate);
                    }
                }
                assert forall|j: int|
                    0 <= j < m1.nodes.len() && m1.nodes[j].1.requests == 0 implies exists|i: int|
                    0 <= i < m1.unused.len()
                        && m1.unused[i].node_coordinate == m1.nodes[j].0 by {
                    assert(j != k);
                    let i = choose|i: int|
                        0 <= i < m.unused.len() && m.unused[i].node_coordinate == m.nodes[j].0;
                    assert(m1.unused[i].node_coordinate == m1.nodes[j].0);
                }
                assert(m1.wf());
            }
        }
    }
}

/// In a well-formed atlas, the unused entry of a zero-request resident node
/// is the unique entry holding that node's slot, and names its coordinate.
pub proof fn lemma_unused_entry_of_zero(m: AtlasModel, c: NodeCoordinate, k: int)
    requires
        m.wf(),
        0 <= k < m.nodes.len(),
        m.nodes[k].0 == c,
        m.nodes[k].1.requests == 0,
    ensures
        has_slot(m.unused, m.nodes[k].1.atlas_index),
        ({
            let p = slot_index(m.unused, m.nodes[k].1.atlas_index);
            &&& 0 <= p < m.unused.len()
            &&& m.unused[p].node_coordinate == c
            &&& m.unused[p].atlas_index == m.nodes[k].1.atlas_index
        }),
{
    let idx = m.nodes[k].1.atlas_index;
    let i = choose|i: int|
        0 <= i < m.unused.len() && m.unused[i].node_coordinate == m.nodes[k].0;
    assert(m.unused_entry_ok(m.unused[i]));
    assert(m.unused[i].node_coordinate != NodeCoordinate::invalid_spec());
    let j = choose|j: int|
        0 <= j < m.nodes.len() && m.nodes[j].0 == m.unused[i].node_coordinate
            && m.nodes[j].1.atlas_index == m.unused[i].atlas_index
            && m.nodes[j].1.requests == 0;
    assert(j == k);
    assert(m.unused[i].atlas_index == idx);
    assert(has_slot(m.unused, idx));
    lemma_slot_index(m.unused, idx);
    let p = slot_index(m.unused, idx);
    assert(m.unused[p].atlas_index == idx);
    // Any entry holding this slot names the node's coordinate.
    assert(m.unused_entry_ok(m.unused[p]));
    if m.unused[p].node_coordinate == NodeCoordinate::invalid_spec() {
        assert(m.slot_used(idx));
    } else {
        let j2 = choose|j2: int|
            0 <= j2 < m.nodes.len() && m.nodes[j2].0 == m.unused[p].node_coordinate
                && m.nodes[j2].1.atlas_index == m.unused[p].atlas_index
                && m.nodes[j2].1.requests == 0;
        assert(j2 == k);
    }
}

/// The requests==0 resident branch of a request preserves the invariant.
#[verifier::rlimit(60)]
proof fn lemma_request_wf_zero(m: AtlasModel, c: NodeCoordinate)
    requires
        m.wf(),
        m.existing.contains(c),
        m.resident(c),
        m.nodes[key_index(m.nodes, c)].1.requests == 0,
    ensures
        spec_request(m, c).0.wf(),
{
    let m1 = spec_request(m, c).0;
    lemma_key_index(m.nodes, c);
    let k = key_index(m.nodes, c);
    let n = m.nodes[k].1;
    let n1 = AtlasNode { requests: (n.requests + 1) as u32, ..n };
    let nodes1 = m.nodes.update(k, (c, n1));
    assert forall|idx: AtlasIndex|
        (exists|i: int| 0 <= i < nodes1.len() && nodes1[i].1.atlas_index == idx)
            == m.slot_used(idx) by {
        if m.slot_used(idx) {
            let i = choose|i: int|
                0 <= i < m.nodes.len() && m.nodes[i].1.atlas_index == idx;
            assert(nodes1[i].1.atlas_index == idx);
        }
        if exists|i: int| 0 <= i < nodes1.len() && nodes1[i].1.atlas_index == idx {
            let i = choose|i: int|
                0 <= i < nodes1.len() && nodes1[i].1.atlas_index == idx;
            assert(m.nodes[i].1.atlas_index == idx);
        }
    }
    lemma_unused_entry_of_zero(m, c, k);
    let p = slot_index(m.unused, n.atlas_index);
    let unused1 = m.unused.remove(p);
    assert(m1.nodes == nodes1 && m1.unused == unused1);
    assert(forall|i: int| 0 <= i < p ==> unused1[i] == m.unused[i]);
    assert(forall|i: int|
        p <= i < unused1.len() ==> unused1[i] == m.unused[i + 1]);
    assert forall|i: int|
        0 <= i < unused1.len() implies m1.unused_entry_ok(unused1[i]) by {
        let e = if i < p { m.unused[i] } else { m.unused[i + 1] };
        assert(unused1[i] == e);
        assert(m.unused_entry_ok(e));
        if e.node_coordinate == NodeCoordinate::invalid_spec() {
            if m1.slot_used(e.atlas_index) {
                assert(m.slot_used(e.atlas_index));
            }
        } else {
            let j = choose|j: int|
                0 <= j < m.nodes.len() && m.nodes[j].0 == e.node_coordinate
                    && m.nodes[j].1.atlas_index == e.atlas_index
                    && m.nodes[j].1.requests == 0;
            assert(e.atlas_index != n.atlas_index);
            assert(j != k);
            assert(nodes1[j].0 == e.node_coordinate);
        }
    }
    assert forall|j: int|
        0 <= j < m1.nodes.len() && m1.nodes[j].1.requests == 0 implies exists|i: int|
        0 <= i < m1.unused.len()
            && m1.unused[i].node_coordinate == m1.nodes[j].0 by {
        assert(j != k);
        let i = choose|i: int|
            0 <= i < m.unused.len() && m.unused[i].node_coordinate == m.nodes[j].0;
        assert(m.unused[i].node_coordinate != c) by {
            if m.unused[i].node_coordinate == c {
                assert(m.unused_entry_ok(m.unused[i]));
                let j3 = choose|j3: int|
                    0 <= j3 < m.nodes.len() && m.nodes[j3].0 == c
                        && m.nodes[j3].1.atlas_index == m.unused[i].atlas_index
                        && m.nodes[j3].1.requests == 0;
                assert(j3 == k);
                assert(m.unused[i].atlas_index == n.atlas_index);
                assert(i == p);
                assert(m.nodes[j].0 == c);
            }
        }
        assert(i != p);
        if i < p {
            assert(unused1[i].node_coordinate == m1.nodes[j].0);
        } else {
            assert(unused1[i - 1].node_coordinate == m1.nodes[j].0);
        }
    }
    assert(m1.wf());
}

/// The requests>0 resident branch of a request preserves the invariant.
#[verifier::rlimit(60)]
proof fn lemma_request_wf_pos(m: AtlasModel, c: NodeCoordinate)
    requires
        m.wf(),
        m.existing.contains(c),
        m.resident(c),
        0 < m.nodes[key_index(m.nodes, c)].1.requests < u32::MAX,
    ensures
        spec_request(m, c).0.wf(),
{
    let m1 = spec_request(m, c).0;
    lemma_key_index(m.nodes, c);
    let k = key_index(m.nodes, c);
    let n = m.nodes[k].1;
    let n1 = AtlasNode { requests: (n.requests + 1) as u32, ..n };
    let nodes1 = m.nodes.update(k, (c, n1));
    assert forall|idx: AtlasIndex|
        (exists|i: int| 0 <= i < nodes1.len() && nodes1[i].1.atlas_index == idx)
            == m.slot_used(idx) by {
        if m.slot_used(idx) {
            let i = choose|i: int|
                0 <= i < m.nodes.len() && m.nodes[i].1.atlas_index == idx;
            assert(nodes1[i].1.atlas_index == idx);
        }
        if exists|i: int| 0 <= i < nodes1.len() && nodes1[i].1.atlas_index == idx {
            let i = choose|i: int|
                0 <= i < nodes1.len() && nodes1[i].1.atlas_index == idx;
            assert(m.nodes[i].1.atlas_index == idx);
        }
    }
    lemma_no_unused_entry_for_requested(m, c, k);
    assert(m1.nodes == nodes1 && m1.unused == m.unused);
    assert forall|i: int|
        0 <= i < m1.unused.len() implies m1.unused_entry_ok(m1.unused[i]) by {
        assert(m.unused_entry_ok(m.unused[i]));
        if m.unused[i].node_coordinate != NodeCoordinate::invalid_spec() {
            let j = choose|j: int|
                0 <= j < m.nodes.len() && m.nodes[j].0 == m.unused[i].node_coordinate
                    && m.nodes[j].1.atlas_index == m.unused[i].atlas_index
                    && m.nodes[j].1.requests == 0;
            assert(j != k);
            assert(nodes1[j].0 == m.unused[i].node_coordinate);
        }
    }
    assert forall|j: int|
        0 <= j < m1.nodes.len() && m1.nodes[j].1.requests == 0 implies exists|i: int|
        0 <= i < m1.unused.len()
            && m1.unused[i].node_coordinate == m1.nodes[j].0 by {
        assert(j != k);
        let i = choose|i: int|
            0 <= i < m.unused.len() && m.unused[i].node_coordinate == m.nodes[j].0;
        assert(m1.unused[i].node_coordinate == m1.nodes[j].0);
    }
    assert(m1.wf());
}

/// Requesting a coordinate preserves the invariant.
pub proof fn lemma_request_wf(m: AtlasModel, c: NodeCoordinate)
    requires
        m.wf(),
    ensures
        spec_request(m, c).0.wf(),
{
    if !m.existing.contains(c) {
    } else if m.resident(c) {
        lemma_key_index(m.nodes, c);
        let k = key_index(m.nodes, c);
        let n = m.nodes[k].1;
        if n.requests == u32::MAX {
        } else if n.requests == 0 {
            lemma_request_wf_zero(m, c);
        } else {
            lemma_request_wf_pos(m, c);
        }
    } else if m.unused.len() == 0 {
    } else {
        assert(c != NodeCoordinate::invalid_spec());
        lemma_allocate_wf(m, c, LoadingState::Loading);
    }
}

/// One harvesting step for the loading record `ld[i]`: a finished record of
/// a still-resident coordinate marks its node loaded, snapshots its
/// attachments, and joins the loaded output; a finished record of an evicted
/// coordinate is dropped; an unfinished record is kept.
pub open spec fn spec_harvest_from(
    m: AtlasModel,
    ld: Seq<(NodeCoordinate, LoadingModel)>,
    i: int,
) -> AtlasModel
    decreases ld.len() - i,
{
    if i < 0 || i >= ld.len() {
        m
    } else {
        let c = ld[i].0;
        let ln = ld[i].1;
        let m1 = if ln.finished() {
            if m.resident(c) {
                let k = key_index(m.nodes, c);
                let n = m.nodes[k].1;
                AtlasModel {
                    nodes: m.nodes.update(k, (c, AtlasNode { state: LoadingState::Loaded, ..n })),
                    data: m.data.update(n.atlas_index as int, ln.attachments),
                    loaded: m.loaded.push(ln),
                    ..m
                }
            } else {
                m
            }
        } else {
            AtlasModel { loading: m.loading.push(ld[i]), ..m }
        };
        spec_harvest_from(m1, ld, i + 1)
    }
}

/// One harvesting pass: the previous frame's load events are cleared, every
/// finished loading record is extracted, and those of still-resident
/// coordinates are promoted.
pub open spec fn spec_harvest(m: AtlasModel) -> AtlasModel {
    spec_harvest_from(
        AtlasModel { loading: Seq::empty(), load_events: Seq::empty(), ..m },
        m.loading,
        0,
    )
}

/// Harvesting the records `ld[i..]` preserves the invariant, provided the
/// records are well formed and none is already back in the loading map.
#[verifier::rlimit(60)]
pub proof fn lemma_harvest_from_wf(m: AtlasModel, ld: Seq<(NodeCoordinate, LoadingModel)>, i: int)
    requires
        m.wf(),
        forall|l: int| 0 <= l < ld.len() ==> (#[trigger] ld[l].1).wf(m.attachment_count as int),
        forall|l: int| 0 <= l < ld.len() ==> (#[trigger] ld[l].1).atlas_index < m.size,
        forall|l: int, j: int| 0 <= l < j < ld.len() ==> ld[l].0 != ld[j].0,
        forall|j: int, l: int|
            0 <= j < m.loading.len() && i <= l < ld.len() ==> m.loading[j].0 != ld[l].0,
    ensures
        spec_harvest_from(m, ld, i).wf(),
    decreases ld.len() - i,
{
    if i < 0 || i >= ld.len() {
    } else {
        let c = ld[i].0;
        let ln = ld[i].1;
        if ln.finished() {
            if m.resident(c) {
                lemma_key_index(m.nodes, c);
                let k = key_index(m.nodes, c);
                let n = m.nodes[k].1;
                let n1 = AtlasNode { state: LoadingState::Loaded, ..n };
                let nodes1 = m.nodes.update(k, (c, n1));
                let m1 = AtlasModel {
                    nodes: nodes1,
                    data: m.data.update(n.atlas_index as int, ln.attachments),
                    loaded: m.loaded.push(ln),
                    ..m
                };
                assert forall|idx: AtlasIndex| m1.slot_used(idx) == m.slot_used(idx) by {
                    if m.slot_used(idx) {
                        let w = choose|w: int|
                            0 <= w < m.nodes.len() && m.nodes[w].1.atlas_index == idx;
                        assert(nodes1[w].1.atlas_index == idx);
                    }
                    if m1.slot_used(idx) {
                        let w = choose|w: int|
                            0 <= w < nodes1.len() && nodes1[w].1.atlas_index == idx;
                        assert(m.nodes[w].1.atlas_index == idx);
                    }
                }
                assert(m1.wf_nodes());
                assert forall|w: int|
                    0 <= w < m1.unused.len() implies m1.unused_entry_ok(m1.unused[w]) by {
                    assert(m.unused_entry_ok(m.unused[w]));
                    if m.unused[w].node_coordinate != NodeCoordinate::invalid_spec() {
                        let j = choose|j: int|
                            0 <= j < m.nodes.len() && m.nodes[j].0 == m.unused[w].node_coordinate
                                && m.nodes[j].1.atlas_index == m.unused[w].atlas_index
                                && m.nodes[j].1.requests == 0;
                        assert(nodes1[j].0 == m.unused[w].node_coordinate);
                        assert(nodes1[j].1.atlas_index == m.unused[w].atlas_index);
                        assert(nodes1[j].1.requests == 0);
                    }
                }
                assert forall|j: int|
                    0 <= j < m1.nodes.len() && m1.nodes[j].1.requests == 0 implies exists|w: int|
                    0 <= w < m1.unused.len()
                        && m1.unused[w].node_coordinate == m1.nodes[j].0 by {
                    let w = choose|w: int|
                        0 <= w < m.unused.len() && m.unused[w].node_coordinate == m.nodes[j].0;
                    assert(m1.unused[w].node_coordinate == m1.nodes[j].0);
                }
                assert(m1.wf());
                lemma_harvest_from_wf(m1, ld, i + 1);
            } else {
                lemma_harvest_from_wf(m, ld, i + 1);
            }
        } else {
            let m1 = AtlasModel { loading: m.loading.push(ld[i]), ..m };
            assert forall|w: int|
                0 <= w < m1.unused.len() implies m1.unused_entry_ok(m1.unused[w]) by {
                assert(m.unused_entry_ok(m.unused[w]));
            }
            assert forall|p: int, q: int|
                0 <= p < q < m1.loading.len() implies m1.loading[p].0 != m1.loading[q].0 by {
                if q == m.loading.len() {
                    assert(m.loading[p].0 != ld[i].0);
                } else {
                    assert(m.loading[p].0 != m.loading[q].0);
                }
            }
            assert forall|j: int|
                0 <= j < m1.nodes.len() && m1.nodes[j].1.requests == 0 implies exists|w: int|
                0 <= w < m1.unused.len() && m1.unused[w].node_coordinate == m1.nodes[j].0 by {
                let w = choose|w: int|
                    0 <= w < m.unused.len() && m.unused[w].node_coordinate == m.nodes[j].0;
                assert(m1.unused[w].node_coordinate == m1.nodes[j].0);
            }
            assert(m1.wf());
            lemma_harvest_from_wf(m1, ld, i + 1);
        }
    }
}

/// Clearing the loading map and the load events keeps the invariant.
pub proof fn lemma_wf_cleared(m: AtlasModel)
    requires
        m.wf(),
    ensures
        (AtlasModel { loading: Seq::empty(), load_events: Seq::empty(), ..m }).wf(),
{
    let m0 = AtlasModel { loading: Seq::empty(), load_events: Seq::empty(), ..m };
    assert forall|w: int| 0 <= w < m0.unused.len() implies m0.unused_entry_ok(m0.unused[w]) by {
        assert(m.unused_entry_ok(m.unused[w]));
    }
    assert forall|j: int|
        0 <= j < m0.nodes.len() && m0.nodes[j].1.requests == 0 implies exists|w: int|
        0 <= w < m0.unused.len() && m0.unused[w].node_coordinate == m0.nodes[j].0 by {
        let w = choose|w: int|
            0 <= w < m.unused.len() && m.unused[w].node_coordinate == m.nodes[j].0;
        assert(m0.unused[w].node_coordinate == m0.nodes[j].0);
    }
    assert(m0.wf());
}

} // verus!
