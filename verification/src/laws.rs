//! Global guarantees of the node atlas, proved once over the model: every
//! executable operation ensures that its result follows the corresponding
//! transition function, so these statements carry over to any sequence of
//! calls.

use vstd::prelude::*;

use crate::coordinate::{AtlasIndex, NodeCoordinate};
use crate::model::{
    has_key, has_slot, key_index, lemma_allocate_wf, lemma_key_index, lemma_key_index_unique,
    lemma_no_unused_entry_for_requested, lemma_release_wf, lemma_request_wf, lemma_slot_index,
    slot_index,
    spec_fulfill, spec_get_or_allocate, spec_harvest, spec_harvest_from, spec_release,
    spec_release_all, spec_request, spec_request_all, AtlasError, AtlasModel,
};
use crate::node::{AtlasNode, LoadingModel, LoadingState, UnusedNode};

use vstd::set_lib::lemma_len_subset;
use vstd::set_lib::lemma_int_range;
use vstd::set_lib::set_int_range;

verus! {

/// Capacity bound: however requests arrive, the resident nodes never exceed
/// the configured slot count.
pub proof fn lemma_capacity_bound(m: AtlasModel)
    requires
        m.wf(),
    ensures
        m.nodes.len() <= m.size,
{
    let ids = Seq::new(m.nodes.len(), |i: int| m.nodes[i].1.atlas_index as int);
    assert(ids.no_duplicates()) by {
        assert forall|i: int, j: int|
            0 <= i < ids.len() && 0 <= j < ids.len() && i != j implies ids[i] != ids[j] by {
            if i < j {
                assert(m.nodes[i].1.atlas_index != m.nodes[j].1.atlas_index);
            } else {
                assert(m.nodes[j].1.atlas_index != m.nodes[i].1.atlas_index);
            }
        }
    }
    ids.unique_seq_to_set();
    let range = set_int_range(0, m.size as int);
    lemma_int_range(0, m.size as int);
    assert(ids.to_set() <= range) by {
        assert forall|x: int| ids.to_set().contains(x) implies range.contains(x) by {
            let i = choose|i: int| 0 <= i < ids.len() && ids[i] == x;
            assert(m.nodes[i].1.atlas_index < m.size);
        }
    }
    lemma_len_subset(ids.to_set(), range);
}

/// Reference counting: a resident node is eviction-eligible, that is, stands
/// in the unused queue, exactly when its net outstanding request count is
/// zero.
pub proof fn lemma_eviction_eligibility(m: AtlasModel, c: NodeCoordinate)
    requires
        m.wf(),
        m.resident(c),
    ensures
        (exists|i: int| 0 <= i < m.unused.len() && m.unused[i].node_coordinate == c)
            <==> m.node(c).requests == 0,
{
    lemma_key_index(m.nodes, c);
    let k = key_index(m.nodes, c);
    if m.node(c).requests == 0 {
        assert(exists|i: int|
            0 <= i < m.unused.len() && m.unused[i].node_coordinate == m.nodes[k].0);
    } else {
        lemma_no_unused_entry_for_requested(m, c, k);
    }
}

/// How many times `c` occurs in `cs[i..]`.
pub open spec fn occurrences_from(cs: Seq<NodeCoordinate>, i: int, c: NodeCoordinate) -> int
    decreases cs.len() - i,
{
    if i < 0 || i >= cs.len() {
        0
    } else {
        (if cs[i] == c {
            1int
        } else {
            0int
        }) + occurrences_from(cs, i + 1, c)
    }
}

proof fn lemma_occurrences_nonneg(cs: Seq<NodeCoordinate>, i: int, c: NodeCoordinate)
    ensures
        occurrences_from(cs, i, c) >= 0,
    decreases cs.len() - i,
{
    if 0 <= i < cs.len() {
        lemma_occurrences_nonneg(cs, i + 1, c);
    }
}

/// One released coordinate never evicts the node at position `k`: its
/// coordinate and slot stay, and its count drops by one exactly when it is
/// the released coordinate, inside the dataset, and the step succeeds.
proof fn lemma_release_step_keeps(m: AtlasModel, x: NodeCoordinate, c: NodeCoordinate, k: int)
    requires
        m.wf(),
        0 <= k < m.nodes.len(),
        m.nodes[k].0 == c,
        m.nodes[k].1.requests > 0,
    ensures
        ({
            let s = spec_release(m, x);
            &&& s.0.nodes.len() == m.nodes.len()
            &&& s.0.nodes[k].0 == c
            &&& s.0.nodes[k].1.atlas_index == m.nodes[k].1.atlas_index
            &&& m.nodes[k].1.requests - 1 <= s.0.nodes[k].1.requests <= m.nodes[k].1.requests
            &&& (x != c || s.1 is Some) ==> s.0.nodes[k].1.requests == m.nodes[k].1.requests
        }),
{
    let s = spec_release(m, x);
    if !m.existing.contains(x) {
    } else if !m.resident(x) {
    } else {
        lemma_key_index(m.nodes, x);
        let kx = key_index(m.nodes, x);
        if m.nodes[kx].1.requests == 0 {
            assert(kx != k);
        } else {
            if x == c {
                lemma_key_index_unique(m.nodes, c, k);
                assert(kx == k);
            } else {
                assert(m.nodes[kx].0 == x);
                assert(kx != k);
            }
        }
    }
}

/// One requested coordinate never evicts a node with an outstanding
/// request: the node at position `k` keeps its coordinate and slot, and its
/// count never drops.
proof fn lemma_request_step_keeps(m: AtlasModel, x: NodeCoordinate, c: NodeCoordinate, k: int)
    requires
        m.wf(),
        0 <= k < m.nodes.len(),
        m.nodes[k].0 == c,
        m.nodes[k].1.requests > 0,
    ensures
        ({
            let s = spec_request(m, x);
            &&& m.nodes.len() <= s.0.nodes.len()
            &&& s.0.nodes[k].0 == c
            &&& s.0.nodes[k].1.atlas_index == m.nodes[k].1.atlas_index
            &&& s.0.nodes[k].1.requests >= m.nodes[k].1.requests
        }),
{
    let s = spec_request(m, x);
    if !m.existing.contains(x) {
    } else if m.resident(x) {
        lemma_key_index(m.nodes, x);
        let kx = key_index(m.nodes, x);
        if x == c {
            lemma_key_index_unique(m.nodes, c, k);
        } else {
            assert(m.nodes[kx].0 == x);
            assert(kx != k);
        }
    } else if m.unused.len() == 0 {
    } else {
        // The evicted entry cannot name `c`, which has an outstanding
        // request, so eviction replaces some other position.
        let u = m.unused[0];
        assert(m.unused_entry_ok(u));
        assert(u.node_coordinate != c) by {
            if u.node_coordinate == c {
                assert(c != NodeCoordinate::invalid_spec());
                let j = choose|j: int|
                    0 <= j < m.nodes.len() && m.nodes[j].0 == c
                        && m.nodes[j].1.atlas_index == u.atlas_index
                        && m.nodes[j].1.requests == 0;
                assert(j == k);
            }
        }
        if has_key(m.nodes, u.node_coordinate) {
            lemma_key_index(m.nodes, u.node_coordinate);
            let ku = key_index(m.nodes, u.node_coordinate);
            assert(m.nodes[ku].0 == u.node_coordinate);
            assert(ku != k);
        }
    }
}

/// Through any release queue, the node at position `k` stays resident in
/// its slot while it is released fewer times than its outstanding count.
proof fn lemma_release_all_keeps(
    m: AtlasModel,
    cs: Seq<NodeCoordinate>,
    i: int,
    c: NodeCoordinate,
    k: int,
)
    requires
        m.wf(),
        0 <= k < m.nodes.len(),
        m.nodes[k].0 == c,
        m.nodes[k].1.requests > occurrences_from(cs, i, c),
    ensures
        ({
            let s = spec_release_all(m, cs, i);
            &&& s.0.wf()
            &&& s.0.nodes.len() == m.nodes.len()
            &&& s.0.nodes[k].0 == c
            &&& s.0.nodes[k].1.atlas_index == m.nodes[k].1.atlas_index
            &&& s.0.nodes[k].1.requests > 0
        }),
    decreases cs.len() - i,
{
    lemma_occurrences_nonneg(cs, i, c);
    if i < 0 || i >= cs.len() {
    } else {
        lemma_occurrences_nonneg(cs, i + 1, c);
        let s1 = spec_release(m, cs[i]);
        lemma_release_step_keeps(m, cs[i], c, k);
        lemma_release_wf(m, cs[i]);
        if s1.1 is Some {
        } else {
            lemma_release_all_keeps(s1.0, cs, i + 1, c, k);
        }
    }
}

/// Through any request queue, the node at position `k` stays resident in
/// its slot while its count is positive.
proof fn lemma_request_all_keeps(
    m: AtlasModel,
    cs: Seq<NodeCoordinate>,
    i: int,
    c: NodeCoordinate,
    k: int,
)
    requires
        m.wf(),
        0 <= k < m.nodes.len(),
        m.nodes[k].0 == c,
        m.nodes[k].1.requests > 0,
    ensures
        ({
            let s = spec_request_all(m, cs, i);
            &&& s.0.wf()
            &&& m.nodes.len() <= s.0.nodes.len()
            &&& s.0.nodes[k].0 == c
            &&& s.0.nodes[k].1.atlas_index == m.nodes[k].1.atlas_index
            &&& s.0.nodes[k].1.requests > 0
        }),
    decreases cs.len() - i,
{
    if i < 0 || i >= cs.len() {
    } else {
        let s1 = spec_request(m, cs[i]);
        lemma_request_step_keeps(m, cs[i], c, k);
        lemma_request_wf(m, cs[i]);
        if s1.1 is Some {
        } else {
            lemma_request_all_keeps(s1.0, cs, i + 1, c, k);
        }
    }
}

/// Reference counting, residency half: through one fulfillment pass, a
/// resident node that is released fewer times than its net outstanding
/// request count — so the count stays positive — remains resident in the
/// same slot.
pub proof fn lemma_requested_node_stays_resident(
    m: AtlasModel,
    released: Seq<NodeCoordinate>,
    requested: Seq<NodeCoordinate>,
    c: NodeCoordinate,
)
    requires
        m.wf(),
        m.resident(c),
        m.node(c).requests > occurrences_from(released, 0, c),
    ensures
        spec_fulfill(m, released, requested).0.resident(c),
        spec_fulfill(m, released, requested).0.node(c).atlas_index == m.node(c).atlas_index,
        spec_fulfill(m, released, requested).0.node(c).requests > 0,
{
    lemma_key_index(m.nodes, c);
    let k = key_index(m.nodes, c);
    let r = spec_release_all(m, released, 0);
    lemma_release_all_keeps(m, released, 0, c, k);
    let f = spec_fulfill(m, released, requested);
    if r.1 is Some {
        assert(f.0 == r.0);
        lemma_key_index_unique(r.0.nodes, c, k);
    } else {
        lemma_request_all_keeps(r.0, requested, 0, c, k);
        lemma_key_index_unique(f.0.nodes, c, k);
    }
    assert(f.0.nodes[k].0 == c);
    assert(f.0.resident(c));
}

/// Idempotent allocation: allocating a not-yet-resident coordinate and then
/// allocating it again returns the same slot both times, does not change the
/// atlas the second time, and consumes exactly one unused slot in total.
pub proof fn lemma_allocate_idempotent(m: AtlasModel, c: NodeCoordinate)
    requires
        m.wf(),
        !m.resident(c),
        c != NodeCoordinate::invalid_spec(),
        m.unused.len() > 0,
    ensures
        ({
            let s1 = spec_get_or_allocate(m, c);
            let s2 = spec_get_or_allocate(s1.0, c);
            &&& s1.1 == Ok::<AtlasIndex, AtlasError>(m.unused[0].atlas_index)
            &&& s2.0 == s1.0
            &&& s2.1 == s1.1
            &&& s1.0.unused.len() == m.unused.len() - 1
        }),
{
    let s1 = spec_get_or_allocate(m, c);
    lemma_allocate_wf(m, c, crate::node::LoadingState::Loaded);
    assert(s1.0.resident(c));
    assert(s1.0.node(c).atlas_index == m.unused[0].atlas_index);
}

/// In a well-formed atlas, no unused entry holds the slot of a node with
/// an outstanding request.
proof fn lemma_slot_not_unused_when_requested(m: AtlasModel, c: NodeCoordinate, k: int)
    requires
        m.wf(),
        0 <= k < m.nodes.len(),
        m.nodes[k].0 == c,
        m.nodes[k].1.requests > 0,
    ensures
        forall|i: int|
            0 <= i < m.unused.len()
                ==> m.unused[i].atlas_index != m.nodes[k].1.atlas_index,
{
    let idx = m.nodes[k].1.atlas_index;
    assert forall|i: int|
        0 <= i < m.unused.len() implies m.unused[i].atlas_index != idx by {
        assert(m.unused_entry_ok(m.unused[i]));
        if m.unused[i].atlas_index == idx {
            if m.unused[i].node_coordinate == NodeCoordinate::invalid_spec() {
                assert(m.slot_used(idx));
            } else {
                let j = choose|j: int|
                    0 <= j < m.nodes.len() && m.nodes[j].0 == m.unused[i].node_coordinate
                        && m.nodes[j].1.atlas_index == m.unused[i].atlas_index
                        && m.nodes[j].1.requests == 0;
                assert(j == k);
            }
        }
    }
}

/// Reuse before eviction: a coordinate with one outstanding request that is
/// released and re-requested within the same fulfillment pass keeps its
/// slot, and the pass leaves the atlas exactly as it was: nothing is
/// evicted.
#[verifier::rlimit(60)]
pub proof fn lemma_reuse_before_eviction(m: AtlasModel, c: NodeCoordinate)
    requires
        m.wf(),
        m.existing.contains(c),
        m.resident(c),
        m.node(c).requests == 1,
    ensures
        spec_fulfill(m, seq![c], seq![c]).1 is None,
        spec_fulfill(m, seq![c], seq![c]).0 == m,
{
    assert(seq![c][0] == c);
    lemma_key_index(m.nodes, c);
    let k = key_index(m.nodes, c);
    let n = m.nodes[k].1;
    let n0 = AtlasNode { requests: 0, ..n };
    let e = UnusedNode { node_coordinate: c, atlas_index: n.atlas_index };
    let m1 = spec_release(m, c).0;
    lemma_release_wf(m, c);
    assert(m1.nodes == m.nodes.update(k, (c, n0)));
    assert(m1.unused == m.unused.push(e));
    assert(spec_release(m, c).1 is None);
    // The one-element release queue applies exactly this step.
    assert(spec_release_all(m1, seq![c], 1) == (m1, None::<AtlasError>));
    assert(spec_release_all(m, seq![c], 0) == (m1, None::<AtlasError>));
    // In the intermediate state the node is resident at the same position
    // with zero requests, and its unused entry is the one just pushed.
    lemma_key_index_unique(m1.nodes, c, k);
    assert(m1.resident(c));
    lemma_slot_not_unused_when_requested(m, c, k);
    lemma_slot_index(m1.unused, n.atlas_index);
    let p = slot_index(m1.unused, n.atlas_index);
    assert(m1.unused[m.unused.len() as int].atlas_index == n.atlas_index);
    assert(has_slot(m1.unused, n.atlas_index));
    assert(p == m.unused.len()) by {
        if p < m.unused.len() {
            assert(m1.unused[p] == m.unused[p]);
        }
    }
    let s = spec_request(m1, c);
    assert(s.1 is None);
    assert(s.0.unused == m1.unused.remove(p));
    assert(s.0.unused =~= m.unused);
    assert(s.0.nodes == m1.nodes.update(k, (c, AtlasNode { requests: 1, ..n0 })));
    assert(s.0.nodes =~= m.nodes) by {
        assert((AtlasNode { requests: 1, ..n0 }) == n);
        assert(m.nodes[k] == (c, n));
    }
    assert(spec_request_all(s.0, seq![c], 1) == (s.0, None::<AtlasError>));
    assert(spec_request_all(m1, seq![c], 0) == (s.0, None::<AtlasError>));
    assert(s.0 =~= m);
    assert(spec_fulfill(m, seq![c], seq![c]) == (s.0, None::<AtlasError>));
}

/// A request for an absent dataset coordinate allocates it into the front
/// slot of the unused queue, and no other absent coordinate becomes
/// resident.
proof fn lemma_request_allocates(m: AtlasModel, c: NodeCoordinate)
    requires
        m.wf(),
        m.existing.contains(c),
        !m.resident(c),
        m.unused.len() > 0,
    ensures
        ({
            let s = spec_request(m, c);
            &&& s.1 is None
            &&& s.0.wf()
            &&& s.0.resident(c)
            &&& s.0.node(c).atlas_index == m.unused[0].atlas_index
            &&& s.0.node(c).requests == 1
            &&& s.0.unused == m.unused.drop_first()
            &&& forall|d: NodeCoordinate| d != c && !m.resident(d) ==> !s.0.resident(d)
        }),
{
    assert(c != NodeCoordinate::invalid_spec());
    lemma_allocate_wf(m, c, LoadingState::Loading);
    let s = spec_request(m, c);
    let u = m.unused[0];
    assert forall|d: NodeCoordinate| d != c && !m.resident(d) implies !s.0.resident(d) by {
        if s.0.resident(d) {
            let w = choose|w: int| 0 <= w < s.0.nodes.len() && s.0.nodes[w].0 == d;
            if has_key(m.nodes, u.node_coordinate) {
                lemma_key_index(m.nodes, u.node_coordinate);
                assert(m.nodes[w].0 == d);
            } else {
                if w < m.nodes.len() {
                    assert(m.nodes[w].0 == d);
                }
            }
        }
    }
}

/// LRU ordering, chained: with the unused queue holding at least three
/// slots, three requests for distinct absent dataset coordinates in one
/// pass succeed and are assigned the first three queued slots, front to
/// back — the least recently freed first.
#[verifier::rlimit(100)]
pub proof fn lemma_lru_order(m: AtlasModel, x: NodeCoordinate, y: NodeCoordinate, z: NodeCoordinate)
    requires
        m.wf(),
        m.unused.len() >= 3,
        m.existing.contains(x) && m.existing.contains(y) && m.existing.contains(z),
        !m.resident(x) && !m.resident(y) && !m.resident(z),
        x != y && x != z && y != z,
    ensures
        ({
            let s = spec_request_all(m, seq![x, y, z], 0);
            &&& s.1 is None
            &&& s.0.resident(x) && s.0.node(x).atlas_index == m.unused[0].atlas_index
            &&& s.0.resident(y) && s.0.node(y).atlas_index == m.unused[1].atlas_index
            &&& s.0.resident(z) && s.0.node(z).atlas_index == m.unused[2].atlas_index
        }),
{
    let cs = seq![x, y, z];
    assert(cs[0] == x && cs[1] == y && cs[2] == z);
    // First request: x takes the front slot.
    lemma_request_allocates(m, x);
    let m1 = spec_request(m, x).0;
    assert(m1.unused[0] == m.unused[1] && m1.unused[1] == m.unused[2]);
    lemma_key_index(m1.nodes, x);
    let kx = key_index(m1.nodes, x);
    // Second request: y takes the next slot; x is untouched.
    lemma_request_allocates(m1, y);
    let m2 = spec_request(m1, y).0;
    assert(m2.unused[0] == m.unused[2]);
    lemma_request_step_keeps(m1, y, x, kx);
    lemma_key_index(m2.nodes, y);
    let ky = key_index(m2.nodes, y);
    // Third request: z takes the third slot; x and y are untouched.
    lemma_request_allocates(m2, z);
    let m3 = spec_request(m2, z).0;
    lemma_request_step_keeps(m2, z, x, kx);
    lemma_request_step_keeps(m2, z, y, ky);
    lemma_key_index_unique(m3.nodes, x, kx);
    lemma_key_index_unique(m3.nodes, y, ky);
    assert(spec_request_all(m3, cs, 3) == (m3, None::<AtlasError>));
    assert(spec_request_all(m2, cs, 2) == (m3, None::<AtlasError>));
    assert(spec_request_all(m1, cs, 1) == (m3, None::<AtlasError>));
    assert(spec_request_all(m, cs, 0) == (m3, None::<AtlasError>));
}

/// LRU ordering, enqueue side: a node whose last request is released joins
/// the back of the unused queue, so slots freed earlier stand closer to the
/// front.
pub proof fn lemma_release_enqueues_lru(m: AtlasModel, c: NodeCoordinate)
    requires
        m.wf(),
        m.existing.contains(c),
        m.resident(c),
        m.node(c).requests == 1,
    ensures
        spec_release(m, c).1 is None,
        spec_release(m, c).0.unused == m.unused.push(
            UnusedNode { node_coordinate: c, atlas_index: m.node(c).atlas_index },
        ),
        spec_release(m, c).0.wf(),
{
    lemma_key_index(m.nodes, c);
    lemma_release_wf(m, c);
}

/// LRU ordering, dequeue side: allocating an absent coordinate always
/// reuses the slot at the front of the unused queue, the least recently
/// freed one, and pops it; so successive allocations reuse freed slots in
/// exactly the order in which they were freed.
pub proof fn lemma_allocate_takes_front(m: AtlasModel, c: NodeCoordinate)
    requires
        m.wf(),
        !m.resident(c),
        c != NodeCoordinate::invalid_spec(),
        m.unused.len() > 0,
    ensures
        spec_get_or_allocate(m, c).1 == Ok::<AtlasIndex, AtlasError>(m.unused[0].atlas_index),
        spec_get_or_allocate(m, c).0.unused == m.unused.drop_first(),
        spec_get_or_allocate(m, c).0.wf(),
{
    lemma_allocate_wf(m, c, LoadingState::Loaded);
}

/// Harvesting correctness: one pass promotes to the loaded output, in
/// order, exactly the loading records whose attachments have all arrived
/// and whose coordinate is still resident; unfinished records stay in the
/// loading map, and finished records of evicted coordinates are dropped.
pub proof fn lemma_harvest_correct(m: AtlasModel)
    requires
        m.wf(),
    ensures
        spec_harvest(m).loaded == m.loaded + m.loading.filter(
            |p: (NodeCoordinate, LoadingModel)| p.1.finished() && m.resident(p.0),
        ).map_values(|p: (NodeCoordinate, LoadingModel)| p.1),
        spec_harvest(m).loading == m.loading.filter(
            |p: (NodeCoordinate, LoadingModel)| !p.1.finished(),
        ),
{
    let m0 = AtlasModel { loading: Seq::empty(), load_events: Seq::empty(), ..m };
    lemma_harvest_from_out(m0, m.loading, 0);
    let pred0 = (|p: (NodeCoordinate, LoadingModel)| p.1.finished() && m0.resident(p.0));
    let pred = (|p: (NodeCoordinate, LoadingModel)| p.1.finished() && m.resident(p.0));
    assert(pred0 =~= pred);
    assert(m.loading.subrange(0, m.loading.len() as int) =~= m.loading);
    assert(m0.loading + m.loading.filter(|p: (NodeCoordinate, LoadingModel)| !p.1.finished())
        =~= m.loading.filter(|p: (NodeCoordinate, LoadingModel)| !p.1.finished()));
}

/// Harvesting `ld[i..]` appends to the loaded output exactly the finished
/// records of still-resident coordinates, in order, and appends the
/// unfinished records to the loading map; residency itself is unchanged.
#[verifier::rlimit(60)]
proof fn lemma_harvest_from_out(m: AtlasModel, ld: Seq<(NodeCoordinate, LoadingModel)>, i: int)
    requires
        0 <= i <= ld.len(),
    ensures
        forall|c: NodeCoordinate| #[trigger] spec_harvest_from(m, ld, i).resident(c)
            == m.resident(c),
        spec_harvest_from(m, ld, i).loaded == m.loaded + ld.subrange(i, ld.len() as int).filter(
            |p: (NodeCoordinate, LoadingModel)| p.1.finished() && m.resident(p.0),
        ).map_values(|p: (NodeCoordinate, LoadingModel)| p.1),
        spec_harvest_from(m, ld, i).loading == m.loading + ld.subrange(i, ld.len() as int).filter(
            |p: (NodeCoordinate, LoadingModel)| !p.1.finished(),
        ),
    decreases ld.len() - i,
{
    let pred = (|p: (NodeCoordinate, LoadingModel)| p.1.finished() && m.resident(p.0));
    let keep = (|p: (NodeCoordinate, LoadingModel)| !p.1.finished());
    let snd = (|p: (NodeCoordinate, LoadingModel)| p.1);
    let r = spec_harvest_from(m, ld, i);
    reveal_with_fuel(Seq::filter, 3);
    if i == ld.len() {
        let tail = ld.subrange(i, ld.len() as int);
        assert(tail =~= Seq::<(NodeCoordinate, LoadingModel)>::empty());
        assert(tail.filter(pred).len() == 0);
        assert(tail.filter(keep).len() == 0);
        assert(r.loaded =~= m.loaded + tail.filter(pred).map_values(snd));
        assert(r.loading =~= m.loading + tail.filter(keep));
    } else {
        let c = ld[i].0;
        let ln = ld[i].1;
        let single = seq![ld[i]];
        assert(single.drop_last() =~= Seq::<(NodeCoordinate, LoadingModel)>::empty());
        assert(single.filter(pred) =~= (if pred(ld[i]) {
            single
        } else {
            Seq::<(NodeCoordinate, LoadingModel)>::empty()
        }));
        assert(single.filter(keep) =~= (if keep(ld[i]) {
            single
        } else {
            Seq::<(NodeCoordinate, LoadingModel)>::empty()
        }));
        let tail = ld.subrange(i + 1, ld.len() as int);
        assert(ld.subrange(i, ld.len() as int) =~= single + tail);
        Seq::filter_distributes_over_add(single, tail, pred);
        Seq::filter_distributes_over_add(single, tail, keep);
        if ln.finished() && m.resident(c) {
            lemma_key_index(m.nodes, c);
            let k = key_index(m.nodes, c);
            let n = m.nodes[k].1;
            let m1 = AtlasModel {
                nodes: m.nodes.update(k, (c, AtlasNode { state: LoadingState::Loaded, ..n })),
                data: m.data.update(n.atlas_index as int, ln.attachments),
                loaded: m.loaded.push(ln),
                ..m
            };
            assert forall|c2: NodeCoordinate| #[trigger] m1.resident(c2) == m.resident(c2) by {
                if m.resident(c2) {
                    let w = choose|w: int| 0 <= w < m.nodes.len() && m.nodes[w].0 == c2;
                    assert(m1.nodes[w].0 == c2);
                }
                if m1.resident(c2) {
                    let w = choose|w: int| 0 <= w < m1.nodes.len() && m1.nodes[w].0 == c2;
                    assert(m.nodes[w].0 == c2);
                }
            }
            lemma_harvest_from_out(m1, ld, i + 1);
            let pred1 = (|p: (NodeCoordinate, LoadingModel)| p.1.finished() && m1.resident(p.0));
            assert(pred1 =~= pred);
            assert(pred(ld[i]));
            assert(r.loaded == m1.loaded + tail.filter(pred).map_values(snd));
            assert((single + tail.filter(pred)).map_values(snd) =~= single.map_values(snd)
                + tail.filter(pred).map_values(snd));
            assert(m1.loaded =~= m.loaded + single.map_values(snd));
            assert(m.loaded + (single.filter(pred) + tail.filter(pred)).map_values(snd)
                =~= m1.loaded + tail.filter(pred).map_values(snd));
            assert(m.loading + (single.filter(keep) + tail.filter(keep)) =~= m1.loading
                + tail.filter(keep));
        } else if ln.finished() {
            lemma_harvest_from_out(m, ld, i + 1);
            assert(!pred(ld[i]) && !keep(ld[i]));
            assert(m.loaded + (single.filter(pred) + tail.filter(pred)).map_values(snd)
                =~= m.loaded + tail.filter(pred).map_values(snd));
            assert(m.loading + (single.filter(keep) + tail.filter(keep)) =~= m.loading
                + tail.filter(keep));
        } else {
            let m1 = AtlasModel { loading: m.loading.push(ld[i]), ..m };
            lemma_harvest_from_out(m1, ld, i + 1);
            let pred1 = (|p: (NodeCoordinate, LoadingModel)| p.1.finished() && m1.resident(p.0));
            assert(pred1 =~= pred);
            assert(keep(ld[i]) && !pred(ld[i]));
            assert(r.loading == m1.loading + tail.filter(keep));
            assert(m.loading + (single.filter(keep) + tail.filter(keep)) =~= m1.loading
                + tail.filter(keep));
            assert(m.loaded + (single.filter(pred) + tail.filter(pred)).map_values(snd)
                =~= m.loaded + tail.filter(pred).map_values(snd));
        }
    }
}

/// Save-slot throttling: the save-slot capacity is a `u32`, so it is never
/// negative, and in a well-formed atlas it never exceeds its configured
/// maximum. A completed save returns exactly one unit, as the contract of
/// [`crate::atlas::NodeAtlas::finish_save`] states.
pub proof fn lemma_save_slot_bound(m: AtlasModel)
    requires
        m.wf(),
    ensures
        m.slots <= m.max_slots,
{
}

} // verus!
