//! A bounded node atlas for streaming sparse, quadtree-organized terrain data.
//!
//! The atlas is a fixed-capacity cache keyed by hierarchical node coordinates.
//! Nodes become resident when a view requests them, are reference counted
//! across requesters, and fall back into a least-recently-freed queue once no
//! requester holds them; slots are reclaimed from the front of that queue when
//! a new coordinate must be loaded. Attachment loading is asynchronous: the
//! atlas records which attachments of each node are still pending and promotes
//! a node to its loaded output list once every attachment has arrived and the
//! node is still resident. A small save-slot counter throttles how many
//! readback save operations may be in flight at once.

pub mod atlas;
pub mod coordinate;
pub mod laws;
pub mod model;
pub mod node;
pub mod readback;
