//! Identifiers used throughout the atlas: hierarchical node coordinates,
//! dense slot indices, and attachment descriptors.

use vstd::prelude::*;

verus! {

/// A dense index identifying one physical storage slot of the atlas.
///
/// At any instant a slot holds at most one node, but the slot is reassigned
/// over time as nodes are evicted.
pub type AtlasIndex = u16;

/// Identifies one attachment (data channel) of a node, in `[0, attachment_count)`.
pub type AttachmentIndex = usize;

/// The hierarchical spatial key of a quadtree node: cube face, level of
/// detail, and position inside that level.
#[derive(Clone, Copy, PartialEq, Eq, Structural, Hash, Debug)]
pub struct NodeCoordinate {
    pub side: u32,
    pub lod: u32,
    pub x: u32,
    pub y: u32,
}

impl NodeCoordinate {
    /// The sentinel coordinate used to pre-populate empty slots; it never
    /// identifies a node of the dataset.
    pub open spec fn invalid_spec() -> NodeCoordinate {
        NodeCoordinate { side: u32::MAX, lod: u32::MAX, x: u32::MAX, y: u32::MAX }
    }

    /// Returns the sentinel coordinate.
    pub fn invalid() -> (c: NodeCoordinate)
        ensures
            c == NodeCoordinate::invalid_spec(),
    {
        NodeCoordinate { side: u32::MAX, lod: u32::MAX, x: u32::MAX, y: u32::MAX }
    }
}

/// A stand-in for the engine's handle to one loaded attachment texture. The
/// atlas never looks inside a handle; it only stores and hands them back, so
/// a handle is identified here by the bits of its asset id.
#[derive(Clone, Copy, PartialEq, Eq, Structural, Debug)]
pub struct AttachmentHandle {
    pub id: u128,
}

/// Descriptor of one data channel (for example height or albedo) stored per
/// node. The atlas only counts and iterates the configured attachments; their
/// format is the concern of the loading and upload collaborators.
pub struct AtlasAttachment {
    pub name: String,
    pub texture_size: u32,
}

} // verus!
