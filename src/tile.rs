use crate::chance::draw_below;
use rand::rngs::StdRng;
use vstd::prelude::*;

verus! {

/// A kind of resource that can lie on a tile.
#[derive(Clone, Copy, Debug, PartialEq, Eq, Structural)]
pub enum Resource {
    Energy,
    Ore,
    PlaceOfInterest,
}

/// What a tile holds.
#[derive(Clone, Copy, Debug, PartialEq, Eq, Structural)]
pub enum TileContent {
    Empty,
    Obstacle,
    Resource(Resource),
}

/// One cell of the grid, with what it holds and when it was last observed.
#[derive(Clone, Copy, Debug, PartialEq, Eq, Structural)]
pub struct Tile {
    pub explored: bool,
    pub content: TileContent,
    /// Time of the most recent observation; meaningful only once `explored` is set.
    pub timestamp: u64,
}

/// The resource kind that an index drawn uniformly from `0..3` stands for.
pub open spec fn resource_of_index(i: int) -> Resource {
    if i == 0 {
        Resource::Energy
    } else if i == 1 {
        Resource::Ore
    } else {
        Resource::PlaceOfInterest
    }
}

impl Resource {
    /// Number of resource kinds.
    pub const KINDS: u32 = 3;

    /// The resource kind for an index in `0..KINDS`, in declaration order.
    pub fn from_index(i: u32) -> (r: Resource)
        ensures
            r == resource_of_index(i as int),
    {
        if i == 0 {
            Resource::Energy
        } else if i == 1 {
            Resource::Ore
        } else {
            Resource::PlaceOfInterest
        }
    }

    /// A resource kind chosen uniformly by the generator.
    pub fn random_resource(rng: &mut StdRng) -> (r: Resource)
        ensures
            exists|i: int| 0 <= i < Self::KINDS && r == resource_of_index(i),
    {
        let i = draw_below(rng, Self::KINDS);
        Self::from_index(i)
    }
}

impl Tile {
    /// A tile with the given content that has never been observed.
    pub fn new(explored: bool, content: TileContent) -> (t: Tile)
        ensures
            t.explored == explored,
            t.content == content,
            t.timestamp == 0,
    {
        Tile { explored, content, timestamp: 0 }
    }
}

} // verus!
