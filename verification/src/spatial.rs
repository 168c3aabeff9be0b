//! Spatial nodes and the relations between their spaces.

use vstd::prelude::*;

use crate::geometry::PictureRect;
use crate::scalar::Scalar;

verus! {

/// A node of the spatial tree.
#[derive(Clone, Copy, Debug, PartialEq, Eq, Hash, Structural)]
pub struct SpatialNodeIndex(pub u32);

/// The ratio of device pixels to the units of a surface.
#[derive(Clone, Copy, Debug, PartialEq, Eq, Structural)]
pub struct DevicePixelScale(pub Scalar);

/// A scale and an offset per axis.
#[derive(Clone, Copy, Debug, PartialEq, Eq, Structural)]
pub struct ScaleOffset {
    pub scale_x: Scalar,
    pub scale_y: Scalar,
    pub offset_x: Scalar,
    pub offset_y: Scalar,
}

impl ScaleOffset {
    /// The mapping that leaves every point where it is.
    pub open spec fn identity_value() -> Self {
        ScaleOffset {
            scale_x: Scalar::one_value(),
            scale_y: Scalar::one_value(),
            offset_x: Scalar::zero_value(),
            offset_y: Scalar::zero_value(),
        }
    }

    /// The mapping that leaves every point where it is.
    pub fn identity() -> (r: Self)
        ensures
            r == Self::identity_value(),
    {
        ScaleOffset {
            scale_x: Scalar::one(),
            scale_y: Scalar::one(),
            offset_x: Scalar::zero(),
            offset_y: Scalar::zero(),
        }
    }
}

/// How the space of one node maps to that of another.
#[derive(Clone, Copy, Debug, PartialEq, Eq, Structural)]
pub enum CoordinateSpaceMapping {
    /// The two spaces are the same.
    Local,
    /// The two spaces differ by a scale and an offset.
    ScaleOffset(ScaleOffset),
    /// The two spaces differ by a general transform.
    Transform,
}

/// A mapping into the space of a surface, with the bounds of what it may map.
#[derive(Clone, Copy, Debug, PartialEq, Eq, Structural)]
pub struct SpaceMapper {
    pub ref_spatial_node_index: SpatialNodeIndex,
    pub bounds: PictureRect,
}

impl SpaceMapper {
    /// A mapper into the space of `ref_spatial_node_index`.
    pub fn new(ref_spatial_node_index: SpatialNodeIndex, bounds: PictureRect) -> (r: Self)
        ensures
            r == (SpaceMapper { ref_spatial_node_index, bounds }),
    {
        SpaceMapper { ref_spatial_node_index, bounds }
    }
}

/// How the space of `from` maps to that of `to`.
#[derive(Clone, Copy, Debug, PartialEq, Eq, Structural)]
pub struct Relation {
    pub from: SpatialNodeIndex,
    pub to: SpatialNodeIndex,
    pub mapping: CoordinateSpaceMapping,
}

/// The mapping between every two nodes that `relations` relates, where a later
/// relation replaces an earlier one.
pub open spec fn relation_map(relations: Seq<Relation>) -> Map<
    (SpatialNodeIndex, SpatialNodeIndex),
    CoordinateSpaceMapping,
>
    decreases relations.len(),
{
    if relations.len() == 0 {
        Map::empty()
    } else {
        let last = relations.last();
        relation_map(relations.drop_last()).insert((last.from, last.to), last.mapping)
    }
}

/// Two nodes that are related stay so when relations follow.
proof fn lemma_relation_stays(
    relations: Seq<Relation>,
    n: int,
    nodes: (SpatialNodeIndex, SpatialNodeIndex),
)
    requires
        0 <= n <= relations.len(),
        relation_map(relations.take(n)).dom().contains(nodes),
    ensures
        relation_map(relations).dom().contains(nodes),
    decreases relations.len(),
{
    if n == relations.len() {
        assert(relations.take(n) =~= relations);
    } else {
        assert(relations.drop_last().take(n) =~= relations.take(n));
        lemma_relation_stays(relations.drop_last(), n, nodes);
    }
}

/// The root of the spatial tree, and the relations between nodes that have been
/// worked out.
pub struct SpatialTree {
    root: SpatialNodeIndex,
    relations: Vec<Relation>,
}

impl View for SpatialTree {
    type V = Map<(SpatialNodeIndex, SpatialNodeIndex), CoordinateSpaceMapping>;

    closed spec fn view(&self) -> Self::V {
        relation_map(self.relations@)
    }
}

impl SpatialTree {
    /// The node of the root reference frame.
    pub closed spec fn root_node(&self) -> SpatialNodeIndex {
        self.root
    }

    /// A tree in which no two nodes have been related yet.
    pub fn new(root: SpatialNodeIndex) -> (r: Self)
        ensures
            r.root_node() == root,
            r@ == Map::<
                (SpatialNodeIndex, SpatialNodeIndex),
                CoordinateSpaceMapping,
            >::empty(),
    {
        SpatialTree { root, relations: Vec::new() }
    }

    /// Records how the space of `from` maps to that of `to`.
    pub fn set_relative_transform(
        &mut self,
        from: SpatialNodeIndex,
        to: SpatialNodeIndex,
        mapping: CoordinateSpaceMapping,
    )
        ensures
            final(self)@ == old(self)@.insert((from, to), mapping),
            final(self).root_node() == old(self).root_node(),
    {
        self.relations.push(Relation { from, to, mapping });
        proof {
            assert(self.relations@.drop_last() =~= old(self).relations@);
        }
    }

    /// The node of the root reference frame.
    pub fn root_reference_frame_index(&self) -> (r: SpatialNodeIndex)
        ensures
            r == self.root_node(),
    {
        self.root
    }

    /// Whether it is known how the space of `from` maps to that of `to`.
    pub fn relates(&self, from: SpatialNodeIndex, to: SpatialNodeIndex) -> (r: bool)
        ensures
            r == self@.dom().contains((from, to)),
    {
        let mut n: usize = 0;
        assert(self.relations@.take(0) =~= Seq::<Relation>::empty());
        while n < self.relations.len()
            invariant
                n <= self.relations@.len(),
                !relation_map(self.relations@.take(n as int)).dom().contains((from, to)),
            decreases self.relations@.len() - n,
        {
            let relation = self.relations[n];
            proof {
                assert(self.relations@.take(n + 1).drop_last() =~= self.relations@.take(n as int));
                assert(self.relations@.take(n + 1).last() == relation);
            }
            if relation.from == from && relation.to == to {
                proof {
                    lemma_relation_stays(self.relations@, n + 1, (from, to));
                }
                return true;
            }
            n = n + 1;
        }
        assert(self.relations@.take(n as int) =~= self.relations@);
        false
    }

    /// How the space of `from` maps to that of `to`.
    pub fn get_relative_transform(&self, from: SpatialNodeIndex, to: SpatialNodeIndex) -> (r:
        CoordinateSpaceMapping)
        requires
            self@.dom().contains((from, to)),
        ensures
            r == self@[(from, to)],
    {
        let mut n: usize = self.relations.len();
        proof {
            assert(self.relations@.take(n as int) =~= self.relations@);
        }
        while n > 0
            invariant
                n <= self.relations@.len(),
                relation_map(self.relations@.take(n as int)).dom().contains((from, to)),
                relation_map(self.relations@.take(n as int))[(from, to)] == self@[(from, to)],
            decreases n,
        {
            let relation = self.relations[n - 1];
            proof {
                assert(self.relations@.take(n as int).drop_last() =~= self.relations@.take(n - 1));
                assert(self.relations@.take(n as int).last() == relation);
            }
            if relation.from == from && relation.to == to {
                return relation.mapping;
            }
            n = n - 1;
        }
        proof {
            assert(false);
        }
        CoordinateSpaceMapping::Local
    }
}

} // verus!
