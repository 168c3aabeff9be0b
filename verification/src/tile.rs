//! The tiles of a picture cache, and the tasks that draw them.

use vstd::prelude::*;

use crate::geometry::{DeviceIntVector, PictureRect};
use crate::render_task_graph::{
    graph_wf, has_task, is_picture, task, with_edge, Graph, PictureTaskView, RenderTargetKind,
    RenderTaskGraphBuilder, RenderTaskId, RenderTaskKind, RenderTaskLocation, ResolveOp,
    ResolveOpView, TaskKindView, TaskView,
};
use crate::spatial::ScaleOffset;

verus! {

/// How many compositor surfaces a picture cache may be split by.
pub const MAX_COMPOSITOR_SURFACES: usize = 4;

/// How many sub-slices a picture cache may have: one more than it may be split
/// by.
pub const SUB_SLICE_COUNT: usize = 5;

/// A sub-slice of a picture cache.
#[derive(Clone, Copy, Debug, PartialEq, Eq, Hash, Structural)]
pub struct SubSliceIndex(pub u8);

impl SubSliceIndex {
    /// Whether a picture cache may have this sub-slice.
    pub open spec fn in_range(self) -> bool {
        self.0 < SUB_SLICE_COUNT
    }

    /// The index of the sub-slice.
    pub fn as_usize(self) -> (r: usize)
        ensures
            r == self.0,
    {
        self.0 as usize
    }
}

/// A tile of a picture cache: its place in the grid, and its sub-slice.
#[derive(Clone, Copy, Debug, PartialEq, Eq, Hash, Structural)]
pub struct TileKey {
    pub tile_x: i32,
    pub tile_y: i32,
    pub sub_slice_index: SubSliceIndex,
}

/// The render tasks of a tile.
pub struct SurfaceTileDescriptor {
    /// The task that commands for this tile are added to. This changes each
    /// time a sub-graph reads what has been drawn on the tile.
    pub current_task_id: RenderTaskId,
    /// The task that composites the tile, if there is one. It is only needed
    /// when the tile contains one or more sub-graphs.
    pub composite_task_id: Option<RenderTaskId>,
    /// What has to be drawn of the tile.
    pub dirty_rect: PictureRect,
    /// The task that draws the outputs of backdrop filters onto the tile.
    pub deferred_task_id: Option<RenderTaskId>,
    /// What those outputs cover.
    pub deferred_output_rects: Vec<PictureRect>,
    /// The slice that the tile belongs to.
    pub slice_index: usize,
    /// The mapping from the picture to the device, where there is one.
    pub pic_to_device: Option<ScaleOffset>,
}

/// A [`SurfaceTileDescriptor`], with a sequence for its list.
#[verifier::ext_equal]
pub struct TileView {
    pub current_task_id: RenderTaskId,
    pub composite_task_id: Option<RenderTaskId>,
    pub dirty_rect: PictureRect,
    pub deferred_task_id: Option<RenderTaskId>,
    pub deferred_output_rects: Seq<PictureRect>,
    pub slice_index: usize,
    pub pic_to_device: Option<ScaleOffset>,
}

impl View for SurfaceTileDescriptor {
    type V = TileView;

    open spec fn view(&self) -> TileView {
        TileView {
            current_task_id: self.current_task_id,
            composite_task_id: self.composite_task_id,
            dirty_rect: self.dirty_rect,
            deferred_task_id: self.deferred_task_id,
            deferred_output_rects: self.deferred_output_rects@,
            slice_index: self.slice_index,
            pic_to_device: self.pic_to_device,
        }
    }
}

impl TileView {
    /// Whether the tasks of the tile are what they have to be, and outputs are
    /// only deferred to a task that draws them.
    pub open spec fn wf(self, graph: Graph) -> bool {
        &&& is_picture(graph, self.current_task_id)
        &&& self.deferred_task_id matches Some(id) ==> is_picture(graph, id)
        &&& self.deferred_task_id is None ==> self.deferred_output_rects.len() == 0
        &&& self.composite_task_id matches Some(id) ==> has_task(graph, id) && task(
            graph,
            id,
        ).kind is TileComposite
    }

    /// Whether outputs are deferred exactly where there is a task that draws
    /// them. That task draws a picture over the place of the one below it, and is
    /// as large.
    pub open spec fn deferral_placed(self, graph: Graph) -> bool {
        &&& self.deferred_task_id is Some <==> self.deferred_output_rects.len() > 0
        &&& self.deferred_task_id matches Some(id) ==> {
            &&& id != self.current_task_id
            &&& is_picture(graph, id)
            &&& has_task(graph, self.current_task_id)
            &&& task(graph, id).location is Existing
            &&& task(graph, id).location->Existing_parent_task_id == self.current_task_id
            &&& task(graph, id).location->Existing_size == task(
                graph,
                self.current_task_id,
            ).location.extent()
        }
    }

    /// Whether that holds, and the task that draws the deferred outputs waits for
    /// the one below it.
    pub open spec fn deferral_wf(self, graph: Graph) -> bool {
        &&& self.deferral_placed(graph)
        &&& self.deferred_task_id matches Some(id) ==> task(graph, id).children.contains(
            self.current_task_id,
        )
    }

    /// The tile after the task that draws the deferred outputs, if there is
    /// one, has become the one that commands are added to.
    pub open spec fn flushed(self) -> Self {
        match self.deferred_task_id {
            Some(id) => TileView {
                current_task_id: id,
                deferred_task_id: None,
                deferred_output_rects: Seq::empty(),
                ..self
            },
            None => self,
        }
    }

    /// Whether a deferred output covers a part of `rect`.
    pub open spec fn output_overlaps(self, rect: PictureRect) -> bool {
        exists|i: int|
            0 <= i < self.deferred_output_rects.len() && (
            #[trigger] self.deferred_output_rects[i]).overlaps(rect)
    }

    /// Whether one deferred output covers all of `rect`.
    pub open spec fn output_covers(self, rect: PictureRect) -> bool {
        exists|i: int|
            0 <= i < self.deferred_output_rects.len() && (
            #[trigger] self.deferred_output_rects[i]).covers(rect)
    }

    /// The tile with `rect` among what the deferred outputs cover. A rectangle
    /// that another one covers is left out.
    pub open spec fn with_output(self, rect: PictureRect) -> Self {
        if self.output_covers(rect) {
            self
        } else {
            TileView {
                deferred_output_rects: self.deferred_output_rects.filter(
                    |r: PictureRect| !rect.covers(r),
                ).push(rect),
                ..self
            }
        }
    }

    /// The task that holds everything that is drawn on the tile.
    pub open spec fn final_task(self) -> RenderTaskId {
        match self.deferred_task_id {
            Some(id) => id,
            None => self.current_task_id,
        }
    }

    /// Whether the task that draws the deferred outputs can draw straight into
    /// the tile's slot: the tile is composited into a slot that outlives the
    /// frame, and that task draws onto the place of another one, just as large
    /// as what is copied and from the same origin.
    pub open spec fn promotable(self, graph: Graph) -> bool {
        &&& self.composite_task_id is Some
        &&& self.deferred_task_id is Some
        &&& {
            let composite = task(graph, self.composite_task_id->0);
            let drawn = task(graph, self.deferred_task_id->0);
            &&& composite.location is Static
            &&& composite.kind is TileComposite
            &&& drawn.location is Existing
            &&& composite.kind->TileComposite_0.sub_rect_offset == DeviceIntVector { x: 0, y: 0 }
            &&& drawn.location->Existing_size
                == composite.kind->TileComposite_0.scissor_rect.extent()
        }
    }

    /// The graph in which the task that draws the deferred outputs draws
    /// straight into the tile's slot: it starts with a copy of the task it
    /// continues, and the task that composited the tile does nothing but wait
    /// for it.
    pub open spec fn promoted(self, graph: Graph) -> Graph {
        let composite_id = self.composite_task_id->0;
        let final_id = self.deferred_task_id->0;
        let composite = task(graph, composite_id);
        let info = composite.kind->TileComposite_0;
        let drawn = task(graph, final_id);
        let moved = graph.update(
            final_id.index as int,
            TaskView {
                location: RenderTaskLocation::Static {
                    surface: composite.location->Static_surface,
                    rect: info.scissor_rect,
                },
                kind: TaskKindView::Picture(
                    PictureTaskView {
                        scissor_rect: Some(info.scissor_rect),
                        valid_rect: Some(info.valid_rect),
                        resolve_op: Some(
                            ResolveOpView {
                                src_task_ids: seq![drawn.location->Existing_parent_task_id],
                                sources: Seq::empty(),
                                dest_task_id: final_id,
                                dest_to_src_raster: ScaleOffset::identity_value(),
                            },
                        ),
                        ..drawn.picture()
                    },
                ),
                children: drawn.children,
            },
        );
        let cached = moved.update(
            composite_id.index as int,
            TaskView {
                kind: TaskKindView::Cached { target_kind: RenderTargetKind::Color },
                ..composite
            },
        );
        with_edge(cached, composite_id, final_id)
    }
}

impl SurfaceTileDescriptor {
    /// Makes the task that draws the deferred outputs, if there is one, the one
    /// that commands are added to. Tells whether there was one.
    pub fn flush_deferred_backdrops(&mut self) -> (r: bool)
        ensures
            r == (old(self).deferred_task_id is Some),
            final(self)@ == old(self)@.flushed(),
    {
        match self.deferred_task_id {
            Some(task_id) => {
                self.deferred_task_id = None;
                self.current_task_id = task_id;
                self.deferred_output_rects.clear();
                true
            },
            None => false,
        }
    }

    /// Whether a deferred output covers a part of `rect`.
    pub fn deferred_output_intersects(&self, rect: &PictureRect) -> (r: bool)
        ensures
            r == self@.output_overlaps(*rect),
    {
        let mut i: usize = 0;
        while i < self.deferred_output_rects.len()
            invariant
                i <= self.deferred_output_rects@.len(),
                forall|j: int|
                    0 <= j < i ==> !(#[trigger] self.deferred_output_rects@[j]).overlaps(*rect),
            decreases self.deferred_output_rects@.len() - i,
        {
            if self.deferred_output_rects[i].intersects(rect) {
                assert(self@.deferred_output_rects[i as int].overlaps(*rect));
                return true;
            }
            i = i + 1;
        }
        false
    }

    /// Adds `rect` to what the deferred outputs cover.
    pub fn add_deferred_output_rect(&mut self, rect: PictureRect)
        ensures
            final(self)@ == old(self)@.with_output(rect),
    {
        let ghost rects = self.deferred_output_rects@;
        let mut i: usize = 0;
        while i < self.deferred_output_rects.len()
            invariant
                i <= self.deferred_output_rects@.len(),
                rects == self.deferred_output_rects@,
                self@ == old(self)@,
                forall|j: int| 0 <= j < i ==> !(#[trigger] rects[j]).covers(rect),
            decreases self.deferred_output_rects@.len() - i,
        {
            if self.deferred_output_rects[i].contains_box(&rect) {
                assert(self@.deferred_output_rects[i as int].covers(rect));
                return ;
            }
            i = i + 1;
        }
        let ghost keep = |r: PictureRect| !rect.covers(r);
        let mut kept: Vec<PictureRect> = Vec::new();
        let mut n: usize = 0;
        assert(rects.take(0).filter(keep) =~= Seq::<PictureRect>::empty()) by {
            reveal(Seq::filter);
        }
        while n < self.deferred_output_rects.len()
            invariant
                n <= self.deferred_output_rects@.len(),
                rects == self.deferred_output_rects@,
                self@ == old(self)@,
                keep == (|r: PictureRect| !rect.covers(r)),
                kept@ == rects.take(n as int).filter(keep),
            decreases self.deferred_output_rects@.len() - n,
        {
            let output_rect = self.deferred_output_rects[n];
            proof {
                reveal(Seq::filter);
                assert(rects.take(n + 1).drop_last() =~= rects.take(n as int));
                assert(rects.take(n + 1).last() == output_rect);
            }
            if !rect.contains_box(&output_rect) {
                kept.push(output_rect);
            }
            n = n + 1;
        }
        assert(rects.take(rects.len() as int) =~= rects);
        kept.push(rect);
        self.deferred_output_rects = kept;
    }

    /// The task that holds everything that is drawn on the tile.
    pub fn final_task_id(&self) -> (r: RenderTaskId)
        ensures
            r == self@.final_task(),
    {
        match self.deferred_task_id {
            Some(id) => id,
            None => self.current_task_id,
        }
    }

    /// Lets the task that draws the deferred outputs draw straight into the
    /// tile's slot, where it can. Tells whether it could.
    pub fn promote_final_task_to_picture_cache(
        &self,
        rg_builder: &mut RenderTaskGraphBuilder,
    ) -> (r: bool)
        requires
            graph_wf(old(rg_builder)@),
            self.composite_task_id is Some && self.deferred_task_id is Some ==> has_task(
                old(rg_builder)@,
                self.composite_task_id->0,
            ) && has_task(old(rg_builder)@, self.deferred_task_id->0),
            self@.promotable(old(rg_builder)@) ==> is_picture(
                old(rg_builder)@,
                self.deferred_task_id->0,
            ),
        ensures
            r == self@.promotable(old(rg_builder)@),
            final(rg_builder)@ == (if r {
                self@.promoted(old(rg_builder)@)
            } else {
                old(rg_builder)@
            }),
    {
        let composite_task_id = match self.composite_task_id {
            Some(id) => id,
            None => return false,
        };
        let final_task_id = match self.deferred_task_id {
            Some(id) => id,
            None => return false,
        };
        let composite_task = rg_builder.get_task(composite_task_id);
        let surface = match composite_task.location {
            RenderTaskLocation::Static { surface, .. } => surface,
            _ => return false,
        };
        let info = match &composite_task.kind {
            RenderTaskKind::TileComposite(info) => *info,
            _ => return false,
        };
        let (parent_task_id, final_task_size) = match rg_builder.get_task(final_task_id).location {
            RenderTaskLocation::Existing { parent_task_id, size } => (parent_task_id, size),
            _ => return false,
        };
        assert(rg_builder@[composite_task_id.index as int].sizable());
        if info.sub_rect_offset.x != 0 || info.sub_rect_offset.y != 0 || final_task_size
            != info.scissor_rect.size() {
            return false;
        }
        let mut src_task_ids: Vec<RenderTaskId> = Vec::new();
        src_task_ids.push(parent_task_id);
        assert(src_task_ids@ =~= seq![parent_task_id]);
        let final_task = rg_builder.get_task_mut(final_task_id);
        final_task.location = RenderTaskLocation::Static { surface, rect: info.scissor_rect };
        match &mut final_task.kind {
            RenderTaskKind::Picture(pic_task) => {
                pic_task.scissor_rect = Some(info.scissor_rect);
                pic_task.valid_rect = Some(info.valid_rect);
                pic_task.resolve_op = Some(
                    ResolveOp {
                        src_task_ids,
                        sources: Vec::new(),
                        dest_task_id: final_task_id,
                        dest_to_src_raster: ScaleOffset::identity(),
                    },
                );
            },
            _ => {},
        }
        let composite_task = rg_builder.get_task_mut(composite_task_id);
        // Backdrop sources of other slices may wait for the composite.
        composite_task.kind = RenderTaskKind::Cached { target_kind: RenderTargetKind::Color };
        rg_builder.add_dependency(composite_task_id, final_task_id);
        true
    }
}

/// The tiles of a surface, each with its key, in the order in which they were
/// added.
pub type Tiles = Seq<(TileKey, TileView)>;

/// Whether no two tiles have the same key.
pub open spec fn distinct_keys(tiles: Tiles) -> bool {
    forall|i: int, j: int|
        #![trigger tiles[i], tiles[j]]
        0 <= i < j < tiles.len() ==> tiles[i].0 != tiles[j].0
}

/// Whether some tile has the key.
pub open spec fn has_key(tiles: Tiles, key: TileKey) -> bool {
    exists|i: int| 0 <= i < tiles.len() && #[trigger] tiles[i].0 == key
}

/// Whether every tile of `after` has the key and the compositing task of the one
/// of `before` in its place.
pub open spec fn same_slots(before: Tiles, after: Tiles) -> bool {
    &&& after.len() == before.len()
    &&& forall|i: int|
        #![trigger after[i]]
        0 <= i < before.len() ==> after[i].0 == before[i].0 && after[i].1.composite_task_id
            == before[i].1.composite_task_id
}

/// The tiles of a surface, by key. A tile keeps its place in the order of the
/// tiles for as long as its key is there.
pub struct TileMap {
    entries: Vec<(TileKey, SurfaceTileDescriptor)>,
}

impl View for TileMap {
    type V = Tiles;

    closed spec fn view(&self) -> Tiles {
        Seq::new(self.entries@.len(), |i: int| (self.entries@[i].0, self.entries@[i].1@))
    }
}

impl TileMap {
    /// No tiles.
    pub fn new() -> (r: Self)
        ensures
            r@ == Seq::<(TileKey, TileView)>::empty(),
            distinct_keys(r@),
    {
        let r = TileMap { entries: Vec::new() };
        assert(r@ =~= Seq::<(TileKey, TileView)>::empty());
        r
    }

    /// The number of tiles.
    pub fn len(&self) -> (r: usize)
        ensures
            r == self@.len(),
    {
        self.entries.len()
    }

    /// The place of the tile with the key, if there is one.
    pub fn find(&self, key: TileKey) -> (r: Option<usize>)
        ensures
            r matches Some(i) ==> i < self@.len() && self@[i as int].0 == key,
            r is Some <==> has_key(self@, key),
    {
        let mut i: usize = 0;
        while i < self.entries.len()
            invariant
                i <= self.entries@.len(),
                forall|j: int| 0 <= j < i ==> (#[trigger] self@[j]).0 != key,
            decreases self.entries@.len() - i,
        {
            if self.entries[i].0 == key {
                assert(self@[i as int].0 == key);
                return Some(i);
            }
            i = i + 1;
        }
        None
    }

    /// The key of the tile at a place.
    pub fn key_at(&self, i: usize) -> (r: TileKey)
        requires
            i < self@.len(),
        ensures
            r == self@[i as int].0,
    {
        self.entries[i].0
    }

    /// The tile at a place.
    pub fn tile_at(&self, i: usize) -> (r: &SurfaceTileDescriptor)
        requires
            i < self@.len(),
        ensures
            r@ == self@[i as int].1,
    {
        &self.entries[i].1
    }

    /// The tile at a place, to be changed.
    pub fn tile_at_mut(&mut self, i: usize) -> (r: &mut SurfaceTileDescriptor)
        requires
            i < old(self)@.len(),
        ensures
            (*r)@ == old(self)@[i as int].1,
            final(self)@ == old(self)@.update(
                i as int,
                (old(self)@[i as int].0, (*final(r))@),
            ),
    {
        &mut self.entries[i].1
    }

    /// The tile with the key, if there is one.
    pub fn get(&self, key: TileKey) -> (r: Option<&SurfaceTileDescriptor>)
        ensures
            r is Some <==> has_key(self@, key),
            r matches Some(tile) ==> exists|i: int|
                0 <= i < self@.len() && #[trigger] self@[i] == (key, tile@),
    {
        match self.find(key) {
            Some(i) => {
                assert(self@[i as int] == (key, self.entries@[i as int].1@));
                Some(&self.entries[i].1)
            },
            None => None,
        }
    }

    /// Adds a tile. One that has the key already is replaced, in its place.
    pub fn insert(&mut self, key: TileKey, tile: SurfaceTileDescriptor)
        requires
            distinct_keys(old(self)@),
        ensures
            distinct_keys(final(self)@),
            !has_key(old(self)@, key) ==> final(self)@ == old(self)@.push((key, tile@)),
            forall|i: int|
                0 <= i < old(self)@.len() && #[trigger] old(self)@[i].0 == key ==> final(self)@
                    == old(self)@.update(i, (key, tile@)),
    {
        match self.find(key) {
            Some(i) => {
                self.entries.set(i, (key, tile));
                assert(self@ =~= old(self)@.update(i as int, (key, tile@)));
            },
            None => {
                self.entries.push((key, tile));
                assert(self@ =~= old(self)@.push((key, tile@)));
            },
        }
    }
}

} // verus!
