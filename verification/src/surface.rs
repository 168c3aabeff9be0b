//! Building the graph of render tasks from a stack of surfaces.

use std::collections::HashMap;

use vstd::prelude::*;

use crate::backdrop::{
    backdrop_signature, entry_hashes, reads_dirty_source, signature_hash, BackdropInputSignature,
    BackdropSource, SourceProjection,
};
use crate::command_buffer::{
    surface_targets, target_buffers, target_keys, targets_for_rect, tiles_wf, BuilderKindView,
    BuilderView, CommandBufferBuilder, CommandBufferBuilderKind, CommandBufferIndex,
    CommandBufferList, CommandBufferTargets, CommandTarget, Targets,
};
use crate::deferral::{
    carries_deferrals, deferrals_placed, deferrals_separate, deferrals_wf, law_deferrals_below,
    law_deferrals_kept, law_deferrals_popped, law_deferrals_pushed, law_deferrals_routed,
    law_deferrals_same_tiles, law_deferrals_with_child_on_targets, moves_off_deferred,
    pop_reads_deferred, starts_separate, starts_undeferred,
};
use crate::finish::{
    add_extras, add_to_drawing_tasks, composite_tasks, drawing_tasks, is_held, lemma_drawing_tasks,
    settle_tiles, settled, with_extras,
};
use crate::geometry::{DeviceRect, PictureRect};
use crate::growth::{
    composites_avoid, grows, keeps_tasks, lemma_builder_kept, lemma_edges_from_grows,
    lemma_keeps_refl,
};
use crate::merge::{
    first_mapped, first_mapped_slice, merge_sub_graph, mergeable, merged, sub_graph, Surroundings,
};
use crate::merge_laws::{
    law_unread_target_stays_free, lemma_edges_from_kept, lemma_work_is_drawing,
};
use crate::render_task_graph::{
    graph_wf, has_task, is_picture, task, with_edges_from, Graph, RenderTaskGraphBuilder,
    RenderTaskId, RenderTaskKind,
};
use crate::resolve::{
    are_projections_known, are_rasters_related, clear_in, clear_tasks, list_clear_tasks,
    projections_cover, projections_fit, rasters_related, sources_wf, starts_clear,
    BackdropProjections, ProjectionView, Relations,
};
use crate::routing::{
    add_child_to_targets, route, routed, with_child_on_targets, DrawState, PrimitiveDrawHeader,
};
use crate::spatial::{ScaleOffset, SpatialTree};
use crate::splice::{is_readable, list_read_tasks, read_tasks, readable};
use crate::surface_info::{SurfaceIndex, SurfaceInfo};
use crate::tile::{has_key, same_slots, TileKey, TileMap, Tiles, SUB_SLICE_COUNT};

verus! {

/// An index into the picture array.
#[derive(Clone, Copy, Debug, PartialEq, Eq, Hash, Structural)]
pub struct PictureIndex(pub usize);

/// How a surface is rendered.
pub enum SurfaceDescriptorKind {
    /// By the tiles of a picture cache.
    Tiled { tiles: TileMap },
    /// By a single task, such as for an opacity filter.
    Simple { render_task_id: RenderTaskId, dirty_rect: PictureRect },
    /// By a task and one or more that filter it, such as for a blur.
    Chained { render_task_id: RenderTaskId, root_task_id: RenderTaskId, dirty_rect: PictureRect },
}

/// How a surface is rendered.
pub struct SurfaceDescriptor {
    kind: SurfaceDescriptorKind,
}

impl View for SurfaceDescriptor {
    type V = BuilderKindView;

    closed spec fn view(&self) -> BuilderKindView {
        match self.kind {
            SurfaceDescriptorKind::Tiled { tiles } => BuilderKindView::Tiled { tiles: tiles@ },
            SurfaceDescriptorKind::Simple { render_task_id, dirty_rect } => {
                BuilderKindView::Simple { render_task_id, root_task_id: None, dirty_rect }
            },
            SurfaceDescriptorKind::Chained { render_task_id, root_task_id, dirty_rect } => {
                BuilderKindView::Simple {
                    render_task_id,
                    root_task_id: Some(root_task_id),
                    dirty_rect,
                }
            },
        }
    }
}

impl SurfaceDescriptor {
    /// A surface of picture cache tiles.
    pub fn new_tiled(tiles: TileMap) -> (r: Self)
        ensures
            r@ == (BuilderKindView::Tiled { tiles: tiles@ }),
    {
        SurfaceDescriptor { kind: SurfaceDescriptorKind::Tiled { tiles } }
    }

    /// A surface that is filtered by a chain of tasks, such as for a blur.
    pub fn new_chained(
        render_task_id: RenderTaskId,
        root_task_id: RenderTaskId,
        dirty_rect: PictureRect,
    ) -> (r: Self)
        ensures
            r@ == (BuilderKindView::Simple {
                render_task_id,
                root_task_id: Some(root_task_id),
                dirty_rect,
            }),
    {
        SurfaceDescriptor {
            kind: SurfaceDescriptorKind::Chained { render_task_id, root_task_id, dirty_rect },
        }
    }

    /// A surface that is drawn by a single task, such as for an opacity filter.
    pub fn new_simple(render_task_id: RenderTaskId, dirty_rect: PictureRect) -> (r: Self)
        ensures
            r@ == (BuilderKindView::Simple { render_task_id, root_task_id: None, dirty_rect }),
    {
        SurfaceDescriptor { kind: SurfaceDescriptorKind::Simple { render_task_id, dirty_rect } }
    }
}

/// The surfaces that are being built, from the bottom to the current one.
pub struct SurfaceBuilder {
    /// The buffers that commands for the current surface may go to.
    current_cmd_buffers: CommandBufferTargets,
    /// The surfaces.
    builder_stack: Vec<CommandBufferBuilder>,
    /// The outputs of the sub-graphs that no backdrop primitive has used yet, by
    /// the index of the picture.
    pub sub_graph_output_map: HashMap<usize, RenderTaskId>,
    /// What the slices show that a backdrop filter may read.
    backdrop_sources: Vec<BackdropSource>,
}

/// A [`SurfaceBuilder`], with sequences for its lists.
#[verifier::ext_equal]
pub struct SurfaceBuilderView {
    pub targets: Targets,
    pub stack: Seq<BuilderView>,
    pub outputs: Map<usize, RenderTaskId>,
    pub sources: Seq<BackdropSource>,
}

impl View for SurfaceBuilder {
    type V = SurfaceBuilderView;

    closed spec fn view(&self) -> SurfaceBuilderView {
        SurfaceBuilderView {
            targets: self.current_cmd_buffers@,
            stack: Seq::new(self.builder_stack@.len(), |i: int| self.builder_stack@[i]@),
            outputs: self.sub_graph_output_map@,
            sources: self.backdrop_sources@,
        }
    }
}

/// Whether no task composites tiles of two of the surfaces.
pub open spec fn separate_composites(stack: Seq<BuilderView>) -> bool {
    forall|i: int, j: int|
        #![trigger stack[i], stack[j]]
        0 <= i < j < stack.len() ==> composites_avoid(
            stack[i].kind.tiles(),
            composite_tasks(stack[j].kind.tiles()),
        )
}

impl SurfaceBuilderView {
    /// Whether the surfaces are what they have to be.
    pub open spec fn wf(self, graph: Graph) -> bool {
        &&& graph_wf(graph)
        &&& self.targets.len() == SUB_SLICE_COUNT
        &&& forall|i: int| 0 <= i < self.stack.len() ==> (#[trigger] self.stack[i]).wf(graph)
        &&& separate_composites(self.stack)
        &&& sources_wf(self.sources, graph)
    }

    /// The current surface.
    pub open spec fn top(self) -> BuilderView {
        self.stack.last()
    }
}

/// The surfaces stay well formed while the graph grows.
pub proof fn lemma_surfaces_kept(surfaces: SurfaceBuilderView, before: Graph, after: Graph)
    requires
        surfaces.wf(before),
        grows(before, after),
    ensures
        surfaces.wf(after),
{
    assert forall|i: int| 0 <= i < surfaces.stack.len() implies (#[trigger] surfaces.stack[i]).wf(
        after,
    ) by {
        lemma_builder_kept(surfaces.stack[i], before, after, Set::empty());
    }
}

/// The surface that is started on top of the stack, where there is none to be
/// drawn or `kind` says how it is.
pub open spec fn started(kind: Option<BuilderKindView>, is_sub_graph: bool) -> BuilderView {
    match kind {
        Some(kind) => BuilderView::started(kind, is_sub_graph && kind is Simple),
        None => BuilderView::started(BuilderKindView::Invalid, false),
    }
}

/// Whether a surface can be started on top of the stack: its tasks are what they
/// have to be, and none of them composites a tile of another surface.
pub open spec fn can_start(
    stack: Seq<BuilderView>,
    graph: Graph,
    builder: BuilderView,
) -> bool {
    &&& builder.wf(graph)
    &&& forall|i: int|
        0 <= i < stack.len() ==> composites_avoid(
            (#[trigger] stack[i]).kind.tiles(),
            composite_tasks(builder.kind.tiles()),
        )
}

/// The targets among those of the current surface that a primitive is drawn to.
pub open spec fn prim_targets(targets: Targets, vis: PrimitiveDrawHeader) -> Seq<CommandTarget> {
    match vis.state {
        DrawState::Visible { sub_slice_index } => targets_for_rect(
            targets[sub_slice_index.0 as int],
            vis.pic_coverage_rect,
        ),
        _ => Seq::empty(),
    }
}

/// The tiles of the topmost surface.
pub open spec fn top_tiles(stack: Seq<BuilderView>) -> Tiles {
    if stack.len() == 0 {
        Seq::empty()
    } else {
        stack.last().kind.tiles()
    }
}

/// Whether the keys are those of tiles of the topmost surface.
pub open spec fn keys_known(stack: Seq<BuilderView>, keys: Seq<TileKey>) -> bool {
    forall|k: int| 0 <= k < keys.len() ==> has_key(top_tiles(stack), #[trigger] keys[k])
}

/// The surfaces with other tiles for the topmost one.
pub open spec fn with_top_tiles(view: SurfaceBuilderView, tiles: Tiles) -> SurfaceBuilderView {
    SurfaceBuilderView {
        stack: view.stack.update(
            view.stack.len() - 1,
            BuilderView { kind: BuilderKindView::Tiled { tiles }, ..view.top() },
        ),
        ..view
    }
}

/// What comes of drawing a primitive on the current surface.
#[verifier::ext_equal]
pub struct PrimitiveDraw {
    /// The surfaces.
    pub surfaces: SurfaceBuilderView,
    /// The buffers that the primitive is drawn from.
    pub buffers: Seq<CommandBufferIndex>,
    /// Whether the primitive is drawn at all, or handed on.
    pub is_drawn: bool,
}

/// Drawing a primitive on the current surface: on every tile that it hits, on top of what
/// is deferred there where it has to be.
pub open spec fn drawn(
    view: SurfaceBuilderView,
    graph: Graph,
    vis: PrimitiveDrawHeader,
    tracks_parent_write: bool,
    is_backdrop_render: bool,
) -> PrimitiveDraw {
    let hits = prim_targets(view.targets, vis);
    let keys = target_keys(hits);
    let is_drawn = hits.len() > 0 || vis.state is PassThrough;
    if (is_backdrop_render || tracks_parent_write) && keys.len() > 0 {
        let routing = routed(
            graph,
            view.top().kind.tiles(),
            keys,
            vis.pic_coverage_rect,
            is_backdrop_render,
        );
        PrimitiveDraw {
            surfaces: with_top_tiles(view, routing.tiles),
            buffers: routing.buffers,
            is_drawn,
        }
    } else {
        PrimitiveDraw { surfaces: view, buffers: target_buffers(hits), is_drawn }
    }
}

/// The surfaces, where the topmost sub-graph copies the surface below it into the task of
/// the current surface.
pub open spec fn with_resolve_source(
    stack: Seq<BuilderView>,
    resolve_rect: PictureRect,
) -> Seq<BuilderView> {
    let i = nearest_sub_graph(stack);
    stack.update(
        i,
        BuilderView {
            resolve_source: Some((stack.last().kind->render_task_id, resolve_rect)),
            ..stack[i]
        },
    )
}

/// The surfaces with one more on top, which commands go to.
pub open spec fn pushed(
    view: SurfaceBuilderView,
    graph: Graph,
    builder: BuilderView,
) -> SurfaceBuilderView {
    SurfaceBuilderView {
        targets: surface_targets(graph, builder.kind),
        stack: view.stack.push(builder),
        ..view
    }
}

/// What is known of the surfaces, where one of them is valid within a rectangle.
pub open spec fn with_clipping(
    infos: Seq<SurfaceInfo>,
    i: int,
    clipping_rect: PictureRect,
) -> Seq<SurfaceInfo> {
    infos.update(i, SurfaceInfo { clipping_rect, ..infos[i] })
}

/// The surfaces, where one more part of a slice may be read.
pub open spec fn with_source(
    view: SurfaceBuilderView,
    source: BackdropSource,
) -> SurfaceBuilderView {
    SurfaceBuilderView { sources: view.sources.push(source), ..view }
}

/// The surfaces without the topmost one.
pub open spec fn without_top(view: SurfaceBuilderView) -> SurfaceBuilderView {
    SurfaceBuilderView { stack: view.stack.drop_last(), ..view }
}

/// The output of the sub-graph of a picture, if one has been recorded.
pub open spec fn recorded_output(
    outputs: Map<usize, RenderTaskId>,
    pic_index: PictureIndex,
) -> Option<RenderTaskId> {
    if outputs.dom().contains(pic_index.0) {
        Some(outputs[pic_index.0])
    } else {
        None
    }
}

/// The surfaces, where the topmost one is to depend on a task once it is finished.
pub open spec fn with_extra(
    stack: Seq<BuilderView>,
    child_task_id: RenderTaskId,
) -> Seq<BuilderView> {
    stack.update(
        stack.len() - 1,
        BuilderView {
            extra_dependencies: stack.last().extra_dependencies.push(child_task_id),
            ..stack.last()
        },
    )
}

/// No targets have neither buffers nor tiles.
proof fn lemma_no_targets()
    ensures
        target_buffers(Seq::<CommandTarget>::empty()) == Seq::<CommandBufferIndex>::empty(),
        target_keys(Seq::<CommandTarget>::empty()) == Seq::<TileKey>::empty(),
{
    reveal(Seq::filter);
    assert(target_buffers(Seq::<CommandTarget>::empty()) =~= Seq::<CommandBufferIndex>::empty());
    assert(target_keys(Seq::<CommandTarget>::empty()) =~= Seq::<TileKey>::empty());
}

/// Where there is the tile of a target, there is a target.
proof fn lemma_keys_within(targets: Seq<CommandTarget>)
    ensures
        target_keys(targets).len() <= targets.len(),
{
    targets.lemma_filter_len(|t: CommandTarget| t.tile_key is Some);
}

/// Tiles with the same keys and compositing tasks may take the place of those of
/// one surface.
proof fn lemma_slots_replaced(
    before: SurfaceBuilderView,
    after: SurfaceBuilderView,
    graph: Graph,
)
    requires
        before.wf(graph),
        before.stack.len() > 0,
        after.targets == before.targets,
        after.sources == before.sources,
        after.stack == before.stack.update(before.stack.len() - 1, after.stack.last()),
        after.top().wf(graph),
        same_slots(before.top().kind.tiles(), after.top().kind.tiles()),
    ensures
        after.wf(graph),
{
    let last = before.stack.len() - 1;
    assert forall|i: int| 0 <= i < after.stack.len() implies (#[trigger] after.stack[i]).wf(
        graph,
    ) by {
        if i < last {
            assert(after.stack[i] == before.stack[i]);
        }
    }
    lemma_slots_separate(before.stack, after.stack);
}

/// Tiles with the same keys and compositing tasks may take the place of those of
/// the topmost surface.
proof fn lemma_slots_separate(before: Seq<BuilderView>, after: Seq<BuilderView>)
    requires
        separate_composites(before),
        before.len() > 0,
        after == before.update(before.len() - 1, after.last()),
        same_slots(before.last().kind.tiles(), after.last().kind.tiles()),
    ensures
        separate_composites(after),
{
    let tiles0 = before.last().kind.tiles();
    let tiles1 = after.last().kind.tiles();
    assert(composite_tasks(tiles0) =~= composite_tasks(tiles1)) by {
        assert forall|id: RenderTaskId| composite_tasks(tiles1).contains(id) implies composite_tasks(
            tiles0,
        ).contains(id) by {
            let i = choose|i: int|
                0 <= i < tiles1.len() && (#[trigger] tiles1[i]).1.composite_task_id == Some(id);
            assert(tiles0[i].1.composite_task_id == Some(id));
        }
        assert forall|id: RenderTaskId| composite_tasks(tiles0).contains(id) implies composite_tasks(
            tiles1,
        ).contains(id) by {
            let i = choose|i: int|
                0 <= i < tiles0.len() && (#[trigger] tiles0[i]).1.composite_task_id == Some(id);
            assert(tiles1[i].1.composite_task_id == Some(id));
        }
    }
    assert forall|i: int, j: int|
        #![trigger after[i], after[j]]
        0 <= i < j < after.len() implies composites_avoid(
        after[i].kind.tiles(),
        composite_tasks(after[j].kind.tiles()),
    ) by {
        assert(after[i] == before[i]);
        assert(composites_avoid(before[i].kind.tiles(), composite_tasks(before[j].kind.tiles())));
    }
}

/// The tasks of a slice of which it has to be known where they lie among the
/// backdrop sources.
pub struct PendingProjections {
    /// The slice.
    pub slice_index: usize,
    /// The mapping from the picture of the slice to the device.
    pub pic_to_device: ScaleOffset,
    /// The tasks.
    pub task_ids: Vec<RenderTaskId>,
}

/// The tasks of which it has to be known where they lie before the current
/// surface is finished, with their slice and its mapping to the device: those
/// that a sub-graph reads of the tiles below it and that start clear.
pub open spec fn pending(stack: Seq<BuilderView>, graph: Graph) -> Option<
    (usize, ScaleOffset, Seq<RenderTaskId>),
> {
    let top = stack.last();
    let parent = stack[stack.len() - 2];
    if stack.len() >= 2 && top.establishes_sub_graph && top.resolve_source is Some
        && parent.kind is Tiled {
        let tiles = parent.kind.tiles();
        match first_mapped(tiles) {
            Some(tile) => Some(
                (
                    tile.slice_index,
                    tile.pic_to_device->0,
                    clear_tasks(graph, read_tasks(graph, tiles, (top.resolve_source->0).1)),
                ),
            ),
            None => None,
        }
    } else {
        None
    }
}

/// Where it is known of every pending task where it lies, it is known of every
/// task that a sub-graph reads and that starts clear.
pub proof fn law_pending_suffices(
    stack: Seq<BuilderView>,
    graph: Graph,
    projections: Map<RenderTaskId, ProjectionView>,
)
    requires
        pending(stack, graph) matches Some(request) ==> forall|k: int|
            0 <= k < request.2.len() ==> projections.dom().contains(#[trigger] request.2[k]),
        stack.len() >= 2,
        stack.last().establishes_sub_graph,
        stack.last().resolve_source is Some,
        stack[stack.len() - 2].kind is Tiled,
        first_mapped(stack[stack.len() - 2].kind.tiles()) is Some,
    ensures
        projections_cover(
            graph,
            read_tasks(
                graph,
                stack[stack.len() - 2].kind.tiles(),
                (stack.last().resolve_source->0).1,
            ),
            projections,
        ),
{
    let reads = read_tasks(
        graph,
        stack[stack.len() - 2].kind.tiles(),
        (stack.last().resolve_source->0).1,
    );
    let keep = clear_in(graph);
    assert forall|k: int|
        0 <= k < reads.len() && starts_clear(
            graph,
            #[trigger] reads[k],
        ) implies projections.dom().contains(reads[k]) by {
        reads.lemma_filter_contains(keep, k);
        let kept = reads.filter(keep);
        let j = choose|j: int| 0 <= j < kept.len() && kept[j] == reads[k];
        let request = pending(stack, graph)->0;
        assert(request.2[j] == reads[k]);
    }
}

/// The surfaces and the frame.
#[verifier::ext_equal]
pub struct Stage {
    /// The surfaces.
    pub surfaces: SurfaceBuilderView,
    /// The tasks of the frame.
    pub graph: Graph,
    /// The command buffers of the frame.
    pub cmd_buffers: Seq<Seq<u32>>,
}

/// The tasks that draw the topmost surface, of which there are none where there
/// is no surface.
pub open spec fn top_kind(stack: Seq<BuilderView>) -> BuilderKindView {
    if stack.len() == 0 {
        BuilderKindView::Invalid
    } else {
        stack.last().kind
    }
}

/// The surfaces and the frame after the current surface has been handed to what
/// uses it. A sub-graph is merged into the surface below, and its output recorded
/// for the picture, if it reads anything back. Tiles are handed to the tasks that
/// composite them. Any other surface is needed by the one below.
pub open spec fn handed_on(
    stage: Stage,
    pic_index: PictureIndex,
    around: Surroundings,
) -> Stage {
    let surfaces = stage.surfaces;
    let top = surfaces.top();
    let below = surfaces.stack.drop_last();
    if top.establishes_sub_graph {
        let merge = merged(stage.graph, stage.cmd_buffers, below.last().kind, top, around);
        Stage {
            surfaces: SurfaceBuilderView {
                stack: below.update(
                    below.len() - 1,
                    BuilderView { kind: merge.kind, ..below.last() },
                ),
                outputs: if top.resolve_source is Some {
                    surfaces.outputs.insert(pic_index.0, top.kind.output_task())
                } else {
                    surfaces.outputs
                },
                ..surfaces
            },
            graph: merge.graph,
            cmd_buffers: merge.cmd_buffers,
        }
    } else {
        Stage {
            surfaces: SurfaceBuilderView { stack: below, ..surfaces },
            graph: match top.kind {
                BuilderKindView::Tiled { tiles } => settled(stage.graph, tiles),
                BuilderKindView::Simple { .. } => with_edges_from(
                    stage.graph,
                    drawing_tasks(below.last().kind),
                    top.kind.output_task(),
                ),
                BuilderKindView::Invalid => stage.graph,
            },
            cmd_buffers: stage.cmd_buffers,
        }
    }
}

/// The surfaces and the frame after the current surface has been finished: it is
/// handed on, the tasks that hold it get what they need besides, and commands go
/// to the surface below.
pub open spec fn popped(stage: Stage, pic_index: PictureIndex, around: Surroundings) -> Stage {
    let top = stage.surfaces.top();
    let handed = handed_on(stage, pic_index, around);
    let graph = with_extras(handed.graph, top.kind, top.extra_dependencies);
    Stage {
        surfaces: SurfaceBuilderView {
            targets: surface_targets(graph, top_kind(handed.surfaces.stack)),
            ..handed.surfaces
        },
        graph,
        cmd_buffers: handed.cmd_buffers,
    }
}

/// Whether the current surface can be finished: there is one, and there is one
/// below it that it can be handed to where it is handed to one.
pub open spec fn can_pop(stage: Stage, around: Surroundings) -> bool {
    let stack = stage.surfaces.stack;
    let top = stage.surfaces.top();
    &&& stack.len() > 0
    &&& projections_fit(around.projections, around.sources.len())
    &&& top.kind is Simple ==> stack.len() > 1
    &&& top.establishes_sub_graph ==> mergeable(
        stage.graph,
        stage.cmd_buffers,
        stack[stack.len() - 2].kind,
        top,
        around,
    )
}

/// Whether a sub-graph with the given resolve target can be merged into a surface
/// for sure: nothing is copied to the target yet, the surface does not draw to it,
/// and it is known how the two relate and where the tasks lie that have to start
/// from what the slices behind show.
pub open spec fn merge_ready(
    kind: BuilderKindView,
    resolve_source: Option<(RenderTaskId, PictureRect)>,
    graph: Graph,
    relations: Relations,
    projections: Map<RenderTaskId, ProjectionView>,
) -> bool {
    &&& !(kind is Invalid)
    &&& resolve_source matches Some((target, rect)) ==> {
        &&& task(graph, target).picture().resolve_op is None
        &&& match kind {
            BuilderKindView::Tiled { tiles } => {
                let reads = read_tasks(graph, tiles, rect);
                &&& graph.len() + tiles.len() <= usize::MAX
                &&& readable(graph, tiles, rect)
                &&& !reads.contains(target)
                &&& reads.len() > 0 ==> rasters_related(graph, relations, target, reads[0])
                &&& first_mapped(tiles) is Some ==> projections_cover(graph, reads, projections)
            },
            BuilderKindView::Simple { render_task_id, .. } => rasters_related(
                graph,
                relations,
                target,
                render_task_id,
            ),
            BuilderKindView::Invalid => false,
        }
    }
}

/// Whether the current surface can be finished for sure.
pub open spec fn pop_ready(
    surfaces: SurfaceBuilderView,
    graph: Graph,
    relations: Relations,
    projections: Map<RenderTaskId, ProjectionView>,
) -> bool {
    let stack = surfaces.stack;
    let top = surfaces.top();
    &&& stack.len() > 0
    &&& projections_fit(projections, surfaces.sources.len())
    &&& top.kind is Simple ==> stack.len() > 1
    &&& top.establishes_sub_graph ==> merge_ready(
        stack[stack.len() - 2].kind,
        top.resolve_source,
        graph,
        relations,
        projections,
    )
}

/// Whether a list holds a task.
fn holds_task(ids: &Vec<RenderTaskId>, id: RenderTaskId) -> (r: bool)
    ensures
        r == ids@.contains(id),
{
    let mut i: usize = 0;
    while i < ids.len()
        invariant
            i <= ids@.len(),
            forall|k: int| 0 <= k < i ==> #[trigger] ids@[k] != id,
        decreases ids@.len() - i,
    {
        if ids[i] == id {
            assert(ids@[i as int] == id);
            return true;
        }
        i = i + 1;
    }
    false
}

/// Whether a sub-graph with the given resolve target can be merged into a surface
/// for sure.
fn can_merge(
    kind: &CommandBufferBuilderKind,
    resolve_source: Option<(RenderTaskId, PictureRect)>,
    rg_builder: &RenderTaskGraphBuilder,
    spatial_tree: &SpatialTree,
    projections: &BackdropProjections,
) -> (r: bool)
    requires
        match kind@ {
            BuilderKindView::Tiled { tiles } => tiles_wf(tiles, rg_builder@),
            BuilderKindView::Simple { render_task_id, .. } => is_picture(
                rg_builder@,
                render_task_id,
            ),
            BuilderKindView::Invalid => true,
        },
        resolve_source matches Some(source) ==> is_picture(rg_builder@, source.0),
    ensures
        r == merge_ready(kind@, resolve_source, rg_builder@, spatial_tree@, projections@),
{
    let (target, rect) = match resolve_source {
        Some(source) => source,
        None => return match kind {
            CommandBufferBuilderKind::Invalid => false,
            _ => true,
        },
    };
    let free: bool = match &rg_builder.get_task(target).kind {
        RenderTaskKind::Picture(info) => info.resolve_op.is_none(),
        _ => false,
    };
    if !free {
        return false;
    }
    match kind {
        CommandBufferBuilderKind::Tiled { tiles } => {
            if tiles.len() > usize::MAX - rg_builder.task_count() {
                return false;
            }
            if !is_readable(tiles, rg_builder, &rect) {
                return false;
            }
            let reads = list_read_tasks(tiles, rg_builder, &rect);
            if holds_task(&reads, target) {
                return false;
            }
            if reads.len() > 0 {
                proof {
                    lemma_read_tasks_draw(rg_builder@, tiles@, rect, 0);
                }
                if !are_rasters_related(rg_builder, spatial_tree, target, reads[0]) {
                    return false;
                }
            }
            match first_mapped_slice(tiles) {
                Some(_) => are_projections_known(rg_builder, &reads, projections),
                None => true,
            }
        },
        CommandBufferBuilderKind::Simple { render_task_id, .. } => {
            are_rasters_related(rg_builder, spatial_tree, target, *render_task_id)
        },
        CommandBufferBuilderKind::Invalid => false,
    }
}

/// What a sub-graph reads of tiles draws a picture.
proof fn lemma_read_tasks_draw(graph: Graph, tiles: Tiles, rect: PictureRect, k: int)
    requires
        forall|i: int| 0 <= i < tiles.len() ==> (#[trigger] tiles[i]).1.wf(graph),
        0 <= k < read_tasks(graph, tiles, rect).len(),
    ensures
        is_picture(graph, read_tasks(graph, tiles, rect)[k]),
    decreases tiles.len(),
{
    if tiles.len() > 0 {
        let shorter = tiles.drop_last();
        assert forall|i: int| 0 <= i < shorter.len() implies (#[trigger] shorter[i]).1.wf(
            graph,
        ) by {
            assert(shorter[i] == tiles[i]);
        }
        assert(tiles[tiles.len() - 1].1.wf(graph));
        if k < read_tasks(graph, shorter, rect).len() {
            lemma_read_tasks_draw(graph, shorter, rect, k);
        }
    }
}

/// The surfaces below stay well formed when the current one is handed on.
proof fn lemma_below_kept(
    stack: Seq<BuilderView>,
    before: Graph,
    after: Graph,
)
    requires
        stack.len() > 0,
        forall|i: int| 0 <= i < stack.len() ==> (#[trigger] stack[i]).wf(before),
        separate_composites(stack),
        keeps_tasks(before, after, composite_tasks(stack.last().kind.tiles())),
    ensures
        forall|i: int|
            0 <= i < stack.drop_last().len() ==> (#[trigger] stack.drop_last()[i]).wf(after),
        separate_composites(stack.drop_last()),
{
    let below = stack.drop_last();
    assert forall|i: int| 0 <= i < below.len() implies (#[trigger] below[i]).wf(after) by {
        assert(below[i] == stack[i]);
        assert(stack[stack.len() - 1] == stack.last());
        assert(composites_avoid(
            stack[i].kind.tiles(),
            composite_tasks(stack[stack.len() - 1].kind.tiles()),
        ));
        lemma_builder_kept(
            stack[i],
            before,
            after,
            composite_tasks(stack.last().kind.tiles()),
        );
    }
}

/// Tasks that are all kept are kept but for those of any set.
proof fn lemma_keeps_weaker(before: Graph, after: Graph, retired: Set<RenderTaskId>)
    requires
        keeps_tasks(before, after, Set::empty()),
    ensures
        keeps_tasks(before, after, retired),
{
}

/// The place of the topmost surface that is the root of a sub-graph, or one
/// below the bottom where there is none.
pub open spec fn nearest_sub_graph(stack: Seq<BuilderView>) -> int
    decreases stack.len(),
{
    if stack.len() == 0 {
        -1
    } else if stack.last().establishes_sub_graph {
        stack.len() - 1
    } else {
        nearest_sub_graph(stack.drop_last())
    }
}

/// One surface of a stack may be replaced by another with the same tasks.
proof fn lemma_same_kinds_separate(before: Seq<BuilderView>, after: Seq<BuilderView>)
    requires
        separate_composites(before),
        after.len() == before.len(),
        forall|i: int| 0 <= i < after.len() ==> (#[trigger] after[i]).kind == before[i].kind,
    ensures
        separate_composites(after),
{
    assert forall|i: int, j: int|
        #![trigger after[i], after[j]]
        0 <= i < j < after.len() implies composites_avoid(
        after[i].kind.tiles(),
        composite_tasks(after[j].kind.tiles()),
    ) by {
        assert(after[i].kind == before[i].kind);
        assert(after[j].kind == before[j].kind);
    }
}

impl SurfaceBuilder {
    /// No surfaces.
    pub fn new() -> (r: Self)
        ensures
            r@ == (SurfaceBuilderView {
                targets: Seq::new(SUB_SLICE_COUNT as nat, |s: int| Seq::<CommandTarget>::empty()),
                stack: Seq::empty(),
                outputs: Map::empty(),
                sources: Seq::empty(),
            }),
            forall|graph: Graph| graph_wf(graph) ==> #[trigger] r@.wf(graph),
            forall|graph: Graph| #[trigger] deferrals_wf(r@.stack, graph),
            deferrals_separate(r@.stack),
    {
        let r = SurfaceBuilder {
            current_cmd_buffers: CommandBufferTargets::new(),
            builder_stack: Vec::new(),
            sub_graph_output_map: HashMap::new(),
            backdrop_sources: Vec::new(),
        };
        assert(r@.stack =~= Seq::<BuilderView>::empty());
        r
    }

    /// Adds a part of a slice that a backdrop filter of a later slice may read.
    pub fn register_backdrop_source(&mut self, source: BackdropSource)
        ensures
            final(self)@ == (SurfaceBuilderView {
                sources: old(self)@.sources.push(source),
                ..old(self)@
            }),
            final(self)@ == with_source(old(self)@, source),
            forall|graph: Graph|
                old(self)@.wf(graph) && (source.producer_task_id matches Some(id) ==> has_task(
                    graph,
                    id,
                )) ==> #[trigger] final(self)@.wf(graph),
    {
        self.backdrop_sources.push(source);
        assert(self@.stack =~= old(self)@.stack);
        proof {
            assert forall|graph: Graph|
                old(self)@.wf(graph) && (source.producer_task_id matches Some(id) ==> has_task(
                    graph,
                    id,
                )) implies #[trigger] self@.wf(graph) by {
                assert forall|i: int|
                    0 <= i < self@.sources.len() && (
                    #[trigger] self@.sources[i]).producer_task_id is Some implies has_task(
                    graph,
                    self@.sources[i].producer_task_id->0,
                ) by {
                    if i < old(self)@.sources.len() {
                        assert(self@.sources[i] == old(self)@.sources[i]);
                    }
                }
            }
        }
    }

    /// What the slices show that a backdrop filter may read, in the order of
    /// registration.
    pub fn backdrop_sources(&self) -> (r: &Vec<BackdropSource>)
        ensures
            r@ == self@.sources,
    {
        &self.backdrop_sources
    }

    /// What a backdrop filter of a slice reads of the slices behind it.
    ///
    /// `capture_device_rect` is the part of the device that the filter captures,
    /// and `projections` says of every source, in the order of their
    /// registration, which part of it that is.
    pub fn get_backdrop_input_signature(
        &self,
        current_slice_index: usize,
        capture_rect: PictureRect,
        capture_device_rect: DeviceRect,
        projections: &Vec<SourceProjection>,
    ) -> (r: BackdropInputSignature)
        requires
            projections@.len() == self@.sources.len(),
        ensures
            r.hash == signature_hash(
                entry_hashes(
                    self@.sources,
                    current_slice_index,
                    capture_device_rect,
                    projections@,
                ),
                current_slice_index,
                capture_rect,
            ),
            r.has_dirty_source == reads_dirty_source(
                self@.sources,
                current_slice_index,
                capture_device_rect,
                projections@,
            ),
    {
        backdrop_signature(
            &self.backdrop_sources,
            current_slice_index,
            &capture_rect,
            &capture_device_rect,
            projections,
        )
    }

    /// Makes the current surface the target that the topmost sub-graph copies the
    /// surface below it to, as far as `resolve_rect`.
    pub fn register_resolve_source(&mut self, resolve_rect: PictureRect)
        requires
            old(self)@.stack.len() > 0,
            old(self)@.top().kind is Simple,
            nearest_sub_graph(old(self)@.stack) >= 0,
            old(self)@.stack[nearest_sub_graph(old(self)@.stack)].resolve_source is None,
        ensures
            ({
                let i = nearest_sub_graph(old(self)@.stack);
                final(self)@ == (SurfaceBuilderView {
                    stack: old(self)@.stack.update(
                        i,
                        BuilderView {
                            resolve_source: Some(
                                (old(self)@.top().kind->render_task_id, resolve_rect),
                            ),
                            ..old(self)@.stack[i]
                        },
                    ),
                    ..old(self)@
                })
            }),
            final(self)@.stack == with_resolve_source(old(self)@.stack, resolve_rect),
            forall|graph: Graph| old(self)@.wf(graph) ==> #[trigger] final(self)@.wf(graph),
            forall|graph: Graph| #[trigger]
                carries_deferrals(old(self)@.stack, graph, final(self)@.stack, graph),
    {
        let ghost stack = self@.stack;
        let mut i: usize = self.builder_stack.len();
        let surface_task_id = match &self.builder_stack[i - 1].kind {
            CommandBufferBuilderKind::Simple { render_task_id, .. } => *render_task_id,
            _ => {
                assert(false);
                RenderTaskId { index: 0 }
            },
        };
        assert(surface_task_id == self@.top().kind->render_task_id);
        assert(stack.take(i as int) =~= stack);
        while !self.builder_stack[i - 1].establishes_sub_graph
            invariant
                stack == self@.stack,
                self@ == old(self)@,
                0 < i <= stack.len(),
                stack.len() == self.builder_stack@.len(),
                nearest_sub_graph(stack.take(i as int)) == nearest_sub_graph(stack),
                nearest_sub_graph(stack) >= 0,
            decreases i,
        {
            proof {
                assert(stack.take(i as int).drop_last() =~= stack.take(i - 1));
                assert(stack.take(i as int).last() == self.builder_stack@[i - 1]@);
                if i == 1 {
                    assert(nearest_sub_graph(stack.take(0)) == -1);
                }
            }
            i = i - 1;
        }
        assert(stack.take(i as int).last() == self.builder_stack@[i - 1]@);
        self.builder_stack[i - 1].resolve_source = Some((surface_task_id, resolve_rect));
        let ghost changed = BuilderView {
            resolve_source: Some((surface_task_id, resolve_rect)),
            ..stack[i - 1]
        };
        assert(self@.stack =~= stack.update(i - 1, changed));
        proof {
            assert forall|graph: Graph| old(self)@.wf(graph) implies #[trigger] self@.wf(
                graph,
            ) by {
                assert(stack[stack.len() - 1].wf(graph));
                assert(stack[i - 1].wf(graph));
                assert forall|k: int| 0 <= k < self@.stack.len() implies (
                #[trigger] self@.stack[k]).wf(graph) by {
                    assert(stack[k].wf(graph));
                }
                lemma_same_kinds_separate(stack, self@.stack);
            }
            assert forall|graph: Graph| #[trigger]
                carries_deferrals(stack, graph, self@.stack, graph) by {
                law_deferrals_same_tiles(stack, self@.stack, graph);
            }
        }
    }

    /// Starts a surface on top of the present ones.
    pub fn push_surface(
        &mut self,
        surface_index: SurfaceIndex,
        is_sub_graph: bool,
        clipping_rect: PictureRect,
        descriptor: Option<SurfaceDescriptor>,
        surfaces: &mut [SurfaceInfo],
        rg_builder: &RenderTaskGraphBuilder,
    )
        requires
            old(self)@.wf(rg_builder@),
            surface_index.0 < old(surfaces)@.len(),
            can_start(
                old(self)@.stack,
                rg_builder@,
                started(
                    match descriptor {
                        Some(descriptor) => Some(descriptor@),
                        None => None,
                    },
                    is_sub_graph,
                ),
            ),
        ensures
            final(surfaces)@ == old(surfaces)@.update(
                surface_index.0 as int,
                SurfaceInfo { clipping_rect, ..old(surfaces)@[surface_index.0 as int] },
            ),
            final(surfaces)@ == with_clipping(
                old(surfaces)@,
                surface_index.0 as int,
                clipping_rect,
            ),
            ({
                let builder = started(
                    match descriptor {
                        Some(descriptor) => Some(descriptor@),
                        None => None,
                    },
                    is_sub_graph,
                );
                final(self)@ == (SurfaceBuilderView {
                    targets: surface_targets(rg_builder@, builder.kind),
                    stack: old(self)@.stack.push(builder),
                    ..old(self)@
                })
            }),
            final(self)@ == pushed(
                old(self)@,
                rg_builder@,
                started(
                    match descriptor {
                        Some(descriptor) => Some(descriptor@),
                        None => None,
                    },
                    is_sub_graph,
                ),
            ),
            final(self)@.wf(rg_builder@),
            starts_undeferred(final(self)@.top().kind) ==> {
                let stack = old(self)@.stack;
                &&& deferrals_placed(stack, rg_builder@) ==> deferrals_placed(
                    final(self)@.stack,
                    rg_builder@,
                )
                &&& deferrals_wf(stack, rg_builder@) ==> deferrals_wf(
                    final(self)@.stack,
                    rg_builder@,
                )
                &&& deferrals_separate(stack) && starts_separate(stack, final(self)@.top().kind)
                    ==> deferrals_separate(final(self)@.stack)
            },
    {
        surfaces[surface_index.0].clipping_rect = clipping_rect;
        let builder = match descriptor {
            Some(descriptor) => match descriptor.kind {
                SurfaceDescriptorKind::Tiled { tiles } => CommandBufferBuilder::new_tiled(tiles),
                SurfaceDescriptorKind::Simple { render_task_id, dirty_rect } => {
                    CommandBufferBuilder::new_simple(
                        render_task_id,
                        is_sub_graph,
                        None,
                        dirty_rect,
                    )
                },
                SurfaceDescriptorKind::Chained { render_task_id, root_task_id, dirty_rect } => {
                    CommandBufferBuilder::new_simple(
                        render_task_id,
                        is_sub_graph,
                        Some(root_task_id),
                        dirty_rect,
                    )
                },
            },
            None => CommandBufferBuilder::empty(),
        };
        self.current_cmd_buffers.init(&builder, rg_builder);
        self.builder_stack.push(builder);
        assert(self@.stack =~= old(self)@.stack.push(builder@));
        proof {
            if starts_undeferred(self@.top().kind) {
                law_deferrals_pushed(old(self)@.stack, builder@, rg_builder@);
            }
        }
    }

    /// Makes the current surface depend on a task, such as an item of the render
    /// task cache or a clip mask.
    pub fn add_child_render_task(
        &mut self,
        child_task_id: RenderTaskId,
        rg_builder: &mut RenderTaskGraphBuilder,
    )
        requires
            old(self)@.wf(old(rg_builder)@),
            old(self)@.stack.len() > 0,
            has_task(old(rg_builder)@, child_task_id),
        ensures
            final(self)@ == old(self)@,
            final(rg_builder)@ == with_edges_from(
                old(rg_builder)@,
                drawing_tasks(old(self)@.top().kind),
                child_task_id,
            ),
            final(self)@.wf(final(rg_builder)@),
            carries_deferrals(
                old(self)@.stack,
                old(rg_builder)@,
                final(self)@.stack,
                final(rg_builder)@,
            ),
    {
        let ghost graph = rg_builder@;
        let builder = &self.builder_stack[self.builder_stack.len() - 1];
        proof {
            assert(builder@ == self@.stack[self@.stack.len() - 1]);
            assert(builder@.wf(graph));
            lemma_drawing_tasks(builder@.kind, graph);
            lemma_edges_from_grows(graph, drawing_tasks(builder@.kind), child_task_id);
        }
        add_to_drawing_tasks(&builder.kind, rg_builder, child_task_id);
        proof {
            lemma_surfaces_kept(self@, graph, rg_builder@);
            lemma_edges_from_kept(graph, drawing_tasks(builder@.kind), child_task_id);
            lemma_work_is_drawing(graph, rg_builder@);
            law_deferrals_kept(self@.stack, graph, rg_builder@);
        }
    }

    /// Makes those tasks of the current surface depend on a task that draw one of
    /// the given buffers.
    pub fn add_child_render_task_to_targets(
        &mut self,
        child_task_id: RenderTaskId,
        targets: &[CommandBufferIndex],
        rg_builder: &mut RenderTaskGraphBuilder,
    )
        requires
            old(self)@.wf(old(rg_builder)@),
            old(self)@.stack.len() > 0,
            has_task(old(rg_builder)@, child_task_id),
        ensures
            final(self)@ == old(self)@,
            final(rg_builder)@ == with_child_on_targets(
                old(rg_builder)@,
                old(self)@.top().kind,
                targets@,
                child_task_id,
            ),
            final(self)@.wf(final(rg_builder)@),
            deferrals_placed(old(self)@.stack, old(rg_builder)@) ==> deferrals_placed(
                final(self)@.stack,
                final(rg_builder)@,
            ),
            deferrals_wf(old(self)@.stack, old(rg_builder)@) && !moves_off_deferred(
                old(self)@.stack,
                old(rg_builder)@,
                targets@,
                child_task_id,
            ) ==> deferrals_wf(final(self)@.stack, final(rg_builder)@),
    {
        let ghost graph = rg_builder@;
        let builder = &self.builder_stack[self.builder_stack.len() - 1];
        proof {
            assert(builder@ == self@.stack[self@.stack.len() - 1]);
            assert(builder@.wf(graph));
        }
        add_child_to_targets(&builder.kind, targets, child_task_id, rg_builder);
        proof {
            lemma_surfaces_kept(self@, graph, rg_builder@);
            law_deferrals_with_child_on_targets(self@, graph, targets@, child_task_id);
        }
    }

    /// Lists the command buffers that a primitive is drawn from. Tells whether
    /// the primitive is to be drawn.
    ///
    /// The primitive may draw the output of a backdrop filter
    /// (`is_backdrop_render`), or be one whose place above or below such outputs
    /// matters (`tracks_parent_write`).
    pub fn get_cmd_buffer_targets_for_prim(
        &mut self,
        vis: &PrimitiveDrawHeader,
        tracks_parent_write: bool,
        is_backdrop_render: bool,
        rg_builder: &RenderTaskGraphBuilder,
        targets: &mut Vec<CommandBufferIndex>,
    ) -> (r: bool)
        requires
            old(self)@.wf(rg_builder@),
            !(vis.state is Unset),
            vis.state matches DrawState::Visible { sub_slice_index } ==> sub_slice_index.in_range(),
            is_backdrop_render || tracks_parent_write ==> keys_known(
                old(self)@.stack,
                target_keys(prim_targets(old(self)@.targets, *vis)),
            ),
        ensures
            r == (prim_targets(old(self)@.targets, *vis).len() > 0 || vis.state is PassThrough),
            ({
                let hits = prim_targets(old(self)@.targets, *vis);
                let keys = target_keys(hits);
                if (is_backdrop_render || tracks_parent_write) && keys.len() > 0 {
                    let routing = routed(
                        rg_builder@,
                        old(self)@.top().kind.tiles(),
                        keys,
                        vis.pic_coverage_rect,
                        is_backdrop_render,
                    );
                    &&& final(targets)@ == routing.buffers
                    &&& final(self)@ == with_top_tiles(old(self)@, routing.tiles)
                } else {
                    &&& final(targets)@ == target_buffers(hits)
                    &&& final(self)@ == old(self)@
                }
            }),
            drawn(old(self)@, rg_builder@, *vis, tracks_parent_write, is_backdrop_render) == (
            PrimitiveDraw { surfaces: final(self)@, buffers: final(targets)@, is_drawn: r }),
            final(self)@.wf(rg_builder@),
            carries_deferrals(old(self)@.stack, rg_builder@, final(self)@.stack, rg_builder@),
    {
        targets.clear();
        let mut tile_keys: Vec<TileKey> = Vec::new();
        let ghost view0 = self@;
        let ghost hits = prim_targets(view0.targets, *vis);
        let has_targets: bool = match vis.state {
            DrawState::Visible { sub_slice_index } => {
                let r = self.current_cmd_buffers.get_cmd_buffer_targets_for_rect(
                    &vis.pic_coverage_rect,
                    sub_slice_index,
                    targets,
                    &mut tile_keys,
                );
                assert(targets@ =~= target_buffers(hits));
                assert(tile_keys@ =~= target_keys(hits));
                r
            },
            DrawState::PassThrough => true,
            _ => false,
        };
        proof {
            if !(vis.state is Visible) {
                lemma_no_targets();
                assert(targets@ =~= target_buffers(hits));
                assert(tile_keys@ =~= target_keys(hits));
            }
        }
        if (is_backdrop_render || tracks_parent_write) && tile_keys.len() > 0 {
            let ghost stack = self@.stack;
            proof {
                assert(tile_keys@[0] == tile_keys@[0]);
                assert(has_key(top_tiles(stack), tile_keys@[0]));
                assert(stack.len() > 0 && stack.last().kind is Tiled);
                assert(stack[stack.len() - 1].wf(rg_builder@));
                lemma_keys_within(hits);
            }
            let last: usize = self.builder_stack.len() - 1;
            match &mut self.builder_stack[last].kind {
                CommandBufferBuilderKind::Tiled { tiles } => {
                    *targets = route(
                        tiles,
                        rg_builder,
                        &tile_keys,
                        &vis.pic_coverage_rect,
                        is_backdrop_render,
                    );
                },
                _ => {
                    assert(false);
                },
            }
            proof {
                let changed = self@.stack[last as int];
                assert(self@.stack =~= stack.update(last as int, changed));
                assert(changed == BuilderView { kind: changed.kind, ..stack[last as int] });
                assert(tiles_wf(changed.kind->tiles, rg_builder@));
                lemma_slots_replaced(view0, self@, rg_builder@);
                law_deferrals_routed(
                    view0,
                    rg_builder@,
                    tile_keys@,
                    vis.pic_coverage_rect,
                    is_backdrop_render,
                );
            }
        }
        has_targets
    }

    /// Makes the current surface depend on a task of a picture, once it is
    /// finished: the task that holds the surface may change until then. Only
    /// shadows need this.
    pub fn add_picture_render_task(&mut self, child_task_id: RenderTaskId)
        requires
            old(self)@.stack.len() > 0,
        ensures
            final(self)@ == (SurfaceBuilderView {
                stack: with_extra(old(self)@.stack, child_task_id),
                ..old(self)@
            }),
            forall|graph: Graph|
                old(self)@.wf(graph) && has_task(graph, child_task_id)
                    ==> #[trigger] final(self)@.wf(graph),
            forall|graph: Graph| #[trigger]
                carries_deferrals(old(self)@.stack, graph, final(self)@.stack, graph),
    {
        let last: usize = self.builder_stack.len() - 1;
        self.builder_stack[last].extra_dependencies.push(child_task_id);
        let ghost changed = BuilderView {
            extra_dependencies: old(self)@.top().extra_dependencies.push(child_task_id),
            ..old(self)@.top()
        };
        assert(self@.stack =~= old(self)@.stack.update(last as int, changed));
        proof {
            assert forall|graph: Graph|
                old(self)@.wf(graph) && has_task(graph, child_task_id) implies #[trigger] self@.wf(
                graph,
            ) by {
                assert(old(self)@.stack[last as int].wf(graph));
                assert forall|i: int| 0 <= i < changed.extra_dependencies.len() implies has_task(
                    graph,
                    #[trigger] changed.extra_dependencies[i],
                ) by {
                    if i < old(self)@.top().extra_dependencies.len() {
                        assert(changed.extra_dependencies[i]
                            == old(self)@.top().extra_dependencies[i]);
                    }
                }
                assert forall|i: int| 0 <= i < self@.stack.len() implies (
                #[trigger] self@.stack[i]).wf(graph) by {
                    assert(old(self)@.stack[i].wf(graph));
                }
                lemma_same_kinds_separate(old(self)@.stack, self@.stack);
            }
            assert forall|graph: Graph| #[trigger]
                carries_deferrals(old(self)@.stack, graph, self@.stack, graph) by {
                law_deferrals_same_tiles(old(self)@.stack, self@.stack, graph);
            }
        }
    }

    /// Takes a surface that has no tasks off the stack.
    pub fn pop_empty_surface(&mut self)
        requires
            old(self)@.stack.len() > 0,
            !old(self)@.top().establishes_sub_graph,
        ensures
            final(self)@ == (SurfaceBuilderView {
                stack: old(self)@.stack.drop_last(),
                ..old(self)@
            }),
            final(self)@ == without_top(old(self)@),
            forall|graph: Graph| old(self)@.wf(graph) ==> #[trigger] final(self)@.wf(graph),
            forall|graph: Graph| #[trigger]
                carries_deferrals(old(self)@.stack, graph, final(self)@.stack, graph),
    {
        let _builder = self.builder_stack.pop();
        assert(self@.stack =~= old(self)@.stack.drop_last());
        proof {
            assert forall|graph: Graph| #[trigger]
                carries_deferrals(old(self)@.stack, graph, self@.stack, graph) by {
                law_deferrals_below(old(self)@.stack, graph);
            }
        }
    }

    /// Lists the tasks of which it has to be known where they lie before the
    /// current surface is finished, if there are any.
    pub fn pending_projections(&self, rg_builder: &RenderTaskGraphBuilder) -> (r: Option<
        PendingProjections,
    >)
        requires
            self@.wf(rg_builder@),
        ensures
            pending(self@.stack, rg_builder@) == (match r {
                Some(request) => Some(
                    (request.slice_index, request.pic_to_device, request.task_ids@),
                ),
                None => None,
            }),
    {
        let n: usize = self.builder_stack.len();
        if n < 2 || !self.builder_stack[n - 1].establishes_sub_graph {
            return None;
        }
        let resolve_rect = match self.builder_stack[n - 1].resolve_source {
            Some((_, resolve_rect)) => resolve_rect,
            None => return None,
        };
        proof {
            assert(self@.stack[n - 1] == self.builder_stack@[n - 1]@);
            assert(self@.stack[n - 2] == self.builder_stack@[n - 2]@);
            assert(self@.stack[n - 2].wf(rg_builder@));
        }
        match &self.builder_stack[n - 2].kind {
            CommandBufferBuilderKind::Tiled { tiles } => {
                let (slice_index, pic_to_device) = match first_mapped_slice(tiles) {
                    Some(context) => context,
                    None => return None,
                };
                let reads = list_read_tasks(tiles, rg_builder, &resolve_rect);
                let task_ids = list_clear_tasks(rg_builder, &reads);
                Some(PendingProjections { slice_index, pic_to_device, task_ids })
            },
            _ => None,
        }
    }

    /// Whether the current surface can be finished, as far as that can be told
    /// before.
    pub fn is_ready_to_pop(
        &self,
        rg_builder: &RenderTaskGraphBuilder,
        cmd_buffers: &CommandBufferList,
        spatial_tree: &SpatialTree,
        projections: &BackdropProjections,
    ) -> (r: bool)
        requires
            self@.wf(rg_builder@),
        ensures
            r == pop_ready(self@, rg_builder@, spatial_tree@, projections@),
            r ==> can_pop(
                (Stage { surfaces: self@, graph: rg_builder@, cmd_buffers: cmd_buffers@ }),
                (Surroundings {
                    sources: self@.sources,
                    relations: spatial_tree@,
                    projections: projections@,
                }),
            ),
    {
        let ghost stack = self@.stack;
        let n: usize = self.builder_stack.len();
        if n == 0 || !projections.fit(self.backdrop_sources.len()) {
            return false;
        }
        proof {
            assert(stack[n - 1] == self.builder_stack@[n - 1]@);
            assert(stack[n - 1].wf(rg_builder@));
        }
        let is_simple: bool = match &self.builder_stack[n - 1].kind {
            CommandBufferBuilderKind::Simple { .. } => true,
            _ => false,
        };
        if is_simple && n < 2 {
            return false;
        }
        if !self.builder_stack[n - 1].establishes_sub_graph {
            return true;
        }
        proof {
            assert(stack[n - 2] == self.builder_stack@[n - 2]@);
            assert(stack[n - 2].wf(rg_builder@));
        }
        let ready: bool = can_merge(
            &self.builder_stack[n - 2].kind,
            self.builder_stack[n - 1].resolve_source,
            rg_builder,
            spatial_tree,
            projections,
        );
        proof {
            if ready && stack[n - 2].kind is Tiled && stack[n - 1].resolve_source is Some {
                law_unread_target_stays_free(
                    rg_builder@,
                    cmd_buffers@,
                    stack[n - 2].kind.tiles(),
                    sub_graph(stack[n - 1]),
                    Surroundings {
                        sources: self@.sources,
                        relations: spatial_tree@,
                        projections: projections@,
                    },
                );
            }
        }
        ready
    }

    /// The output of the sub-graph of a picture, if one has been recorded.
    pub fn sub_graph_output(&self, pic_index: PictureIndex) -> (r: Option<RenderTaskId>)
        ensures
            r == (if self@.outputs.dom().contains(pic_index.0) {
                Some(self@.outputs[pic_index.0])
            } else {
                None
            }),
            r == recorded_output(self@.outputs, pic_index),
    {
        broadcast use vstd::std_specs::hash::group_hash_axioms;

        match self.sub_graph_output_map.get(&pic_index.0) {
            Some(id) => Some(*id),
            None => None,
        }
    }

    /// Finishes the current surface, and takes it off the stack.
    ///
    /// `projections` says where those of the tasks lie that a sub-graph reads and
    /// that have to start from what the slices behind show.
    pub fn pop_surface(
        &mut self,
        pic_index: PictureIndex,
        rg_builder: &mut RenderTaskGraphBuilder,
        cmd_buffers: &mut CommandBufferList,
        spatial_tree: &SpatialTree,
        projections: &BackdropProjections,
    )
        requires
            old(self)@.wf(old(rg_builder)@),
            can_pop(
                (Stage {
                    surfaces: old(self)@,
                    graph: old(rg_builder)@,
                    cmd_buffers: old(cmd_buffers)@,
                }),
                (Surroundings {
                    sources: old(self)@.sources,
                    relations: spatial_tree@,
                    projections: projections@,
                }),
            ),
        ensures
            popped(
                (Stage {
                    surfaces: old(self)@,
                    graph: old(rg_builder)@,
                    cmd_buffers: old(cmd_buffers)@,
                }),
                pic_index,
                (Surroundings {
                    sources: old(self)@.sources,
                    relations: spatial_tree@,
                    projections: projections@,
                }),
            ) == (Stage {
                surfaces: final(self)@,
                graph: final(rg_builder)@,
                cmd_buffers: final(cmd_buffers)@,
            }),
            final(self)@.wf(final(rg_builder)@),
            deferrals_placed(old(self)@.stack, old(rg_builder)@) ==> {
                &&& deferrals_placed(final(self)@.stack, final(rg_builder)@)
                &&& deferrals_wf(old(self)@.stack, old(rg_builder)@) && !pop_reads_deferred(
                    old(self)@.stack,
                    old(rg_builder)@,
                ) ==> deferrals_wf(final(self)@.stack, final(rg_builder)@)
                &&& deferrals_separate(old(self)@.stack) ==> deferrals_separate(
                    final(self)@.stack,
                )
            },
    {
        broadcast use vstd::std_specs::hash::group_hash_axioms;

        let ghost graph = rg_builder@;
        let ghost surfaces = self@;
        let ghost stack = self@.stack;
        let ghost around = Surroundings {
            sources: self@.sources,
            relations: spatial_tree@,
            projections: projections@,
        };
        let ghost stage = Stage { surfaces: self@, graph, cmd_buffers: cmd_buffers@ };
        let ghost top = self@.top();
        let ghost below = stack.drop_last();
        let builder = match self.builder_stack.pop() {
            Some(builder) => builder,
            None => {
                assert(false);
                return ;
            },
        };
        proof {
            assert(builder@ == top);
            assert(self@.stack =~= below);
            assert(stack[stack.len() - 1].wf(graph));
            lemma_keeps_refl(graph);
        }
        if builder.establishes_sub_graph {
            let last: usize = self.builder_stack.len() - 1;
            proof {
                assert(below[last as int] == stack[last as int]);
                assert(below[last as int].wf(graph));
            }
            merge_sub_graph(
                &mut self.builder_stack[last],
                &builder,
                rg_builder,
                cmd_buffers,
                &self.backdrop_sources,
                spatial_tree,
                projections,
            );
            if builder.resolve_source.is_some() {
                let output = match &builder.kind {
                    CommandBufferBuilderKind::Simple { render_task_id, root_task_id, .. } => {
                        match root_task_id {
                            Some(id) => *id,
                            None => *render_task_id,
                        }
                    },
                    _ => {
                        assert(false);
                        RenderTaskId { index: 0 }
                    },
                };
                self.sub_graph_output_map.insert(pic_index.0, output);
            }
            proof {
                let handed = handed_on(stage, pic_index, around);
                assert(self@.stack =~= handed.surfaces.stack);
                assert(self@ =~= handed.surfaces);
                lemma_keeps_weaker(graph, rg_builder@, composite_tasks(top.kind.tiles()));
                lemma_below_kept(stack, graph, rg_builder@);
                lemma_slots_separate(below, self@.stack);
                assert(self@.wf(rg_builder@));
            }
        } else {
            match &builder.kind {
                CommandBufferBuilderKind::Tiled { tiles } => {
                    settle_tiles(tiles, rg_builder);
                },
                CommandBufferBuilderKind::Simple { render_task_id, root_task_id, .. } => {
                    let output = match root_task_id {
                        Some(id) => *id,
                        None => *render_task_id,
                    };
                    let parent = &self.builder_stack[self.builder_stack.len() - 1];
                    proof {
                        let i = below.len() - 1;
                        assert(parent@ == below[i]);
                        assert(stack[i].wf(graph));
                        lemma_drawing_tasks(parent@.kind, graph);
                        lemma_edges_from_grows(graph, drawing_tasks(parent@.kind), output);
                    }
                    add_to_drawing_tasks(&parent.kind, rg_builder, output);
                    proof {
                        lemma_keeps_weaker(graph, rg_builder@, composite_tasks(top.kind.tiles()));
                    }
                },
                CommandBufferBuilderKind::Invalid => {
                    proof {
                        lemma_keeps_weaker(graph, rg_builder@, composite_tasks(top.kind.tiles()));
                    }
                },
            }
            proof {
                lemma_below_kept(stack, graph, rg_builder@);
                assert(self@ =~= handed_on(stage, pic_index, around).surfaces);
                assert(self@.wf(rg_builder@));
            }
        }
        let ghost handed = rg_builder@;
        proof {
            assert(handed == handed_on(stage, pic_index, around).graph);
            assert(is_held(handed, top.kind)) by {
                if let BuilderKindView::Tiled { tiles } = top.kind {
                    assert forall|i: int| 0 <= i < tiles.len() implies has_task(
                        handed,
                        (#[trigger] tiles[i]).1.final_task(),
                    ) by {
                        assert(tiles[i].1.wf(graph));
                    }
                }
            }
        }
        proof {
            assert forall|k: int| 0 <= k < builder.extra_dependencies@.len() implies has_task(
                handed,
                #[trigger] builder.extra_dependencies@[k],
            ) by {
                assert(top.extra_dependencies[k] == builder.extra_dependencies@[k]);
                assert(has_task(graph, top.extra_dependencies[k]));
            }
        }
        add_extras(&builder.kind, rg_builder, &builder.extra_dependencies);
        proof {
            lemma_surfaces_kept(self@, handed, rg_builder@);
        }
        let ghost pending = self@;
        if self.builder_stack.len() > 0 {
            let top = &self.builder_stack[self.builder_stack.len() - 1];
            assert(top@ == pending.stack[pending.stack.len() - 1]);
            self.current_cmd_buffers.init(top, rg_builder);
        } else {
            self.current_cmd_buffers.init(&CommandBufferBuilder::empty(), rg_builder);
        }
        assert(self@.stack =~= pending.stack);
        proof {
            rg_builder.lemma_countable();
            if deferrals_placed(stack, graph) {
                law_deferrals_popped(stage, pic_index, around);
            }
        }
    }

    /// Ends the building of surfaces, when none is left.
    pub fn finalize(self)
        requires
            self@.stack.len() == 0,
    {
    }
}

} // verus!
