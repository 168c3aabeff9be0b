//! Copying what has been drawn on a surface into the target of a resolve.

use vstd::prelude::*;

use crate::backdrop::{
    cross_slice_resolve_sources, source_copies, source_producers, sources_by_slice, BackdropSource,
    SourceProjection,
};
use crate::command_buffer::{lemma_filter_none, lemma_filter_take};
use crate::geometry::DeviceRect;
use crate::growth::{
    grows, lemma_edges_to_grows, lemma_grows_trans, lemma_keeps_refl, lemma_picture_grows,
};
use crate::render_task_graph::{
    graph_wf, has_task, is_picture, task, with_edges_to, with_picture, Graph, PictureTaskView,
    RenderTaskGraphBuilder, RenderTaskId, RenderTaskKind, ResolveOp, ResolveOpView,
};
use crate::spatial::{CoordinateSpaceMapping, ScaleOffset, SpatialNodeIndex, SpatialTree};

verus! {

/// The node in whose space a picture task is rasterized.
pub open spec fn raster_node(graph: Graph, id: RenderTaskId) -> SpatialNodeIndex {
    task(graph, id).picture().raster_spatial_node_index
}

/// The node in whose space a picture task is rasterized. This relates the raster
/// spaces of a resolve target and of the surfaces that it reads back from.
pub fn raster_spatial_node(rg_builder: &RenderTaskGraphBuilder, task_id: RenderTaskId) -> (r:
    SpatialNodeIndex)
    requires
        is_picture(rg_builder@, task_id),
    ensures
        r == raster_node(rg_builder@, task_id),
{
    match &rg_builder.get_task(task_id).kind {
        RenderTaskKind::Picture(info) => info.raster_spatial_node_index,
        _ => {
            assert(false);
            SpatialNodeIndex(0)
        },
    }
}

/// What is known of how two spaces relate.
pub type Relations = Map<(SpatialNodeIndex, SpatialNodeIndex), CoordinateSpaceMapping>;

/// Whether it is known how the raster spaces of the two tasks relate.
pub open spec fn rasters_related(
    graph: Graph,
    relations: Relations,
    dest: RenderTaskId,
    src: RenderTaskId,
) -> bool {
    raster_node(graph, dest) == raster_node(graph, src) || relations.dom().contains(
        (raster_node(graph, dest), raster_node(graph, src)),
    )
}

/// Whether it is known how the raster spaces of the two tasks relate.
pub fn are_rasters_related(
    rg_builder: &RenderTaskGraphBuilder,
    spatial_tree: &SpatialTree,
    dest: RenderTaskId,
    src: RenderTaskId,
) -> (r: bool)
    requires
        is_picture(rg_builder@, dest),
        is_picture(rg_builder@, src),
    ensures
        r == rasters_related(rg_builder@, spatial_tree@, dest, src),
{
    let dest_raster = raster_spatial_node(rg_builder, dest);
    let src_raster = raster_spatial_node(rg_builder, src);
    dest_raster == src_raster || spatial_tree.relates(dest_raster, src_raster)
}

/// The mapping from the raster space of a resolve target to that of what it
/// reads: the scale and offset between the two nodes, or none where they are the
/// same or differ by anything else.
pub open spec fn dest_to_src_raster(
    graph: Graph,
    relations: Relations,
    dest: RenderTaskId,
    sources: Seq<RenderTaskId>,
) -> ScaleOffset {
    if sources.len() == 0 || raster_node(graph, dest) == raster_node(graph, sources[0]) {
        ScaleOffset::identity_value()
    } else {
        match relations[(raster_node(graph, dest), raster_node(graph, sources[0]))] {
            CoordinateSpaceMapping::ScaleOffset(scale_offset) => scale_offset,
            _ => ScaleOffset::identity_value(),
        }
    }
}

/// The mapping from a resolve target's raster space into the raster space of the
/// surfaces that it reads back from.
///
/// A resolve target and the surface it captures differ only in their raster
/// root, and the relation between the two is a scale and an offset. A copy from
/// rectangle to rectangle cannot express anything else, so nothing is corrected
/// then.
pub fn resolve_dest_to_src_raster(
    rg_builder: &RenderTaskGraphBuilder,
    spatial_tree: &SpatialTree,
    dest_task_id: RenderTaskId,
    src_task_ids: &Vec<RenderTaskId>,
) -> (r: ScaleOffset)
    requires
        src_task_ids@.len() > 0 ==> {
            &&& is_picture(rg_builder@, dest_task_id)
            &&& is_picture(rg_builder@, src_task_ids@[0])
            &&& rasters_related(rg_builder@, spatial_tree@, dest_task_id, src_task_ids@[0])
        },
    ensures
        r == dest_to_src_raster(rg_builder@, spatial_tree@, dest_task_id, src_task_ids@),
{
    // All sources are tiles of the same parent surface, so they share a raster
    // node, and the first one stands for all.
    if src_task_ids.len() == 0 {
        return ScaleOffset::identity();
    }
    let dest_raster = raster_spatial_node(rg_builder, dest_task_id);
    let src_raster = raster_spatial_node(rg_builder, src_task_ids[0]);
    if src_raster == dest_raster {
        return ScaleOffset::identity();
    }
    match spatial_tree.get_relative_transform(dest_raster, src_raster) {
        CoordinateSpaceMapping::ScaleOffset(scale_offset) => scale_offset,
        // Distinct nodes in the same place: no correction needed.
        CoordinateSpaceMapping::Local => ScaleOffset::identity(),
        CoordinateSpaceMapping::Transform => ScaleOffset::identity(),
    }
}

/// Where the target of a picture task lies among the backdrop sources.
pub struct TaskProjection {
    /// The task.
    pub task_id: RenderTaskId,
    /// The part of the device that the target shows.
    pub wanted_device_rect: DeviceRect,
    /// What of that every source shows, in the order of the sources.
    pub sources: Vec<SourceProjection>,
}

/// What a [`TaskProjection`] says of its task.
#[verifier::ext_equal]
pub struct ProjectionView {
    pub wanted_device_rect: DeviceRect,
    pub sources: Seq<SourceProjection>,
}

impl View for TaskProjection {
    type V = ProjectionView;

    open spec fn view(&self) -> ProjectionView {
        ProjectionView { wanted_device_rect: self.wanted_device_rect, sources: self.sources@ }
    }
}

/// What is known of where targets lie, where a later entry replaces an earlier
/// one.
pub open spec fn projection_map(entries: Seq<TaskProjection>) -> Map<RenderTaskId, ProjectionView>
    decreases entries.len(),
{
    if entries.len() == 0 {
        Map::empty()
    } else {
        projection_map(entries.drop_last()).insert(entries.last().task_id, entries.last()@)
    }
}

/// What is known of a target stays known when entries follow.
proof fn lemma_projection_stays(entries: Seq<TaskProjection>, n: int, id: RenderTaskId)
    requires
        0 <= n <= entries.len(),
        projection_map(entries.take(n)).dom().contains(id),
    ensures
        projection_map(entries).dom().contains(id),
    decreases entries.len(),
{
    if n == entries.len() {
        assert(entries.take(n) =~= entries);
    } else {
        assert(entries.drop_last().take(n) =~= entries.take(n));
        lemma_projection_stays(entries.drop_last(), n, id);
    }
}

/// Where the targets of picture tasks lie among the backdrop sources, as far as
/// that has been worked out.
pub struct BackdropProjections {
    entries: Vec<TaskProjection>,
}

impl View for BackdropProjections {
    type V = Map<RenderTaskId, ProjectionView>;

    closed spec fn view(&self) -> Map<RenderTaskId, ProjectionView> {
        projection_map(self.entries@)
    }
}

/// Whether every projection speaks of `count` sources.
pub open spec fn projections_fit(
    projections: Map<RenderTaskId, ProjectionView>,
    count: nat,
) -> bool {
    forall|id: RenderTaskId|
        projections.dom().contains(id) ==> (#[trigger] projections[id]).sources.len() == count
}

impl BackdropProjections {
    /// Nothing is known of any target.
    pub fn new() -> (r: Self)
        ensures
            r@ == Map::<RenderTaskId, ProjectionView>::empty(),
    {
        BackdropProjections { entries: Vec::new() }
    }

    /// Records where the target of a task lies.
    pub fn set(&mut self, projection: TaskProjection)
        ensures
            final(self)@ == old(self)@.insert(projection.task_id, projection@),
    {
        self.entries.push(projection);
        proof {
            assert(self.entries@.drop_last() =~= old(self).entries@);
        }
    }

    /// Whether everything that is known speaks of `count` sources.
    pub fn fit(&self, count: usize) -> (r: bool)
        ensures
            r == projections_fit(self@, count as nat),
    {
        let mut n: usize = 0;
        assert(self.entries@.take(0) =~= Seq::<TaskProjection>::empty());
        while n < self.entries.len()
            invariant
                n <= self.entries@.len(),
                forall|id: RenderTaskId|
                    #[trigger] projection_map(self.entries@.take(n as int)).dom().contains(id)
                        ==> self@[id].sources.len() == count,
            decreases self.entries@.len() - n,
        {
            let task_id = self.entries[n].task_id;
            proof {
                assert(self.entries@.take(n + 1).drop_last() =~= self.entries@.take(n as int));
                assert(self.entries@.take(n + 1).last() == self.entries@[n as int]);
                assert(projection_map(self.entries@.take(n + 1)).dom().contains(task_id));
                lemma_projection_stays(self.entries@, n + 1, task_id);
            }
            match self.get(task_id) {
                Some(projection) => {
                    if projection.sources.len() != count {
                        assert(self@[task_id].sources.len() != count);
                        return false;
                    }
                },
                None => {
                    assert(false);
                },
            }
            proof {
                let before = projection_map(self.entries@.take(n as int));
                assert forall|id: RenderTaskId|
                    #[trigger] projection_map(self.entries@.take(n + 1)).dom().contains(
                        id,
                    ) implies self@[id].sources.len() == count by {
                    if id != task_id {
                        assert(before.dom().contains(id));
                    }
                }
            }
            n = n + 1;
        }
        proof {
            assert(self.entries@.take(n as int) =~= self.entries@);
            assert forall|id: RenderTaskId| self@.dom().contains(id) implies (
            #[trigger] self@[id]).sources.len() == count by {
                assert(projection_map(self.entries@.take(n as int)).dom().contains(id));
            }
        }
        true
    }

    /// Where the target of a task lies, if that is known.
    pub fn get(&self, task_id: RenderTaskId) -> (r: Option<&TaskProjection>)
        ensures
            r is Some <==> self@.dom().contains(task_id),
            r matches Some(projection) ==> projection@ == self@[task_id],
    {
        let mut n: usize = self.entries.len();
        proof {
            assert(self.entries@.take(n as int) =~= self.entries@);
        }
        while n > 0
            invariant
                n <= self.entries@.len(),
                projection_map(self.entries@.take(n as int)).dom().contains(task_id)
                    == self@.dom().contains(task_id),
                self@.dom().contains(task_id) ==> projection_map(
                    self.entries@.take(n as int),
                )[task_id] == self@[task_id],
            decreases n,
        {
            proof {
                assert(self.entries@.take(n as int).drop_last() =~= self.entries@.take(n - 1));
                assert(self.entries@.take(n as int).last() == self.entries@[n - 1]);
            }
            if self.entries[n - 1].task_id == task_id {
                return Some(&self.entries[n - 1]);
            }
            n = n - 1;
        }
        None
    }
}

/// Whether a task starts from a cleared target that nothing is copied to yet.
pub open spec fn starts_clear(graph: Graph, id: RenderTaskId) -> bool {
    &&& task(graph, id).kind is Picture
    &&& task(graph, id).picture().clear_color is Some
    &&& task(graph, id).picture().resolve_op is None
}

/// The tasks that start from a cleared target that nothing is copied to yet.
pub open spec fn clear_in(graph: Graph) -> spec_fn(RenderTaskId) -> bool {
    |id: RenderTaskId| starts_clear(graph, id)
}

/// Those of the tasks that start clear.
pub open spec fn clear_tasks(graph: Graph, ids: Seq<RenderTaskId>) -> Seq<RenderTaskId> {
    ids.filter(clear_in(graph))
}

/// Whether a task starts clear.
fn is_clear(rg_builder: &RenderTaskGraphBuilder, id: RenderTaskId) -> (r: bool)
    requires
        has_task(rg_builder@, id),
    ensures
        r == starts_clear(rg_builder@, id),
{
    match &rg_builder.get_task(id).kind {
        RenderTaskKind::Picture(info) => info.clear_color.is_some() && info.resolve_op.is_none(),
        _ => false,
    }
}

/// Lists those of the tasks that start clear.
pub fn list_clear_tasks(
    rg_builder: &RenderTaskGraphBuilder,
    ids: &Vec<RenderTaskId>,
) -> (r: Vec<RenderTaskId>)
    requires
        forall|k: int| 0 <= k < ids@.len() ==> has_task(rg_builder@, #[trigger] ids@[k]),
    ensures
        r@ == clear_tasks(rg_builder@, ids@),
{
    let ghost keep = clear_in(rg_builder@);
    let mut r: Vec<RenderTaskId> = Vec::new();
    let mut i: usize = 0;
    proof {
        lemma_filter_none(ids@, keep);
    }
    while i < ids.len()
        invariant
            i <= ids@.len(),
            keep == clear_in(rg_builder@),
            forall|k: int| 0 <= k < ids@.len() ==> has_task(rg_builder@, #[trigger] ids@[k]),
            r@ == ids@.take(i as int).filter(keep),
        decreases ids@.len() - i,
    {
        proof {
            lemma_filter_take(ids@, i as int, keep);
        }
        if is_clear(rg_builder, ids[i]) {
            r.push(ids[i]);
        }
        i = i + 1;
    }
    assert(ids@.take(ids@.len() as int) =~= ids@);
    r
}

/// The graph in which `dest` copies the targets of `src_task_ids` before it
/// draws, and `sources` besides.
pub open spec fn with_resolve(
    graph: Graph,
    dest: RenderTaskId,
    src_task_ids: Seq<RenderTaskId>,
    sources: Seq<crate::render_task_graph::ResolveSource>,
    dest_to_src_raster: ScaleOffset,
) -> Graph {
    with_picture(
        graph,
        dest,
        PictureTaskView {
            resolve_op: Some(
                ResolveOpView { src_task_ids, sources, dest_task_id: dest, dest_to_src_raster },
            ),
            ..task(graph, dest).picture()
        },
    )
}

/// The graph after a task of a slice has been made to start from what the slices
/// behind it show: if it starts from a cleared target, it depends on the tasks
/// that draw those slices, and copies what they show, if they show anything.
pub open spec fn initialized_task(
    graph: Graph,
    id: RenderTaskId,
    slice_index: usize,
    sources: Seq<BackdropSource>,
    projections: Map<RenderTaskId, ProjectionView>,
) -> Graph {
    if !starts_clear(graph, id) {
        graph
    } else {
        let order = sources_by_slice(sources);
        let area = projections[id].wanted_device_rect;
        let parts = projections[id].sources;
        let copies = source_copies(sources, order, slice_index, area, parts);
        let ordered = with_edges_to(
            graph,
            id,
            source_producers(sources, order, slice_index, area, parts),
        );
        if copies.len() == 0 {
            ordered
        } else {
            with_resolve(ordered, id, Seq::empty(), copies, ScaleOffset::identity_value())
        }
    }
}

/// The graph after every task of `ids`, once, has been made to start from what
/// the slices behind it show.
pub open spec fn initialized(
    graph: Graph,
    ids: Seq<RenderTaskId>,
    slice_index: usize,
    sources: Seq<BackdropSource>,
    projections: Map<RenderTaskId, ProjectionView>,
) -> Graph
    decreases ids.len(),
{
    if ids.len() == 0 {
        graph
    } else {
        let before = initialized(graph, ids.drop_last(), slice_index, sources, projections);
        if ids.drop_last().contains(ids.last()) {
            before
        } else {
            initialized_task(before, ids.last(), slice_index, sources, projections)
        }
    }
}

/// Whether it is known where those of the targets lie that start clear.
pub open spec fn projections_cover(
    graph: Graph,
    ids: Seq<RenderTaskId>,
    projections: Map<RenderTaskId, ProjectionView>,
) -> bool {
    forall|k: int|
        0 <= k < ids.len() && starts_clear(graph, #[trigger] ids[k])
            ==> projections.dom().contains(ids[k])
}

/// Whether it is known where those of the targets lie that start clear.
pub fn are_projections_known(
    rg_builder: &RenderTaskGraphBuilder,
    ids: &Vec<RenderTaskId>,
    projections: &BackdropProjections,
) -> (r: bool)
    requires
        forall|k: int| 0 <= k < ids@.len() ==> has_task(rg_builder@, #[trigger] ids@[k]),
    ensures
        r == projections_cover(rg_builder@, ids@, projections@),
{
    let mut n: usize = 0;
    while n < ids.len()
        invariant
            n <= ids@.len(),
            forall|k: int| 0 <= k < ids@.len() ==> has_task(rg_builder@, #[trigger] ids@[k]),
            forall|k: int|
                0 <= k < n && starts_clear(rg_builder@, #[trigger] ids@[k])
                    ==> projections@.dom().contains(ids@[k]),
        decreases ids@.len() - n,
    {
        if is_clear(rg_builder, ids[n]) && projections.get(ids[n]).is_none() {
            assert(starts_clear(rg_builder@, ids@[n as int]));
            return false;
        }
        n = n + 1;
    }
    true
}

/// Whether every source that is drawn anew is drawn by a task of the graph.
pub open spec fn sources_wf(sources: Seq<BackdropSource>, graph: Graph) -> bool {
    forall|i: int|
        0 <= i < sources.len() && (#[trigger] sources[i]).producer_task_id is Some ==> has_task(
            graph,
            sources[i].producer_task_id->0,
        )
}

/// The tasks that draw sources are tasks of the graph.
pub proof fn lemma_producers_in_graph(
    graph: Graph,
    sources: Seq<BackdropSource>,
    order: Seq<int>,
    slice_index: usize,
    area: DeviceRect,
    parts: Seq<SourceProjection>,
)
    requires
        sources_wf(sources, graph),
        forall|k: int| 0 <= k < order.len() ==> 0 <= #[trigger] order[k] < sources.len(),
    ensures
        forall|k: int|
            0 <= k < source_producers(sources, order, slice_index, area, parts).len()
                ==> has_task(
                graph,
                #[trigger] source_producers(sources, order, slice_index, area, parts)[k],
            ),
    decreases order.len(),
{
    if order.len() > 0 {
        let shorter = order.drop_last();
        assert forall|k: int| 0 <= k < shorter.len() implies 0 <= #[trigger] shorter[k]
            < sources.len() by {
            assert(shorter[k] == order[k]);
        }
        lemma_producers_in_graph(graph, sources, shorter, slice_index, area, parts);
        assert(order[order.len() - 1] == order.last());
        assert(sources[order.last()] == sources[order.last()]);
        let before = source_producers(sources, shorter, slice_index, area, parts);
        let after = source_producers(sources, order, slice_index, area, parts);
        assert forall|k: int| 0 <= k < after.len() implies has_task(graph, #[trigger] after[k]) by {
            if k < before.len() {
                assert(after[k] == before[k]);
            }
        }
    }
}

/// The sources are listed by their indices.
pub proof fn lemma_order_in_range(sources: Seq<BackdropSource>)
    ensures
        forall|k: int|
            0 <= k < sources_by_slice(sources).len() ==> 0 <= #[trigger] sources_by_slice(
                sources,
            )[k] < sources.len(),
{
    let all = Seq::new(sources.len(), |i: int| i);
    let order = sources_by_slice(sources);
    all.lemma_sort_by_ensures(crate::backdrop::source_order(sources));
    assert forall|k: int| 0 <= k < order.len() implies 0 <= #[trigger] order[k]
        < sources.len() by {
        assert(order.contains(order[k]));
        assert(all.contains(order[k]));
    }
}

/// A task may be made to start from what the slices behind it show.
pub proof fn lemma_initialized_task_grows(
    graph: Graph,
    id: RenderTaskId,
    slice_index: usize,
    sources: Seq<BackdropSource>,
    projections: Map<RenderTaskId, ProjectionView>,
)
    requires
        graph_wf(graph),
        has_task(graph, id),
        sources_wf(sources, graph),
    ensures
        grows(graph, initialized_task(graph, id, slice_index, sources, projections)),
        initialized_task(graph, id, slice_index, sources, projections).len() == graph.len(),
        forall|t: RenderTaskId|
            #![trigger starts_clear(
                initialized_task(graph, id, slice_index, sources, projections),
                t,
            )]
            has_task(graph, t) && starts_clear(
                initialized_task(graph, id, slice_index, sources, projections),
                t,
            ) ==> starts_clear(graph, t),
{
    lemma_keeps_refl(graph);
    if starts_clear(graph, id) {
        let order = sources_by_slice(sources);
        let area = projections[id].wanted_device_rect;
        let parts = projections[id].sources;
        let producers = source_producers(sources, order, slice_index, area, parts);
        lemma_order_in_range(sources);
        lemma_producers_in_graph(graph, sources, order, slice_index, area, parts);
        lemma_edges_to_grows(graph, id, producers);
        let ordered = with_edges_to(graph, id, producers);
        let copies = source_copies(sources, order, slice_index, area, parts);
        if copies.len() > 0 {
            let after = with_resolve(
                ordered,
                id,
                Seq::empty(),
                copies,
                ScaleOffset::identity_value(),
            );
            assert(is_picture(ordered, id));
            lemma_picture_grows(
                ordered,
                id,
                PictureTaskView {
                    resolve_op: Some(
                        ResolveOpView {
                            src_task_ids: Seq::empty(),
                            sources: copies,
                            dest_task_id: id,
                            dest_to_src_raster: ScaleOffset::identity_value(),
                        },
                    ),
                    ..task(ordered, id).picture()
                },
            );
            lemma_grows_trans(graph, ordered, after);
        }
    }
}

/// Makes the target of `dest` start with a copy.
pub fn set_resolve_op(
    rg_builder: &mut RenderTaskGraphBuilder,
    dest: RenderTaskId,
    op: ResolveOp,
)
    requires
        is_picture(old(rg_builder)@, dest),
        op.dest_task_id == dest,
    ensures
        final(rg_builder)@ == with_resolve(
            old(rg_builder)@,
            dest,
            op.src_task_ids@,
            op.sources@,
            op.dest_to_src_raster,
        ),
{
    let dest_task = rg_builder.get_task_mut(dest);
    match &mut dest_task.kind {
        RenderTaskKind::Picture(info) => {
            info.resolve_op = Some(op);
        },
        _ => {
            assert(false);
        },
    }
}

/// Makes every task of `task_ids`, once, start from what the slices behind it
/// show.
pub fn initialize_tasks(
    rg_builder: &mut RenderTaskGraphBuilder,
    task_ids: &Vec<RenderTaskId>,
    slice_index: usize,
    sources: &Vec<BackdropSource>,
    projections: &BackdropProjections,
)
    requires
        graph_wf(old(rg_builder)@),
        sources_wf(sources@, old(rg_builder)@),
        projections_fit(projections@, sources@.len()),
        projections_cover(old(rg_builder)@, task_ids@, projections@),
        forall|k: int|
            0 <= k < task_ids@.len() ==> has_task(old(rg_builder)@, #[trigger] task_ids@[k]),
    ensures
        final(rg_builder)@ == initialized(
            old(rg_builder)@,
            task_ids@,
            slice_index,
            sources@,
            projections@,
        ),
        grows(old(rg_builder)@, final(rg_builder)@),
        final(rg_builder)@.len() == old(rg_builder)@.len(),
{
    let ghost graph = rg_builder@;
    let mut n: usize = 0;
    proof {
        assert(task_ids@.take(0) =~= Seq::<RenderTaskId>::empty());
        lemma_keeps_refl(graph);
    }
    while n < task_ids.len()
        invariant
            n <= task_ids@.len(),
            sources_wf(sources@, graph),
            projections_fit(projections@, sources@.len()),
            projections_cover(graph, task_ids@, projections@),
            forall|t: RenderTaskId|
                has_task(graph, t) && #[trigger] starts_clear(rg_builder@, t) ==> starts_clear(
                    graph,
                    t,
                ),
            rg_builder@ == initialized(
                graph,
                task_ids@.take(n as int),
                slice_index,
                sources@,
                projections@,
            ),
            grows(graph, rg_builder@),
            rg_builder@.len() == graph.len(),
            forall|k: int| 0 <= k < task_ids@.len() ==> has_task(graph, #[trigger] task_ids@[k]),
        decreases task_ids@.len() - n,
    {
        let task_id = task_ids[n];
        let ghost before = rg_builder@;
        proof {
            assert(task_ids@.take(n + 1).drop_last() =~= task_ids@.take(n as int));
            assert(task_ids@.take(n + 1).last() == task_id);
            assert(has_task(graph, task_ids@[n as int]));
        }
        let mut repeated: bool = false;
        let mut k: usize = 0;
        while k < n
            invariant
                k <= n < task_ids@.len(),
                repeated <==> exists|j: int| 0 <= j < k && #[trigger] task_ids@[j] == task_id,
            decreases n - k,
        {
            if task_ids[k] == task_id {
                repeated = true;
            }
            k = k + 1;
        }
        proof {
            let earlier = task_ids@.take(n as int);
            if repeated {
                let j = choose|j: int| 0 <= j < n && #[trigger] task_ids@[j] == task_id;
                assert(earlier[j] == task_id);
            }
            if earlier.contains(task_id) {
                let j = choose|j: int| 0 <= j < earlier.len() && earlier[j] == task_id;
                assert(task_ids@[j] == task_id);
            }
            assert(sources_wf(sources@, before));
            lemma_initialized_task_grows(before, task_id, slice_index, sources@, projections@);
            if !repeated {
                lemma_grows_trans(
                    graph,
                    before,
                    initialized_task(before, task_id, slice_index, sources@, projections@),
                );
            }
        }
        if !repeated {
            if is_clear(rg_builder, task_id) {
                assert(starts_clear(graph, task_ids@[n as int]));
                if let Some(projection) = projections.get(task_id) {
                    let copies = cross_slice_resolve_sources(
                        sources,
                        slice_index,
                        &projection.wanted_device_rect,
                        &projection.sources,
                        task_id,
                        rg_builder,
                    );
                    if copies.len() > 0 {
                        let op = ResolveOp {
                            src_task_ids: Vec::new(),
                            sources: copies,
                            dest_task_id: task_id,
                            dest_to_src_raster: ScaleOffset::identity(),
                        };
                        assert(op.src_task_ids@ =~= Seq::<RenderTaskId>::empty());
                        set_resolve_op(rg_builder, task_id, op);
                    }
                }
            }
            assert(rg_builder@ == initialized_task(
                before,
                task_id,
                slice_index,
                sources@,
                projections@,
            ));
        }
        n = n + 1;
    }
    assert(task_ids@.take(task_ids@.len() as int) =~= task_ids@);
}

} // verus!
