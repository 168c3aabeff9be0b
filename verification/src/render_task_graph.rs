//! Render tasks, and the graph of the dependencies between them.

use vstd::prelude::*;

use crate::command_buffer::CommandBufferIndex;
use crate::geometry::{DeviceIntRect, DeviceIntSize, DeviceIntVector, DevicePoint};
use crate::scalar::Scalar;
use crate::spatial::{DevicePixelScale, ScaleOffset, SpatialNodeIndex};

verus! {

/// A task of the graph.
#[derive(Clone, Copy, Debug, PartialEq, Eq, Hash, Structural)]
pub struct RenderTaskId {
    pub index: usize,
}

/// A colour with its opacity.
#[derive(Clone, Copy, Debug, PartialEq, Eq, Structural)]
pub struct ColorF {
    pub r: Scalar,
    pub g: Scalar,
    pub b: Scalar,
    pub a: Scalar,
}

/// A texture that a backdrop can be read from, by its identity.
#[derive(Clone, Copy, Debug, PartialEq, Eq, Structural)]
pub struct TextureSource {
    pub id: u64,
}

/// A surface that outlives the frame, by its identity.
#[derive(Clone, Copy, Debug, PartialEq, Eq, Structural)]
pub struct StaticSurface {
    pub id: u64,
}

/// Where a task draws to.
#[derive(Clone, Copy, Debug, PartialEq, Eq, Structural)]
pub enum RenderTaskLocation {
    /// A part of a render target that is still to be allocated.
    Unallocated { size: DeviceIntSize },
    /// A part of a render target that has been allocated.
    Dynamic { rect: DeviceIntRect },
    /// A slot of the render task cache that has been asked for.
    CacheRequest { size: DeviceIntSize },
    /// The place of another task, which draws there first.
    Existing { parent_task_id: RenderTaskId, size: DeviceIntSize },
    /// A part of a surface that outlives the frame.
    Static { surface: StaticSurface, rect: DeviceIntRect },
}

impl RenderTaskLocation {
    /// Whether the extent of the location can be written as a size.
    pub open spec fn sizable(self) -> bool {
        match self {
            RenderTaskLocation::Dynamic { rect } => rect.sizable(),
            RenderTaskLocation::Static { rect, .. } => rect.sizable(),
            _ => true,
        }
    }

    /// The extent of the location.
    pub open spec fn extent(self) -> DeviceIntSize {
        match self {
            RenderTaskLocation::Unallocated { size } => size,
            RenderTaskLocation::Dynamic { rect } => rect.extent(),
            RenderTaskLocation::CacheRequest { size } => size,
            RenderTaskLocation::Existing { size, .. } => size,
            RenderTaskLocation::Static { rect, .. } => rect.extent(),
        }
    }

    /// The extent of the location.
    pub fn size(&self) -> (r: DeviceIntSize)
        requires
            self.sizable(),
        ensures
            r == self.extent(),
    {
        match self {
            RenderTaskLocation::Unallocated { size } => *size,
            RenderTaskLocation::Dynamic { rect } => rect.size(),
            RenderTaskLocation::CacheRequest { size } => *size,
            RenderTaskLocation::Existing { size, .. } => *size,
            RenderTaskLocation::Static { rect, .. } => rect.size(),
        }
    }
}

/// What a resolve copies besides the tasks it reads.
#[derive(Clone, Copy, Debug, PartialEq, Eq, Structural)]
pub enum ResolveSource {
    /// A part of a texture.
    Texture { source: TextureSource, src_rect: DeviceIntRect, dest_rect: DeviceIntRect },
    /// A plain colour.
    Color { color: ColorF, dest_rect: DeviceIntRect },
}

/// A copy into the target of a picture task, before it draws.
pub struct ResolveOp {
    /// The tasks whose targets are copied from.
    pub src_task_ids: Vec<RenderTaskId>,
    /// What is copied besides.
    pub sources: Vec<ResolveSource>,
    /// The task whose target is copied to.
    pub dest_task_id: RenderTaskId,
    /// The mapping from the raster space of the target to that of the tasks
    /// which are copied from.
    pub dest_to_src_raster: ScaleOffset,
}

/// A [`ResolveOp`], with sequences for its lists.
#[verifier::ext_equal]
pub struct ResolveOpView {
    pub src_task_ids: Seq<RenderTaskId>,
    pub sources: Seq<ResolveSource>,
    pub dest_task_id: RenderTaskId,
    pub dest_to_src_raster: ScaleOffset,
}

impl View for ResolveOp {
    type V = ResolveOpView;

    open spec fn view(&self) -> ResolveOpView {
        ResolveOpView {
            src_task_ids: self.src_task_ids@,
            sources: self.sources@,
            dest_task_id: self.dest_task_id,
            dest_to_src_raster: self.dest_to_src_raster,
        }
    }
}

/// A task that draws the primitives of a picture.
pub struct PictureTask {
    /// The commands that the task draws.
    pub cmd_buffer_index: CommandBufferIndex,
    /// The node in whose space the picture is rasterized.
    pub raster_spatial_node_index: SpatialNodeIndex,
    /// The device position of the content.
    pub content_origin: DevicePoint,
    /// The extent of the content.
    pub content_size: DeviceIntSize,
    /// The ratio of device pixels to picture units.
    pub device_pixel_scale: DevicePixelScale,
    /// The colour that the target is cleared to, if it is.
    pub clear_color: Option<ColorF>,
    /// The part of the target that may be drawn to, if it is limited.
    pub scissor_rect: Option<DeviceIntRect>,
    /// The part of the target that holds content, if it is limited.
    pub valid_rect: Option<DeviceIntRect>,
    /// The copy that comes before the drawing, if there is one.
    pub resolve_op: Option<ResolveOp>,
}

/// A [`PictureTask`], with sequences for its lists.
#[verifier::ext_equal]
pub struct PictureTaskView {
    pub cmd_buffer_index: CommandBufferIndex,
    pub raster_spatial_node_index: SpatialNodeIndex,
    pub content_origin: DevicePoint,
    pub content_size: DeviceIntSize,
    pub device_pixel_scale: DevicePixelScale,
    pub clear_color: Option<ColorF>,
    pub scissor_rect: Option<DeviceIntRect>,
    pub valid_rect: Option<DeviceIntRect>,
    pub resolve_op: Option<ResolveOpView>,
}

impl View for PictureTask {
    type V = PictureTaskView;

    open spec fn view(&self) -> PictureTaskView {
        PictureTaskView {
            cmd_buffer_index: self.cmd_buffer_index,
            raster_spatial_node_index: self.raster_spatial_node_index,
            content_origin: self.content_origin,
            content_size: self.content_size,
            device_pixel_scale: self.device_pixel_scale,
            clear_color: self.clear_color,
            scissor_rect: self.scissor_rect,
            valid_rect: self.valid_rect,
            resolve_op: match self.resolve_op {
                Some(op) => Some(op@),
                None => None,
            },
        }
    }
}

impl PictureTaskView {
    /// The task that goes on drawing where this one stops: it draws other
    /// commands, and neither clears nor copies anything first.
    pub open spec fn continued(self, cmd_buffer_index: CommandBufferIndex) -> Self {
        PictureTaskView { cmd_buffer_index, clear_color: None, resolve_op: None, ..self }
    }
}

impl PictureTask {
    /// The task that goes on drawing where this one stops, with the commands of
    /// `cmd_buffer_index`.
    pub fn duplicate(&self, cmd_buffer_index: CommandBufferIndex) -> (r: PictureTask)
        ensures
            r@ == self@.continued(cmd_buffer_index),
    {
        PictureTask {
            cmd_buffer_index,
            raster_spatial_node_index: self.raster_spatial_node_index,
            content_origin: self.content_origin,
            content_size: self.content_size,
            device_pixel_scale: self.device_pixel_scale,
            clear_color: None,
            scissor_rect: self.scissor_rect,
            valid_rect: self.valid_rect,
            resolve_op: None,
        }
    }
}

/// A task that copies the drawn content of a tile into its slot.
#[derive(Clone, Copy, Debug, PartialEq, Eq, Structural)]
pub struct TileCompositeTask {
    /// The part of the slot that is copied to.
    pub scissor_rect: DeviceIntRect,
    /// The part of the slot that holds content.
    pub valid_rect: DeviceIntRect,
    /// The position, in the drawn content, of what is copied.
    pub sub_rect_offset: DeviceIntVector,
    /// The task that draws the content, once that is settled.
    pub task_id: Option<RenderTaskId>,
}

/// What the pixels of a target mean.
#[derive(Clone, Copy, Debug, PartialEq, Eq, Structural)]
pub enum RenderTargetKind {
    Color,
    Alpha,
}

/// What a task does.
pub enum RenderTaskKind {
    /// Draws the primitives of a picture.
    Picture(PictureTask),
    /// Copies a tile into its slot.
    TileComposite(TileCompositeTask),
    /// Nothing: the content is there already.
    Cached { target_kind: RenderTargetKind },
    /// Anything else, such as a step of a blur or a clip mask.
    Effect,
}

/// A [`RenderTaskKind`], with sequences for its lists.
#[verifier::ext_equal]
pub enum TaskKindView {
    Picture(PictureTaskView),
    TileComposite(TileCompositeTask),
    Cached { target_kind: RenderTargetKind },
    Effect,
}

impl View for RenderTaskKind {
    type V = TaskKindView;

    open spec fn view(&self) -> TaskKindView {
        match *self {
            RenderTaskKind::Picture(info) => TaskKindView::Picture(info@),
            RenderTaskKind::TileComposite(info) => TaskKindView::TileComposite(info),
            RenderTaskKind::Cached { target_kind } => TaskKindView::Cached { target_kind },
            RenderTaskKind::Effect => TaskKindView::Effect,
        }
    }
}

/// A task, and the tasks whose output it needs.
pub struct RenderTask {
    pub location: RenderTaskLocation,
    pub kind: RenderTaskKind,
    pub children: Vec<RenderTaskId>,
}

/// A [`RenderTask`], with sequences for its lists.
#[verifier::ext_equal]
pub struct TaskView {
    pub location: RenderTaskLocation,
    pub kind: TaskKindView,
    pub children: Seq<RenderTaskId>,
}

impl View for RenderTask {
    type V = TaskView;

    open spec fn view(&self) -> TaskView {
        TaskView { location: self.location, kind: self.kind@, children: self.children@ }
    }
}

impl TaskView {
    /// What the task draws, if it draws a picture.
    pub open spec fn picture(self) -> PictureTaskView {
        self.kind->Picture_0
    }

    /// Whether the rectangles of the task have sizes.
    pub open spec fn sizable(self) -> bool {
        &&& self.location.sizable()
        &&& self.kind matches TaskKindView::TileComposite(info) ==> info.scissor_rect.sizable()
    }
}

impl RenderTask {
    /// A task that needs no other yet.
    pub fn new(location: RenderTaskLocation, kind: RenderTaskKind) -> (r: RenderTask)
        ensures
            r@ == (TaskView { location, kind: kind@, children: Seq::empty() }),
    {
        RenderTask { location, kind, children: Vec::new() }
    }
}

/// The tasks of a graph, each under its index.
pub type Graph = Seq<TaskView>;

/// Whether `id` is a task of the graph.
pub open spec fn has_task(graph: Graph, id: RenderTaskId) -> bool {
    id.index < graph.len()
}

/// The task under `id`.
pub open spec fn task(graph: Graph, id: RenderTaskId) -> TaskView {
    graph[id.index as int]
}

/// Whether `id` is a task that draws a picture.
pub open spec fn is_picture(graph: Graph, id: RenderTaskId) -> bool {
    has_task(graph, id) && task(graph, id).kind is Picture
}

/// Whether every dependency is on a task of the graph, and every rectangle of a
/// task has a size.
pub open spec fn graph_wf(graph: Graph) -> bool {
    &&& forall|i: int, k: int|
        #![trigger graph[i].children[k]]
        0 <= i < graph.len() && 0 <= k < graph[i].children.len() ==> has_task(
            graph,
            graph[i].children[k],
        )
    &&& forall|i: int| 0 <= i < graph.len() ==> (#[trigger] graph[i]).sizable()
}

/// The graph in which `parent` needs `child` too.
pub open spec fn with_edge(graph: Graph, parent: RenderTaskId, child: RenderTaskId) -> Graph {
    graph.update(
        parent.index as int,
        TaskView { children: task(graph, parent).children.push(child), ..task(graph, parent) },
    )
}

/// The graph in which every task of `parents`, in turn, needs `child` too.
pub open spec fn with_edges_from(
    graph: Graph,
    parents: Seq<RenderTaskId>,
    child: RenderTaskId,
) -> Graph
    decreases parents.len(),
{
    if parents.len() == 0 {
        graph
    } else {
        with_edge(with_edges_from(graph, parents.drop_last(), child), parents.last(), child)
    }
}

/// The graph in which `parent` needs every task of `children`, in turn, too.
pub open spec fn with_edges_to(
    graph: Graph,
    parent: RenderTaskId,
    children: Seq<RenderTaskId>,
) -> Graph {
    graph.update(
        parent.index as int,
        TaskView { children: task(graph, parent).children + children, ..task(graph, parent) },
    )
}

/// The graph in which `id` draws a picture as `picture` says.
pub open spec fn with_picture(graph: Graph, id: RenderTaskId, picture: PictureTaskView) -> Graph {
    graph.update(
        id.index as int,
        TaskView { kind: TaskKindView::Picture(picture), ..task(graph, id) },
    )
}

/// The graph of the render tasks of a frame, while it is built.
pub struct RenderTaskGraphBuilder {
    tasks: Vec<RenderTask>,
}

impl View for RenderTaskGraphBuilder {
    type V = Graph;

    closed spec fn view(&self) -> Graph {
        Seq::new(self.tasks@.len(), |i: int| self.tasks@[i]@)
    }
}

impl RenderTaskGraphBuilder {
    /// A graph without tasks.
    pub fn new() -> (r: Self)
        ensures
            r@ == Seq::<TaskView>::empty(),
            graph_wf(r@),
    {
        let r = RenderTaskGraphBuilder { tasks: Vec::new() };
        assert(r@ =~= Seq::<TaskView>::empty());
        r
    }

    /// A graph has no more tasks than can be counted.
    pub proof fn lemma_countable(&self)
        ensures
            self@.len() <= usize::MAX,
    {
        assert(self.tasks@.len() == self.tasks.len());
    }

    /// The number of tasks.
    pub fn task_count(&self) -> (r: usize)
        ensures
            r == self@.len(),
    {
        self.tasks.len()
    }

    /// The task under `id`.
    pub fn get_task(&self, id: RenderTaskId) -> (r: &RenderTask)
        requires
            has_task(self@, id),
        ensures
            r@ == task(self@, id),
    {
        &self.tasks[id.index]
    }

    /// The task under `id`, to be changed.
    pub fn get_task_mut(&mut self, id: RenderTaskId) -> (r: &mut RenderTask)
        requires
            has_task(old(self)@, id),
        ensures
            (*r)@ == task(old(self)@, id),
            final(self)@ == old(self)@.update(id.index as int, (*final(r))@),
    {
        &mut self.tasks[id.index]
    }

    /// Adds a task, under the next index.
    pub fn add(&mut self, task: RenderTask) -> (id: RenderTaskId)
        ensures
            id.index == old(self)@.len(),
            final(self)@ == old(self)@.push(task@),
    {
        let id = RenderTaskId { index: self.tasks.len() };
        self.tasks.push(task);
        assert(self@ =~= old(self)@.push(task@));
        id
    }

    /// Makes `parent` need the output of `child`.
    pub fn add_dependency(&mut self, parent: RenderTaskId, child: RenderTaskId)
        requires
            has_task(old(self)@, parent),
        ensures
            final(self)@ == with_edge(old(self)@, parent, child),
    {
        self.get_task_mut(parent).children.push(child);
    }
}

} // verus!
