use webrender_surface::backdrop::{BackdropSource, BackdropSourceKind, SourceProjection};
use webrender_surface::command_buffer::{CommandBufferIndex, CommandBufferList};
use webrender_surface::geometry::{
    DeviceIntPoint, DeviceIntRect, DeviceIntSize, Point, Rect,
};
use webrender_surface::render_task_graph::{
    ColorF, PictureTask, RenderTask, RenderTaskGraphBuilder, RenderTaskId, RenderTaskKind,
    RenderTaskLocation, ResolveOp, ResolveSource, StaticSurface, TextureSource, TileCompositeTask,
};
use webrender_surface::resolve::{BackdropProjections, TaskProjection};
use webrender_surface::routing::{DrawState, PrimitiveDrawHeader};
use webrender_surface::scalar::Scalar;
use webrender_surface::spatial::{
    CoordinateSpaceMapping, DevicePixelScale, ScaleOffset, SpatialNodeIndex, SpatialTree,
};
use webrender_surface::surface::{PictureIndex, SurfaceBuilder, SurfaceDescriptor};
use webrender_surface::surface_info::{Projection, SurfaceIndex, SurfaceInfo};
use webrender_surface::tile::{SubSliceIndex, SurfaceTileDescriptor, TileKey, TileMap};

fn scalar(v: f32) -> Scalar {
    Scalar::from_bits(v.to_bits())
}

fn rect(x0: f32, y0: f32, x1: f32, y1: f32) -> Rect {
    Rect {
        min: Point { x: scalar(x0), y: scalar(y0) },
        max: Point { x: scalar(x1), y: scalar(y1) },
    }
}

fn pixels(x0: i32, y0: i32, x1: i32, y1: i32) -> DeviceIntRect {
    DeviceIntRect { min: DeviceIntPoint { x: x0, y: y0 }, max: DeviceIntPoint { x: x1, y: y1 } }
}

fn size(width: i32, height: i32) -> DeviceIntSize {
    DeviceIntSize { width, height }
}

fn black() -> ColorF {
    ColorF { r: scalar(0.0), g: scalar(0.0), b: scalar(0.0), a: scalar(1.0) }
}

/// A frame with the surfaces, tasks and command buffers that are being built.
struct Frame {
    rg: RenderTaskGraphBuilder,
    buffers: CommandBufferList,
    builder: SurfaceBuilder,
    surfaces: Vec<SurfaceInfo>,
    tree: SpatialTree,
    projections: BackdropProjections,
}

impl Frame {
    fn new() -> Frame {
        let info = SurfaceInfo::new(
            SpatialNodeIndex(0),
            SpatialNodeIndex(0),
            None,
            Projection { is_scale_offset: true, rect: Some(rect(0.0, 0.0, 400.0, 400.0)) },
            DevicePixelScale(scalar(1.0)),
            (scalar(1.0), scalar(1.0)),
            (scalar(1.0), scalar(1.0)),
            (scalar(1.0), scalar(1.0)),
            true,
            false,
        );
        Frame {
            rg: RenderTaskGraphBuilder::new(),
            buffers: CommandBufferList::new(),
            builder: SurfaceBuilder::new(),
            surfaces: vec![info; 4],
            tree: SpatialTree::new(SpatialNodeIndex(0)),
            projections: BackdropProjections::new(),
        }
    }

    fn picture_at(&mut self, node: u32, location: RenderTaskLocation) -> RenderTaskId {
        let cmd_buffer_index = self.buffers.create_cmd_buffer();
        self.rg.add(RenderTask::new(
            location,
            RenderTaskKind::Picture(PictureTask {
                cmd_buffer_index,
                raster_spatial_node_index: SpatialNodeIndex(node),
                content_origin: Point { x: scalar(0.0), y: scalar(0.0) },
                content_size: size(100, 100),
                device_pixel_scale: DevicePixelScale(scalar(1.0)),
                clear_color: None,
                scissor_rect: None,
                valid_rect: None,
                resolve_op: None,
            }),
        ))
    }

    fn picture(&mut self) -> RenderTaskId {
        self.picture_at(0, RenderTaskLocation::Unallocated { size: size(100, 100) })
    }

    fn effect(&mut self) -> RenderTaskId {
        self.rg.add(RenderTask::new(
            RenderTaskLocation::Unallocated { size: size(100, 100) },
            RenderTaskKind::Effect,
        ))
    }

    fn composite(&mut self) -> RenderTaskId {
        self.rg.add(RenderTask::new(
            RenderTaskLocation::Static {
                surface: StaticSurface { id: 3 },
                rect: pixels(0, 0, 100, 100),
            },
            RenderTaskKind::TileComposite(TileCompositeTask {
                scissor_rect: pixels(0, 0, 100, 100),
                valid_rect: pixels(0, 0, 100, 100),
                sub_rect_offset: DeviceIntPoint { x: 0, y: 0 },
                task_id: None,
            }),
        ))
    }

    fn push(&mut self, is_sub_graph: bool, descriptor: Option<SurfaceDescriptor>) {
        self.builder.push_surface(
            SurfaceIndex(1),
            is_sub_graph,
            rect(0.0, 0.0, 300.0, 300.0),
            descriptor,
            &mut self.surfaces,
            &self.rg,
        );
    }

    fn push_tiles(&mut self, tiles: Vec<(TileKey, SurfaceTileDescriptor)>) {
        let mut map = TileMap::new();
        for (key, tile) in tiles {
            map.insert(key, tile);
        }
        self.push(false, Some(SurfaceDescriptor::new_tiled(map)));
    }

    fn pop(&mut self, picture: usize) {
        self.builder.pop_surface(
            PictureIndex(picture),
            &mut self.rg,
            &mut self.buffers,
            &self.tree,
            &self.projections,
        );
    }

    /// Draws a sub-graph that reads `area`, with its resolve target in the space
    /// of `node`. Gives the target and the output.
    fn filter_at(&mut self, node: u32, picture: usize, area: Rect) -> (RenderTaskId, RenderTaskId) {
        let location = RenderTaskLocation::Unallocated { size: size(50, 50) };
        let target = self.picture_at(node, location);
        let output = self.picture_at(node, location);
        self.push(true, Some(SurfaceDescriptor::new_simple(output, area)));
        self.push(false, Some(SurfaceDescriptor::new_simple(target, area)));
        self.builder.register_resolve_source(area);
        self.pop(picture + 100);
        self.pop(picture);
        (target, output)
    }

    fn filter(&mut self, picture: usize, area: Rect) -> (RenderTaskId, RenderTaskId) {
        self.filter_at(0, picture, area)
    }

    fn targets(&mut self, area: Rect, tracks: bool, backdrop: bool) -> Vec<CommandBufferIndex> {
        let mut targets = Vec::new();
        let vis = PrimitiveDrawHeader {
            state: DrawState::Visible { sub_slice_index: SubSliceIndex(0) },
            pic_coverage_rect: area,
        };
        let drawn = self.builder.get_cmd_buffer_targets_for_prim(
            &vis,
            tracks,
            backdrop,
            &self.rg,
            &mut targets,
        );
        assert_eq!(drawn, !targets.is_empty());
        targets
    }

    fn children(&self, id: RenderTaskId) -> Vec<RenderTaskId> {
        self.rg.get_task(id).children.clone()
    }

    fn buffer(&self, id: RenderTaskId) -> CommandBufferIndex {
        self.info(id).cmd_buffer_index
    }

    fn info(&self, id: RenderTaskId) -> &PictureTask {
        match &self.rg.get_task(id).kind {
            RenderTaskKind::Picture(info) => info,
            _ => panic!("not a picture"),
        }
    }

    fn resolve(&self, id: RenderTaskId) -> &ResolveOp {
        self.info(id).resolve_op.as_ref().unwrap()
    }
}

fn key(x: i32) -> TileKey {
    TileKey { tile_x: x, tile_y: 0, sub_slice_index: SubSliceIndex(0) }
}

/// The tile of a row, a hundred units wide.
fn tile(x: i32, current: RenderTaskId) -> (TileKey, SurfaceTileDescriptor) {
    let left = (x * 100) as f32;
    (
        key(x),
        SurfaceTileDescriptor {
            current_task_id: current,
            composite_task_id: None,
            dirty_rect: rect(left, 0.0, left + 100.0, 100.0),
            deferred_task_id: None,
            deferred_output_rects: Vec::new(),
            slice_index: 2,
            pic_to_device: None,
        },
    )
}

fn id(index: usize) -> RenderTaskId {
    RenderTaskId { index }
}

#[test]
fn starting_a_surface_sets_its_clipping_rectangle() {
    let mut f = Frame::new();
    let before = f.surfaces[0];
    f.push(false, None);
    assert_eq!(f.surfaces[1].clipping_rect, rect(0.0, 0.0, 300.0, 300.0));
    assert_eq!(f.surfaces[0], before);
    assert_eq!(f.surfaces[2], before);
    assert!(f.targets(rect(0.0, 0.0, 10.0, 10.0), true, true).is_empty());
    f.builder.pop_empty_surface();
    f.builder.finalize();
}

#[test]
fn every_tile_needs_a_simple_surface_on_top_of_it() {
    let mut f = Frame::new();
    let (a, b, child) = (f.picture(), f.picture(), f.picture());
    f.push_tiles(vec![tile(0, a), tile(1, b)]);
    f.push(false, Some(SurfaceDescriptor::new_simple(child, rect(0.0, 0.0, 9.0, 9.0))));
    f.pop(7);
    assert_eq!(f.children(a), vec![child]);
    assert_eq!(f.children(b), vec![child]);
    assert!(f.builder.sub_graph_output_map.is_empty());
    // Commands go to the tiles again.
    assert_eq!(f.targets(rect(50.0, 0.0, 60.0, 9.0), false, false), vec![f.buffer(a)]);
    f.pop(8);
    f.builder.finalize();
}

#[test]
fn a_simple_surface_needs_the_output_of_the_chain_on_top_of_it() {
    let mut f = Frame::new();
    let (parent, child, root) = (f.picture(), f.picture(), f.effect());
    f.push(false, None);
    f.push(false, Some(SurfaceDescriptor::new_simple(parent, rect(0.0, 0.0, 9.0, 9.0))));
    f.push(false, Some(SurfaceDescriptor::new_chained(child, root, rect(0.0, 0.0, 9.0, 9.0))));
    f.pop(1);
    assert_eq!(f.children(parent), vec![root]);
    // A surface that is not drawn needs nothing.
    f.pop(2);
    assert!(f.children(child).is_empty());
    f.pop(3);
    f.builder.finalize();
}

#[test]
fn added_tasks_are_needed_at_once_or_at_the_end() {
    let mut f = Frame::new();
    let (a, b) = (f.picture(), f.picture());
    let (mask, shadow) = (f.effect(), f.effect());
    f.push_tiles(vec![tile(0, a), tile(1, b)]);
    f.builder.add_child_render_task(mask, &mut f.rg);
    f.builder.add_picture_render_task(shadow);
    assert_eq!(f.children(a), vec![mask]);
    assert_eq!(f.children(b), vec![mask]);
    let (_, output) = f.filter(1, rect(10.0, 10.0, 20.0, 20.0));
    f.pop(0);
    // The first tile is held by the task that took over, the second is not.
    let taken_over = id(f.rg.task_count() - 1);
    assert_eq!(f.children(taken_over), vec![a, output, shadow]);
    assert_eq!(f.children(a), vec![mask]);
    assert_eq!(f.children(b), vec![mask, shadow]);
}

#[test]
fn a_simple_surface_needs_added_tasks_too() {
    let mut f = Frame::new();
    let parent = f.picture();
    let (mask, shadow) = (f.effect(), f.effect());
    f.push(false, None);
    f.push(false, Some(SurfaceDescriptor::new_simple(parent, rect(0.0, 0.0, 9.0, 9.0))));
    f.builder.add_child_render_task(mask, &mut f.rg);
    f.builder.add_picture_render_task(shadow);
    f.pop(0);
    assert_eq!(f.children(parent), vec![mask, shadow]);
}

#[test]
fn a_tile_is_copied_into_its_slot() {
    let mut f = Frame::new();
    let (a, slot) = (f.picture(), f.composite());
    let mut entry = tile(0, a);
    entry.1.composite_task_id = Some(slot);
    f.push_tiles(vec![entry]);
    f.pop(0);
    assert_eq!(f.children(slot), vec![a]);
    match &f.rg.get_task(slot).kind {
        RenderTaskKind::TileComposite(info) => assert_eq!(info.task_id, Some(a)),
        _ => panic!("not a tile composite"),
    }
}

#[test]
fn a_tile_with_a_filter_draws_straight_into_its_slot() {
    let mut f = Frame::new();
    let (a, slot) = (f.picture(), f.composite());
    let mut entry = tile(0, a);
    entry.1.composite_task_id = Some(slot);
    f.push_tiles(vec![entry]);
    f.filter(1, rect(10.0, 10.0, 20.0, 20.0));
    let taken_over = id(f.rg.task_count() - 1);
    f.pop(0);
    assert!(matches!(f.rg.get_task(slot).kind, RenderTaskKind::Cached { .. }));
    assert_eq!(f.children(slot), vec![taken_over]);
    assert!(matches!(f.rg.get_task(taken_over).location, RenderTaskLocation::Static { .. }));
    assert_eq!(f.resolve(taken_over).src_task_ids, vec![a]);
}

#[test]
fn a_filter_is_spliced_into_the_tile_that_it_reads() {
    let mut f = Frame::new();
    let (a, b) = (f.picture(), f.picture());
    f.push_tiles(vec![tile(0, a), tile(1, b)]);
    let tasks = f.rg.task_count();
    let buffers = f.buffers.len();
    let area = rect(10.0, 10.0, 20.0, 20.0);
    let (target, output) = f.filter(5, area);
    let taken_over = id(f.rg.task_count() - 1);
    // One target, one output and one task that takes over.
    assert_eq!(f.rg.task_count(), tasks + 3);
    assert_eq!(f.buffers.len(), buffers + 3);
    // The new task draws to the same place, after the old one and the output.
    assert_eq!(
        f.rg.get_task(taken_over).location,
        RenderTaskLocation::Existing { parent_task_id: a, size: size(100, 100) },
    );
    assert_eq!(f.children(taken_over), vec![a, output]);
    assert_eq!(f.buffer(taken_over), CommandBufferIndex(buffers + 2));
    // The old one is copied to the target, which needs it.
    assert_eq!(f.resolve(target).src_task_ids, vec![a]);
    assert_eq!(f.resolve(target).dest_task_id, target);
    assert!(f.resolve(target).sources.is_empty());
    assert_eq!(f.resolve(target).dest_to_src_raster, ScaleOffset::identity());
    assert_eq!(f.children(target), vec![a]);
    assert_eq!(f.children(output), vec![target]);
    // Neither the old task nor the other tile waits for the filter.
    assert!(f.children(a).is_empty());
    assert!(f.children(b).is_empty());
    assert_eq!(f.builder.sub_graph_output_map.get(&5), Some(&output));
    assert_eq!(f.builder.sub_graph_output_map.len(), 1);
    assert_eq!(f.builder.sub_graph_output(PictureIndex(5)), Some(output));
    assert_eq!(f.builder.sub_graph_output(PictureIndex(6)), None);
}

#[test]
fn a_filter_over_two_tiles_reads_both() {
    let mut f = Frame::new();
    let (a, b) = (f.picture(), f.picture());
    f.push_tiles(vec![tile(0, a), tile(1, b)]);
    let (target, output) = f.filter(5, rect(90.0, 10.0, 110.0, 20.0));
    let n = f.rg.task_count();
    assert_eq!(f.resolve(target).src_task_ids, vec![a, b]);
    assert_eq!(f.children(target), vec![a, b]);
    assert_eq!(f.children(id(n - 2)), vec![a, output]);
    assert_eq!(f.children(id(n - 1)), vec![b, output]);
}

#[test]
fn an_overlapping_filter_reads_the_output_of_the_one_before() {
    let mut f = Frame::new();
    let a = f.picture();
    f.push_tiles(vec![tile(0, a)]);
    let (_, first_output) = f.filter(1, rect(10.0, 10.0, 20.0, 20.0));
    let first = id(f.rg.task_count() - 1);
    let (target, second_output) = f.filter(2, rect(15.0, 15.0, 30.0, 30.0));
    let second = id(f.rg.task_count() - 1);
    assert_eq!(f.children(first), vec![a, first_output]);
    assert_eq!(f.resolve(target).src_task_ids, vec![first]);
    assert_eq!(f.children(second), vec![first, second_output]);
    assert_eq!(
        f.rg.get_task(second).location,
        RenderTaskLocation::Existing { parent_task_id: first, size: size(100, 100) },
    );
}

#[test]
fn disjoint_filters_read_the_same_task() {
    let mut f = Frame::new();
    let a = f.picture();
    f.push_tiles(vec![tile(0, a)]);
    let (first_target, first_output) = f.filter(1, rect(10.0, 10.0, 20.0, 20.0));
    let taken_over = id(f.rg.task_count() - 1);
    let n = f.rg.task_count();
    let (second_target, second_output) = f.filter(2, rect(40.0, 40.0, 50.0, 50.0));
    // No other task takes over.
    assert_eq!(f.rg.task_count(), n + 2);
    assert_eq!(f.resolve(first_target).src_task_ids, vec![a]);
    assert_eq!(f.resolve(second_target).src_task_ids, vec![a]);
    assert_eq!(f.children(taken_over), vec![a, first_output, second_output]);
}

#[test]
fn a_tile_drawn_straight_into_its_slot_is_not_read() {
    let mut f = Frame::new();
    let slot = RenderTaskLocation::Static {
        surface: StaticSurface { id: 1 },
        rect: pixels(0, 0, 100, 100),
    };
    let a = f.picture_at(0, slot);
    f.push_tiles(vec![tile(0, a)]);
    let n = f.rg.task_count();
    let (target, output) = f.filter(5, rect(10.0, 10.0, 20.0, 20.0));
    assert_eq!(f.rg.task_count(), n + 2);
    assert!(f.resolve(target).src_task_ids.is_empty());
    assert!(f.children(target).is_empty());
    assert!(f.children(a).is_empty());
    assert_eq!(f.builder.sub_graph_output_map.get(&5), Some(&output));
}

#[test]
fn the_task_that_a_filter_reads_stops_waiting_for_it() {
    let mut f = Frame::new();
    let (a, mask) = (f.picture(), f.effect());
    f.push_tiles(vec![tile(0, a)]);
    f.builder.add_child_render_task(mask, &mut f.rg);
    let area = rect(10.0, 10.0, 20.0, 20.0);
    let (target, output) = (f.picture(), f.picture());
    f.rg.add_dependency(a, output);
    f.rg.add_dependency(a, output);
    f.push(true, Some(SurfaceDescriptor::new_simple(output, area)));
    f.push(false, Some(SurfaceDescriptor::new_simple(target, area)));
    f.builder.register_resolve_source(area);
    f.pop(1);
    f.pop(2);
    assert_eq!(f.children(a), vec![mask]);
}

#[test]
fn a_filter_that_reads_nothing_back_is_needed_by_every_tile() {
    let mut f = Frame::new();
    let (a, b, output, root) = (f.picture(), f.picture(), f.picture(), f.effect());
    f.push_tiles(vec![tile(0, a), tile(1, b)]);
    let n = f.rg.task_count();
    f.push(true, Some(SurfaceDescriptor::new_chained(output, root, rect(0.0, 0.0, 5.0, 5.0))));
    f.pop(3);
    assert_eq!(f.rg.task_count(), n);
    assert_eq!(f.children(a), vec![root]);
    assert_eq!(f.children(b), vec![root]);
    assert!(f.builder.sub_graph_output_map.is_empty());
}

#[test]
fn a_filter_is_spliced_into_a_simple_surface() {
    let mut f = Frame::new();
    let parent = f.picture();
    let whole = rect(0.0, 0.0, 100.0, 100.0);
    f.push(false, None);
    f.push(false, Some(SurfaceDescriptor::new_simple(parent, whole)));
    let buffers = f.buffers.len();
    let (target, output) = f.filter(5, rect(10.0, 10.0, 20.0, 20.0));
    let taken_over = id(f.rg.task_count() - 1);
    assert_eq!(
        f.rg.get_task(taken_over).location,
        RenderTaskLocation::Existing { parent_task_id: parent, size: size(100, 100) },
    );
    assert_eq!(f.children(taken_over), vec![parent, output]);
    assert_eq!(f.children(target), vec![parent]);
    assert_eq!(f.resolve(target).src_task_ids, vec![parent]);
    assert_eq!(f.builder.sub_graph_output_map.get(&5), Some(&output));
    // All commands go to the new task.
    assert_eq!(f.targets(whole, false, false), vec![CommandBufferIndex(buffers + 2)]);
    // So does what is needed from now on.
    let mask = f.effect();
    f.builder.add_child_render_task(mask, &mut f.rg);
    assert_eq!(f.children(taken_over), vec![parent, output, mask]);
    assert!(f.children(parent).is_empty());
}

#[test]
fn what_filters_a_surface_waits_for_the_task_that_takes_over() {
    let mut f = Frame::new();
    let (parent, vertical, root) = (f.picture(), f.effect(), f.effect());
    f.rg.add_dependency(vertical, parent);
    f.rg.add_dependency(root, vertical);
    f.push(false, None);
    f.push(
        false,
        Some(SurfaceDescriptor::new_chained(parent, root, rect(0.0, 0.0, 100.0, 100.0))),
    );
    f.filter(5, rect(10.0, 10.0, 20.0, 20.0));
    let taken_over = id(f.rg.task_count() - 1);
    assert_eq!(f.children(vertical), vec![parent, taken_over]);
    assert_eq!(f.children(root), vec![vertical]);
}

#[test]
fn a_target_in_another_raster_space_is_mapped() {
    let mut f = Frame::new();
    let moved = ScaleOffset { offset_x: scalar(12.0), ..ScaleOffset::identity() };
    f.tree.set_relative_transform(
        SpatialNodeIndex(4),
        SpatialNodeIndex(0),
        CoordinateSpaceMapping::ScaleOffset(moved),
    );
    let a = f.picture();
    f.push_tiles(vec![tile(0, a)]);
    let (target, _) = f.filter_at(4, 5, rect(10.0, 10.0, 20.0, 20.0));
    assert_eq!(f.resolve(target).dest_to_src_raster, moved);
}

#[test]
fn primitives_go_to_the_tiles_that_they_cover() {
    let mut f = Frame::new();
    let (a, b) = (f.picture(), f.picture());
    f.push_tiles(vec![tile(0, a), tile(1, b)]);
    let (first, second) = (f.buffer(a), f.buffer(b));
    assert_eq!(f.targets(rect(10.0, 0.0, 20.0, 9.0), false, false), vec![first]);
    assert_eq!(f.targets(rect(90.0, 0.0, 110.0, 9.0), true, false), vec![first, second]);
    assert_eq!(f.targets(rect(90.0, 0.0, 110.0, 9.0), false, true), vec![first, second]);
    assert!(f.targets(rect(300.0, 0.0, 310.0, 9.0), true, true).is_empty());
    let mut targets = vec![CommandBufferIndex(99)];
    let mut ask = |f: &mut Frame, state: DrawState| {
        let vis = PrimitiveDrawHeader { state, pic_coverage_rect: rect(10.0, 0.0, 20.0, 9.0) };
        f.builder.get_cmd_buffer_targets_for_prim(&vis, true, false, &f.rg, &mut targets)
    };
    assert!(!ask(&mut f, DrawState::Culled));
    assert!(ask(&mut f, DrawState::PassThrough));
    // No tile has another sub-slice.
    assert!(!ask(&mut f, DrawState::Visible { sub_slice_index: SubSliceIndex(1) }));
    assert!(targets.is_empty());
}

#[test]
fn primitives_keep_their_order_around_a_filter() {
    let mut f = Frame::new();
    let a = f.picture();
    f.push_tiles(vec![tile(0, a)]);
    let area = rect(10.0, 10.0, 20.0, 20.0);
    f.filter(1, area);
    let taken_over = id(f.rg.task_count() - 1);
    let (below, above) = (f.buffer(a), f.buffer(taken_over));
    // The output of the filter goes on top.
    assert_eq!(f.targets(area, false, true), vec![above]);
    // So does what overlaps it, but nothing else.
    assert_eq!(f.targets(rect(19.0, 19.0, 40.0, 40.0), true, false), vec![above]);
    assert_eq!(f.targets(rect(60.0, 60.0, 70.0, 70.0), true, false), vec![below]);
    // What overlaps something on top goes on top as well.
    assert_eq!(f.targets(rect(35.0, 35.0, 50.0, 50.0), true, false), vec![above]);
    // One whose order does not matter stays where it was prepared.
    assert_eq!(f.targets(rect(35.0, 35.0, 50.0, 50.0), false, false), vec![below]);
}

#[test]
fn a_child_moves_with_the_command_that_needs_it() {
    let mut f = Frame::new();
    let a = f.picture();
    f.push_tiles(vec![tile(0, a)]);
    f.filter(1, rect(10.0, 10.0, 20.0, 20.0));
    let taken_over = id(f.rg.task_count() - 1);
    let (below, above) = (f.buffer(a), f.buffer(taken_over));
    let (mask, other) = (f.effect(), f.effect());
    for child in [mask, other, mask, other].iter() {
        f.builder.add_child_render_task(*child, &mut f.rg);
    }
    let before = f.children(taken_over);
    // The command is only drawn on top: the last mention below goes.
    f.builder.add_child_render_task_to_targets(mask, &[above], &mut f.rg);
    assert_eq!(f.children(a), vec![mask, other, other]);
    assert_eq!(f.children(taken_over), [before.clone(), vec![mask]].concat());
    // It is drawn below, or on both: nothing goes.
    f.builder.add_child_render_task_to_targets(other, &[below], &mut f.rg);
    assert_eq!(f.children(a), vec![mask, other, other, other]);
    f.builder.add_child_render_task_to_targets(mask, &[above, below], &mut f.rg);
    assert_eq!(f.children(a), vec![mask, other, other, other, mask]);
    assert_eq!(f.children(taken_over), [before.clone(), vec![mask, mask]].concat());
    // A child that is not mentioned is just added on top.
    let late = f.effect();
    f.builder.add_child_render_task_to_targets(late, &[above], &mut f.rg);
    assert_eq!(f.children(a), vec![mask, other, other, other, mask]);
    assert_eq!(f.children(taken_over), [before, vec![mask, mask, late]].concat());
    // No target, no change.
    f.builder.add_child_render_task_to_targets(late, &[], &mut f.rg);
    assert_eq!(f.children(a), vec![mask, other, other, other, mask]);
}

#[test]
fn a_child_of_a_simple_surface_needs_no_target() {
    let mut f = Frame::new();
    let (parent, mask) = (f.picture(), f.effect());
    f.push(false, Some(SurfaceDescriptor::new_simple(parent, rect(0.0, 0.0, 9.0, 9.0))));
    f.builder.add_child_render_task_to_targets(mask, &[], &mut f.rg);
    assert_eq!(f.children(parent), vec![mask]);
    f.push(false, None);
    f.builder.add_child_render_task_to_targets(mask, &[CommandBufferIndex(0)], &mut f.rg);
    assert_eq!(f.children(parent), vec![mask]);
}

#[test]
fn what_a_filter_reads_starts_from_the_slices_behind() {
    let mut f = Frame::new();
    let (a, b, drawn) = (f.picture(), f.picture(), f.effect());
    match &mut f.rg.get_task_mut(a).kind {
        RenderTaskKind::Picture(info) => info.clear_color = Some(black()),
        _ => panic!("not a picture"),
    }
    let area = rect(0.0, 0.0, 200.0, 100.0);
    f.builder.register_backdrop_source(BackdropSource {
        slice_index: 1,
        kind: BackdropSourceKind::Texture(TextureSource { id: 6 }),
        device_rect: area,
        surface_rect: area,
        producer_task_id: Some(drawn),
    });
    let mapping = ScaleOffset { offset_x: scalar(3.0), ..ScaleOffset::identity() };
    let (mut first, second) = (tile(0, a), tile(1, b));
    first.1.pic_to_device = Some(mapping);
    f.push_tiles(vec![first, second]);
    assert!(f.builder.pending_projections(&f.rg).is_none());
    let captured = rect(90.0, 10.0, 110.0, 20.0);
    let (target, output) = (f.picture(), f.picture());
    f.push(true, Some(SurfaceDescriptor::new_simple(output, captured)));
    f.push(false, Some(SurfaceDescriptor::new_simple(target, captured)));
    f.builder.register_resolve_source(captured);
    assert!(f.builder.pending_projections(&f.rg).is_none());
    f.pop(1);
    // Only the tile that starts clear has to be located.
    let pending = f.builder.pending_projections(&f.rg).unwrap();
    assert_eq!(pending.slice_index, 2);
    assert_eq!(pending.pic_to_device, mapping);
    assert_eq!(pending.task_ids, vec![a]);
    let dest = pixels(0, 0, 100, 100);
    f.projections.set(TaskProjection {
        task_id: a,
        wanted_device_rect: rect(0.0, 0.0, 100.0, 100.0),
        sources: vec![SourceProjection { rect: dest, src_rect: pixels(1, 1, 9, 9) }],
    });
    f.pop(2);
    assert_eq!(f.resolve(target).src_task_ids, vec![a, b]);
    let op = f.resolve(a);
    assert!(op.src_task_ids.is_empty());
    assert_eq!(op.dest_task_id, a);
    assert_eq!(op.dest_to_src_raster, ScaleOffset::identity());
    assert_eq!(
        op.sources,
        vec![ResolveSource::Texture {
            source: TextureSource { id: 6 },
            src_rect: pixels(1, 1, 9, 9),
            dest_rect: dest,
        }],
    );
    assert_eq!(f.children(a), vec![drawn]);
    assert!(f.info(b).resolve_op.is_none());
    // The task that takes over starts from what is there.
    let taken_over = id(f.rg.task_count() - 2);
    assert_eq!(f.info(taken_over).clear_color, None);
    assert!(f.info(taken_over).resolve_op.is_none());
}

#[test]
fn a_tile_that_no_slice_lies_behind_is_left_clear() {
    let mut f = Frame::new();
    let a = f.picture();
    match &mut f.rg.get_task_mut(a).kind {
        RenderTaskKind::Picture(info) => info.clear_color = Some(black()),
        _ => panic!("not a picture"),
    }
    let mut entry = tile(0, a);
    entry.1.pic_to_device = Some(ScaleOffset::identity());
    f.push_tiles(vec![entry]);
    f.projections.set(TaskProjection {
        task_id: a,
        wanted_device_rect: rect(0.0, 0.0, 100.0, 100.0),
        sources: Vec::new(),
    });
    f.filter(1, rect(10.0, 10.0, 20.0, 20.0));
    assert!(f.info(a).resolve_op.is_none());
    assert_eq!(f.info(a).clear_color, Some(black()));
}

#[test]
fn the_topmost_sub_graph_gets_the_resolve_source() {
    let mut f = Frame::new();
    let a = f.picture();
    let area = rect(10.0, 10.0, 20.0, 20.0);
    f.push_tiles(vec![tile(0, a)]);
    let (outer, inner, middle, target) = (f.picture(), f.picture(), f.picture(), f.picture());
    f.push(true, Some(SurfaceDescriptor::new_simple(outer, area)));
    f.push(true, Some(SurfaceDescriptor::new_simple(inner, area)));
    f.push(false, Some(SurfaceDescriptor::new_simple(middle, area)));
    f.push(false, Some(SurfaceDescriptor::new_simple(target, area)));
    f.builder.register_resolve_source(area);
    f.pop(1);
    f.pop(2);
    f.pop(3);
    // The inner one reads the outer one, which reads nothing back.
    assert_eq!(f.resolve(target).src_task_ids, vec![outer]);
    assert_eq!(f.builder.sub_graph_output_map.get(&3), Some(&inner));
    let taken_over = id(f.rg.task_count() - 1);
    f.pop(4);
    assert_eq!(f.children(a), vec![taken_over]);
    assert_eq!(f.builder.sub_graph_output_map.get(&4), None);
}

#[test]
fn a_surface_is_only_finished_when_it_can_be_handed_on() {
    let mut f = Frame::new();
    let ready = |f: &Frame| {
        f.builder.is_ready_to_pop(&f.rg, &f.buffers, &f.tree, &f.projections)
    };
    assert!(!ready(&f));
    let (a, child) = (f.picture(), f.picture());
    let area = rect(10.0, 10.0, 20.0, 20.0);
    // A simple surface has to have one below it.
    f.push(false, Some(SurfaceDescriptor::new_simple(child, area)));
    assert!(!ready(&f));
    f.builder.pop_empty_surface();
    f.push_tiles(vec![tile(0, a)]);
    assert!(ready(&f));
    f.push(false, Some(SurfaceDescriptor::new_simple(child, area)));
    assert!(ready(&f));
    f.pop(0);
    // A sub-graph must not be on top of a surface that is not drawn.
    f.push(false, None);
    f.push(true, Some(SurfaceDescriptor::new_simple(child, area)));
    assert!(!ready(&f));
    let mut nested = Frame::new();
    let (a, output, target) = (nested.picture(), nested.picture(), nested.picture());
    nested.push_tiles(vec![tile(0, a)]);
    nested.push(true, Some(SurfaceDescriptor::new_simple(output, area)));
    assert!(ready(&nested));
    nested.push(false, Some(SurfaceDescriptor::new_simple(target, area)));
    nested.builder.register_resolve_source(area);
    nested.pop(1);
    assert!(ready(&nested));
    // A tile cannot be in the render task cache.
    let place = nested.rg.get_task(a).location;
    nested.rg.get_task_mut(a).location = RenderTaskLocation::CacheRequest { size: size(8, 8) };
    assert!(!ready(&nested));
    nested.rg.get_task_mut(a).location = place;
    assert!(ready(&nested));
    // Something is copied to the target already.
    let op = ResolveOp {
        src_task_ids: Vec::new(),
        sources: Vec::new(),
        dest_task_id: target,
        dest_to_src_raster: ScaleOffset::identity(),
    };
    match &mut nested.rg.get_task_mut(target).kind {
        RenderTaskKind::Picture(info) => info.resolve_op = Some(op),
        _ => panic!("not a picture"),
    }
    assert!(!ready(&nested));
}

#[test]
fn a_target_in_an_unrelated_space_is_not_ready() {
    let mut f = Frame::new();
    let a = f.picture();
    let area = rect(10.0, 10.0, 20.0, 20.0);
    f.push_tiles(vec![tile(0, a)]);
    let place = RenderTaskLocation::Unallocated { size: size(50, 50) };
    let (target, output) = (f.picture_at(4, place), f.picture_at(4, place));
    f.push(true, Some(SurfaceDescriptor::new_simple(output, area)));
    f.push(false, Some(SurfaceDescriptor::new_simple(target, area)));
    f.builder.register_resolve_source(area);
    f.pop(1);
    assert!(!f.tree.relates(SpatialNodeIndex(4), SpatialNodeIndex(0)));
    assert!(!f.builder.is_ready_to_pop(&f.rg, &f.buffers, &f.tree, &f.projections));
    f.tree.set_relative_transform(
        SpatialNodeIndex(4),
        SpatialNodeIndex(0),
        CoordinateSpaceMapping::Local,
    );
    assert!(f.tree.relates(SpatialNodeIndex(4), SpatialNodeIndex(0)));
    assert!(!f.tree.relates(SpatialNodeIndex(0), SpatialNodeIndex(4)));
    assert!(f.builder.is_ready_to_pop(&f.rg, &f.buffers, &f.tree, &f.projections));
}

#[test]
fn projections_have_to_speak_of_every_source() {
    let mut f = Frame::new();
    let a = f.picture();
    match &mut f.rg.get_task_mut(a).kind {
        RenderTaskKind::Picture(info) => info.clear_color = Some(black()),
        _ => panic!("not a picture"),
    }
    let area = rect(0.0, 0.0, 100.0, 100.0);
    let source = BackdropSource {
        slice_index: 0,
        kind: BackdropSourceKind::Color(black()),
        device_rect: area,
        surface_rect: area,
        producer_task_id: None,
    };
    f.builder.register_backdrop_source(source);
    assert_eq!(f.builder.backdrop_sources(), &vec![source]);
    let mut entry = tile(0, a);
    entry.1.pic_to_device = Some(ScaleOffset::identity());
    f.push_tiles(vec![entry]);
    let captured = rect(10.0, 10.0, 20.0, 20.0);
    let (target, output) = (f.picture(), f.picture());
    f.push(true, Some(SurfaceDescriptor::new_simple(output, captured)));
    f.push(false, Some(SurfaceDescriptor::new_simple(target, captured)));
    f.builder.register_resolve_source(captured);
    f.pop(1);
    let ready = |f: &Frame| {
        f.builder.is_ready_to_pop(&f.rg, &f.buffers, &f.tree, &f.projections)
    };
    // Nothing is known of the tile, then too little, then enough.
    assert!(!ready(&f));
    let entry = |sources: Vec<SourceProjection>| TaskProjection {
        task_id: a,
        wanted_device_rect: area,
        sources,
    };
    f.projections.set(entry(Vec::new()));
    assert!(!f.projections.fit(1));
    assert!(!ready(&f));
    let part = SourceProjection { rect: pixels(0, 0, 5, 5), src_rect: pixels(0, 0, 0, 0) };
    f.projections.set(entry(vec![part]));
    assert!(f.projections.fit(1));
    assert_eq!(f.projections.get(a).unwrap().sources, vec![part]);
    assert!(ready(&f));
    f.pop(2);
    assert_eq!(
        f.resolve(a).sources,
        vec![ResolveSource::Color { color: black(), dest_rect: pixels(0, 0, 5, 5) }],
    );
}

#[test]
fn an_added_task_goes_to_the_task_that_has_taken_over() {
    let mut f = Frame::new();
    let (parent, replaced, shadow) = (f.picture(), f.picture(), f.effect());
    let whole = rect(0.0, 0.0, 100.0, 100.0);
    f.push(false, None);
    f.push(false, Some(SurfaceDescriptor::new_simple(parent, whole)));
    f.push(false, Some(SurfaceDescriptor::new_simple(replaced, whole)));
    f.builder.add_picture_render_task(shadow);
    let (_, output) = f.filter(5, rect(10.0, 10.0, 20.0, 20.0));
    let taken_over = id(f.rg.task_count() - 1);
    // Nothing needs the added task yet.
    assert_eq!(f.children(taken_over), vec![replaced, output]);
    f.pop(1);
    assert_eq!(f.children(taken_over), vec![replaced, output, shadow]);
    assert!(f.children(replaced).is_empty());
    assert_eq!(f.children(parent), vec![taken_over]);
}

#[test]
fn what_filters_a_surface_is_needed_in_place_of_the_task_that_has_taken_over() {
    let mut f = Frame::new();
    let (a, replaced, root, shadow) = (f.picture(), f.picture(), f.effect(), f.effect());
    f.rg.add_dependency(root, replaced);
    let whole = rect(0.0, 0.0, 100.0, 100.0);
    f.push_tiles(vec![tile(0, a)]);
    f.push(false, Some(SurfaceDescriptor::new_chained(replaced, root, whole)));
    f.builder.add_picture_render_task(shadow);
    let (_, output) = f.filter(5, rect(10.0, 10.0, 20.0, 20.0));
    let taken_over = id(f.rg.task_count() - 1);
    f.pop(1);
    assert_eq!(f.children(taken_over), vec![replaced, output, shadow]);
    assert_eq!(f.children(root), vec![replaced, taken_over]);
    assert!(f.children(replaced).is_empty());
    assert_eq!(f.children(a), vec![root]);
}

#[test]
fn only_the_tile_of_the_command_loses_the_child() {
    let mut f = Frame::new();
    let (a, b, mask) = (f.picture(), f.picture(), f.effect());
    f.push_tiles(vec![tile(0, a), tile(1, b)]);
    // Both tiles have a task that draws deferred outputs.
    f.filter(1, rect(90.0, 10.0, 110.0, 20.0));
    let n = f.rg.task_count();
    let (over_a, over_b) = (id(n - 2), id(n - 1));
    // An older command needs the child as well.
    f.builder.add_child_render_task(mask, &mut f.rg);
    let before = [f.children(a), f.children(b), f.children(over_a), f.children(over_b)];
    assert_eq!(before[0], vec![mask]);
    f.builder.add_child_render_task(mask, &mut f.rg);
    let above = f.buffer(over_a);
    f.builder.add_child_render_task_to_targets(mask, &[above], &mut f.rg);
    assert_eq!(f.children(a), before[0]);
    assert_eq!(f.children(over_a), [before[2].clone(), vec![mask]].concat());
    assert_eq!(f.children(b), [before[1].clone(), vec![mask]].concat());
    assert_eq!(f.children(over_b), before[3]);
    // One that is drawn below stays, and is needed twice.
    f.builder.add_child_render_task(mask, &mut f.rg);
    let below = f.buffer(b);
    f.builder.add_child_render_task_to_targets(mask, &[below], &mut f.rg);
    assert_eq!(f.children(b), [before[1].clone(), vec![mask, mask, mask]].concat());
    assert_eq!(f.children(over_b), before[3]);
}

#[test]
fn deferred_outputs_are_drawn_over_the_task_that_they_wait_for() {
    let mut f = Frame::new();
    let a = f.picture();
    let whole = rect(0.0, 0.0, 100.0, 100.0);
    f.push_tiles(vec![tile(0, a)]);
    // No outputs, no task that draws them.
    assert_eq!(f.targets(whole, true, false), vec![f.buffer(a)]);
    assert_eq!(f.targets(whole, false, true), vec![f.buffer(a)]);
    let over = |f: &Frame, drawn: RenderTaskId, below: RenderTaskId| {
        assert_eq!(
            f.rg.get_task(drawn).location,
            RenderTaskLocation::Existing { parent_task_id: below, size: size(100, 100) },
        );
        assert!(f.children(drawn).contains(&below));
    };
    f.filter(1, rect(10.0, 10.0, 20.0, 20.0));
    let first = id(f.rg.task_count() - 1);
    over(&f, first, a);
    assert_eq!(f.targets(rect(0.0, 0.0, 30.0, 30.0), true, false), vec![f.buffer(first)]);
    let (mask, above) = (f.effect(), f.buffer(first));
    f.builder.add_child_render_task(mask, &mut f.rg);
    f.builder.add_child_render_task_to_targets(mask, &[above], &mut f.rg);
    f.filter(2, rect(60.0, 60.0, 70.0, 70.0));
    f.push(false, None);
    f.pop(3);
    over(&f, first, a);
    // The outputs are read: another task draws those that follow.
    f.filter(4, rect(5.0, 5.0, 15.0, 15.0));
    let second = id(f.rg.task_count() - 1);
    over(&f, first, a);
    over(&f, second, first);
    assert_eq!(f.targets(rect(60.0, 60.0, 70.0, 70.0), true, false), vec![f.buffer(first)]);
    assert_eq!(f.targets(rect(60.0, 60.0, 70.0, 70.0), false, true), vec![f.buffer(second)]);
}

#[test]
fn tiles_that_share_a_task_lose_the_child_one_by_one() {
    let mut f = Frame::new();
    let (a, mask) = (f.picture(), f.effect());
    f.push_tiles(vec![tile(0, a), tile(1, a)]);
    f.filter(1, rect(10.0, 10.0, 20.0, 20.0));
    let over = id(f.rg.task_count() - 1);
    let (below, above) = (f.children(a), f.children(over));
    f.builder.add_child_render_task(mask, &mut f.rg);
    assert_eq!(f.children(a), [below.clone(), vec![mask, mask]].concat());
    let buffer = f.buffer(over);
    f.builder.add_child_render_task_to_targets(mask, &[buffer], &mut f.rg);
    // The command moves in the first tile only.
    assert_eq!(f.children(a), [below, vec![mask]].concat());
    assert_eq!(f.children(over), [above, vec![mask]].concat());
}

#[test]
fn no_tile_that_a_filter_reads_waits_for_it() {
    let mut f = Frame::new();
    let (a, b, output, target) = (f.picture(), f.picture(), f.picture(), f.picture());
    f.push_tiles(vec![tile(0, a), tile(1, b)]);
    f.builder.add_child_render_task(output, &mut f.rg);
    f.rg.add_dependency(a, output);
    let area = rect(90.0, 10.0, 110.0, 20.0);
    f.push(true, Some(SurfaceDescriptor::new_simple(output, area)));
    f.push(false, Some(SurfaceDescriptor::new_simple(target, area)));
    f.builder.register_resolve_source(area);
    f.pop(1);
    f.pop(2);
    assert!(f.children(a).is_empty());
    assert!(f.children(b).is_empty());
    let n = f.rg.task_count();
    assert_eq!(f.children(id(n - 2)), vec![a, output]);
    assert_eq!(f.children(id(n - 1)), vec![b, output]);
}

#[test]
fn a_tile_that_starts_from_the_output_of_a_filter_waits_for_it() {
    let mut f = Frame::new();
    let (a, output, target) = (f.picture(), f.picture(), f.picture());
    match &mut f.rg.get_task_mut(a).kind {
        RenderTaskKind::Picture(info) => info.clear_color = Some(black()),
        _ => panic!("not a picture"),
    }
    let whole = rect(0.0, 0.0, 100.0, 100.0);
    f.builder.register_backdrop_source(BackdropSource {
        slice_index: 1,
        kind: BackdropSourceKind::Color(black()),
        device_rect: whole,
        surface_rect: whole,
        producer_task_id: Some(output),
    });
    let mut entry = tile(0, a);
    entry.1.pic_to_device = Some(ScaleOffset::identity());
    f.push_tiles(vec![entry]);
    let area = rect(10.0, 10.0, 20.0, 20.0);
    f.push(true, Some(SurfaceDescriptor::new_simple(output, area)));
    f.push(false, Some(SurfaceDescriptor::new_simple(target, area)));
    f.builder.register_resolve_source(area);
    f.pop(1);
    let part = SourceProjection { rect: pixels(0, 0, 5, 5), src_rect: pixels(0, 0, 5, 5) };
    f.projections.set(TaskProjection {
        task_id: a,
        wanted_device_rect: whole,
        sources: vec![part],
    });
    f.pop(2);
    assert_eq!(f.children(a), vec![output]);
}

#[test]
fn a_task_that_is_also_drawn_below_can_lose_the_one_it_waits_for() {
    let mut f = Frame::new();
    let a = f.picture();
    let area = rect(10.0, 10.0, 20.0, 20.0);
    f.push_tiles(vec![tile(0, a)]);
    let (_, first_output) = f.filter(1, area);
    let first = id(f.rg.task_count() - 1);
    // The task that draws the deferred outputs of one tile is the one below for another.
    f.push_tiles(vec![tile(0, first)]);
    f.filter(2, area);
    let second = id(f.rg.task_count() - 1);
    assert_eq!(f.children(first), vec![a, first_output]);
    let above = f.buffer(second);
    f.builder.add_child_render_task_to_targets(a, &[above], &mut f.rg);
    assert_eq!(f.children(first), vec![first_output]);
    // It stays where it is, and as large.
    assert_eq!(
        f.rg.get_task(first).location,
        RenderTaskLocation::Existing { parent_task_id: a, size: size(100, 100) },
    );
}
