use webrender_surface::command_buffer::CommandBufferIndex;
use webrender_surface::filter_chain::order_readers_after;
use webrender_surface::geometry::{
    DeviceIntPoint, DeviceIntRect, DeviceIntSize, Point, Rect,
};
use webrender_surface::render_task_graph::{
    ColorF, PictureTask, RenderTargetKind, RenderTask, RenderTaskGraphBuilder, RenderTaskId,
    RenderTaskKind, RenderTaskLocation, ResolveOp, StaticSurface, TileCompositeTask,
};
use webrender_surface::resolve::{raster_spatial_node, resolve_dest_to_src_raster};
use webrender_surface::scalar::Scalar;
use webrender_surface::spatial::{
    CoordinateSpaceMapping, DevicePixelScale, ScaleOffset, SpatialNodeIndex, SpatialTree,
};
use webrender_surface::tile::{
    SubSliceIndex, SurfaceTileDescriptor, TileKey, TileMap, MAX_COMPOSITOR_SURFACES,
    SUB_SLICE_COUNT,
};

fn scalar(v: f32) -> Scalar {
    Scalar::from_bits(v.to_bits())
}

fn rect(x0: f32, y0: f32, x1: f32, y1: f32) -> Rect {
    Rect {
        min: Point { x: scalar(x0), y: scalar(y0) },
        max: Point { x: scalar(x1), y: scalar(y1) },
    }
}

fn pixels(x0: i32, y0: i32, x1: i32, y1: i32) -> DeviceIntRect {
    DeviceIntRect { min: DeviceIntPoint { x: x0, y: y0 }, max: DeviceIntPoint { x: x1, y: y1 } }
}

fn size(width: i32, height: i32) -> DeviceIntSize {
    DeviceIntSize { width, height }
}

fn picture(buffer: usize, node: u32) -> PictureTask {
    PictureTask {
        cmd_buffer_index: CommandBufferIndex(buffer),
        raster_spatial_node_index: SpatialNodeIndex(node),
        content_origin: Point { x: scalar(1.0), y: scalar(2.0) },
        content_size: size(8, 8),
        device_pixel_scale: DevicePixelScale(scalar(1.0)),
        clear_color: Some(ColorF {
            r: scalar(0.0),
            g: scalar(0.0),
            b: scalar(0.0),
            a: scalar(0.0),
        }),
        scissor_rect: None,
        valid_rect: None,
        resolve_op: None,
    }
}

fn tile(current: RenderTaskId) -> SurfaceTileDescriptor {
    SurfaceTileDescriptor {
        current_task_id: current,
        composite_task_id: None,
        dirty_rect: rect(0.0, 0.0, 100.0, 100.0),
        deferred_task_id: None,
        deferred_output_rects: Vec::new(),
        slice_index: 1,
        pic_to_device: None,
    }
}

fn effect() -> RenderTask {
    RenderTask::new(
        RenderTaskLocation::Unallocated { size: size(8, 8) },
        RenderTaskKind::Effect,
    )
}

fn id(index: usize) -> RenderTaskId {
    RenderTaskId { index }
}

fn key(x: i32, y: i32) -> TileKey {
    TileKey { tile_x: x, tile_y: y, sub_slice_index: SubSliceIndex(0) }
}

struct Promotion {
    rg: RenderTaskGraphBuilder,
    tile: SurfaceTileDescriptor,
    base: RenderTaskId,
    deferred: RenderTaskId,
    composite: RenderTaskId,
}

fn promotion(drawn: DeviceIntSize, offset_x: i32) -> Promotion {
    let mut rg = RenderTaskGraphBuilder::new();
    let base = rg.add(RenderTask::new(
        RenderTaskLocation::Unallocated { size: drawn },
        RenderTaskKind::Picture(picture(0, 0)),
    ));
    let deferred = rg.add(RenderTask::new(
        RenderTaskLocation::Existing { parent_task_id: base, size: drawn },
        RenderTaskKind::Picture(picture(1, 0)),
    ));
    let composite = rg.add(RenderTask::new(
        RenderTaskLocation::Static {
            surface: StaticSurface { id: 5 },
            rect: pixels(0, 0, 64, 64),
        },
        RenderTaskKind::TileComposite(TileCompositeTask {
            scissor_rect: pixels(4, 4, 20, 12),
            valid_rect: pixels(0, 0, 30, 30),
            sub_rect_offset: DeviceIntPoint { x: offset_x, y: 0 },
            task_id: None,
        }),
    ));
    let mut t = tile(base);
    t.deferred_task_id = Some(deferred);
    t.composite_task_id = Some(composite);
    t.deferred_output_rects.push(rect(0.0, 0.0, 5.0, 5.0));
    Promotion { rg, tile: t, base, deferred, composite }
}

#[test]
fn there_is_one_sub_slice_more_than_compositor_surfaces() {
    assert_eq!(SUB_SLICE_COUNT, MAX_COMPOSITOR_SURFACES + 1);
    assert_eq!(SubSliceIndex(3).as_usize(), 3);
}

#[test]
fn flushing_moves_commands_to_the_deferred_task() {
    let mut t = tile(id(4));
    assert!(!t.flush_deferred_backdrops());
    assert_eq!(t.current_task_id, id(4));
    t.deferred_task_id = Some(id(9));
    t.deferred_output_rects.push(rect(0.0, 0.0, 5.0, 5.0));
    assert_eq!(t.final_task_id(), id(9));
    assert!(t.flush_deferred_backdrops());
    assert_eq!(t.current_task_id, id(9));
    assert_eq!(t.deferred_task_id, None);
    assert!(t.deferred_output_rects.is_empty());
    assert_eq!(t.final_task_id(), id(9));
}

#[test]
fn a_deferred_output_that_is_covered_is_not_listed() {
    let mut t = tile(id(0));
    t.add_deferred_output_rect(rect(0.0, 0.0, 10.0, 10.0));
    t.add_deferred_output_rect(rect(20.0, 0.0, 30.0, 10.0));
    // Within the first one.
    t.add_deferred_output_rect(rect(2.0, 2.0, 8.0, 8.0));
    assert_eq!(
        t.deferred_output_rects,
        vec![rect(0.0, 0.0, 10.0, 10.0), rect(20.0, 0.0, 30.0, 10.0)],
    );
    // Over the second one.
    t.add_deferred_output_rect(rect(15.0, -5.0, 35.0, 15.0));
    assert_eq!(
        t.deferred_output_rects,
        vec![rect(0.0, 0.0, 10.0, 10.0), rect(15.0, -5.0, 35.0, 15.0)],
    );
    assert!(t.deferred_output_intersects(&rect(9.0, 9.0, 12.0, 12.0)));
    assert!(!t.deferred_output_intersects(&rect(10.0, 0.0, 15.0, 10.0)));
}

#[test]
fn an_empty_output_is_covered_by_any_other() {
    let mut t = tile(id(0));
    let flat = rect(3.0, 3.0, 3.0, 8.0);
    t.add_deferred_output_rect(flat);
    assert_eq!(t.deferred_output_rects, vec![flat]);
    t.add_deferred_output_rect(rect(50.0, 50.0, 60.0, 60.0));
    assert_eq!(t.deferred_output_rects, vec![rect(50.0, 50.0, 60.0, 60.0)]);
    t.add_deferred_output_rect(flat);
    assert_eq!(t.deferred_output_rects, vec![rect(50.0, 50.0, 60.0, 60.0)]);
}

#[test]
fn the_final_task_may_draw_into_the_slot() {
    let mut p = promotion(size(16, 8), 0);
    assert!(p.tile.promote_final_task_to_picture_cache(&mut p.rg));
    let task = p.rg.get_task(p.deferred);
    assert_eq!(
        task.location,
        RenderTaskLocation::Static {
            surface: StaticSurface { id: 5 },
            rect: pixels(4, 4, 20, 12),
        },
    );
    match &task.kind {
        RenderTaskKind::Picture(info) => {
            assert_eq!(info.scissor_rect, Some(pixels(4, 4, 20, 12)));
            assert_eq!(info.valid_rect, Some(pixels(0, 0, 30, 30)));
            assert_eq!(info.cmd_buffer_index, CommandBufferIndex(1));
            let op: &ResolveOp = info.resolve_op.as_ref().unwrap();
            assert_eq!(op.src_task_ids, vec![p.base]);
            assert!(op.sources.is_empty());
            assert_eq!(op.dest_task_id, p.deferred);
            assert_eq!(op.dest_to_src_raster, ScaleOffset::identity());
        }
        _ => panic!("not a picture"),
    }
    let composite = p.rg.get_task(p.composite);
    assert!(matches!(
        composite.kind,
        RenderTaskKind::Cached { target_kind: RenderTargetKind::Color }
    ));
    assert_eq!(composite.children, vec![p.deferred]);
}

#[test]
fn the_final_task_is_copied_where_it_does_not_fit_the_slot() {
    // Another size than what is copied.
    let mut p = promotion(size(16, 9), 0);
    assert!(!p.tile.promote_final_task_to_picture_cache(&mut p.rg));
    assert!(p.rg.get_task(p.composite).children.is_empty());
    // Another origin.
    let mut p = promotion(size(16, 8), 1);
    assert!(!p.tile.promote_final_task_to_picture_cache(&mut p.rg));
    // No deferred task, or no slot.
    let mut p = promotion(size(16, 8), 0);
    p.tile.deferred_task_id = None;
    assert!(!p.tile.promote_final_task_to_picture_cache(&mut p.rg));
    let mut p = promotion(size(16, 8), 0);
    p.tile.composite_task_id = None;
    assert!(!p.tile.promote_final_task_to_picture_cache(&mut p.rg));
    // A slot that does not outlive the frame.
    let mut p = promotion(size(16, 8), 0);
    p.rg.get_task_mut(p.composite).location = RenderTaskLocation::Unallocated { size: size(64, 64) };
    assert!(!p.tile.promote_final_task_to_picture_cache(&mut p.rg));
    // A final task with a place of its own.
    let mut p = promotion(size(16, 8), 0);
    p.rg.get_task_mut(p.deferred).location = RenderTaskLocation::Unallocated { size: size(16, 8) };
    assert!(!p.tile.promote_final_task_to_picture_cache(&mut p.rg));
    // A task that composites no tile.
    let mut p = promotion(size(16, 8), 0);
    p.rg.get_task_mut(p.composite).kind = RenderTaskKind::Effect;
    assert!(!p.tile.promote_final_task_to_picture_cache(&mut p.rg));
}

#[test]
fn a_tile_is_found_by_its_key() {
    let mut tiles = TileMap::new();
    tiles.insert(key(0, 0), tile(id(0)));
    tiles.insert(key(1, 0), tile(id(1)));
    tiles.insert(key(0, 0), tile(id(2)));
    assert_eq!(tiles.len(), 2);
    assert_eq!(tiles.find(key(1, 0)), Some(1));
    assert_eq!(tiles.find(key(2, 0)), None);
    assert_eq!(tiles.key_at(0), key(0, 0));
    assert_eq!(tiles.tile_at(0).current_task_id, id(2));
    tiles.tile_at_mut(1).slice_index = 8;
    assert_eq!(tiles.get(key(1, 0)).unwrap().slice_index, 8);
    assert!(tiles.get(key(5, 5)).is_none());
}

#[test]
fn every_reader_of_a_chain_waits_for_the_new_task() {
    let mut rg = RenderTaskGraphBuilder::new();
    let src = rg.add(effect());
    let first = rg.add(effect());
    let second = rg.add(effect());
    let middle = rg.add(effect());
    let root = rg.add(effect());
    let outside = rg.add(effect());
    let behind = rg.add(effect());
    let dep = rg.add(effect());
    // Two tasks of the chain sample the source, one of them along two paths.
    rg.add_dependency(root, first);
    rg.add_dependency(root, middle);
    rg.add_dependency(middle, second);
    rg.add_dependency(middle, first);
    rg.add_dependency(first, src);
    rg.add_dependency(second, src);
    // One outside the chain samples it too, and so does one behind the source.
    rg.add_dependency(outside, src);
    rg.add_dependency(src, behind);
    rg.add_dependency(behind, outside);
    order_readers_after(&mut rg, root, src, dep);
    assert_eq!(rg.get_task(first).children, vec![src, dep]);
    assert_eq!(rg.get_task(second).children, vec![src, dep]);
    assert_eq!(rg.get_task(middle).children, vec![second, first]);
    assert_eq!(rg.get_task(root).children, vec![first, middle]);
    assert_eq!(rg.get_task(outside).children, vec![src]);
    assert_eq!(rg.get_task(behind).children, vec![outside]);
    assert!(rg.get_task(dep).children.is_empty());
}

#[test]
fn the_root_of_a_chain_may_be_its_only_reader() {
    let mut rg = RenderTaskGraphBuilder::new();
    let src = rg.add(effect());
    let root = rg.add(effect());
    let dep = rg.add(effect());
    rg.add_dependency(root, src);
    order_readers_after(&mut rg, root, src, dep);
    assert_eq!(rg.get_task(root).children, vec![src, dep]);
}

#[test]
fn raster_spaces_are_related_by_a_scale_and_an_offset() {
    let mut rg = RenderTaskGraphBuilder::new();
    let at = |node: u32| {
        RenderTask::new(
            RenderTaskLocation::Unallocated { size: size(8, 8) },
            RenderTaskKind::Picture(picture(0, node)),
        )
    };
    let dest = rg.add(at(0));
    let scrolled = rg.add(at(1));
    let same = rg.add(at(0));
    let local = rg.add(at(2));
    let turned = rg.add(at(3));
    let moved = ScaleOffset { offset_y: scalar(-40.0), ..ScaleOffset::identity() };
    let root = SpatialNodeIndex(0);
    let mut tree = SpatialTree::new(root);
    tree.set_relative_transform(
        root,
        SpatialNodeIndex(1),
        CoordinateSpaceMapping::ScaleOffset(moved),
    );
    tree.set_relative_transform(root, SpatialNodeIndex(2), CoordinateSpaceMapping::Local);
    tree.set_relative_transform(root, SpatialNodeIndex(3), CoordinateSpaceMapping::Transform);
    assert_eq!(raster_spatial_node(&rg, scrolled), SpatialNodeIndex(1));
    let identity = ScaleOffset::identity();
    assert_eq!(resolve_dest_to_src_raster(&rg, &tree, dest, &vec![scrolled, same]), moved);
    assert_eq!(resolve_dest_to_src_raster(&rg, &tree, dest, &vec![same, scrolled]), identity);
    assert_eq!(resolve_dest_to_src_raster(&rg, &tree, dest, &vec![local]), identity);
    assert_eq!(resolve_dest_to_src_raster(&rg, &tree, dest, &vec![turned]), identity);
    assert_eq!(resolve_dest_to_src_raster(&rg, &tree, dest, &Vec::new()), identity);
}

#[test]
fn a_location_has_the_extent_of_its_kind() {
    let s = size(7, 9);
    assert_eq!(RenderTaskLocation::Unallocated { size: s }.size(), s);
    assert_eq!(RenderTaskLocation::CacheRequest { size: s }.size(), s);
    assert_eq!(RenderTaskLocation::Existing { parent_task_id: id(0), size: s }.size(), s);
    assert_eq!(RenderTaskLocation::Dynamic { rect: pixels(1, 1, 8, 10) }.size(), s);
    assert_eq!(
        RenderTaskLocation::Static { surface: StaticSurface { id: 0 }, rect: pixels(0, 0, 7, 9) }
            .size(),
        s,
    );
}

#[test]
fn a_continued_task_neither_clears_nor_copies() {
    let mut task = picture(3, 4);
    task.scissor_rect = Some(pixels(0, 0, 2, 2));
    task.resolve_op = Some(ResolveOp {
        src_task_ids: vec![id(1)],
        sources: Vec::new(),
        dest_task_id: id(2),
        dest_to_src_raster: ScaleOffset::identity(),
    });
    let next = task.duplicate(CommandBufferIndex(8));
    assert_eq!(next.cmd_buffer_index, CommandBufferIndex(8));
    assert_eq!(next.raster_spatial_node_index, SpatialNodeIndex(4));
    assert_eq!(next.scissor_rect, Some(pixels(0, 0, 2, 2)));
    assert_eq!(next.clear_color, None);
    assert!(next.resolve_op.is_none());
}
