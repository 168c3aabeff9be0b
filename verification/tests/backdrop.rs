use rustc_hash::FxHasher;
use std::hash::{Hash, Hasher};
use webrender_surface::backdrop::{
    backdrop_signature, cross_slice_resolve_sources, entry_hash, map_device_rect_between,
    signature_of_entries, BackdropSource, BackdropSourceKind, SourceProjection,
};
use webrender_surface::command_buffer::CommandBufferIndex;
use webrender_surface::geometry::{
    DeviceIntPoint, DeviceIntRect, DeviceIntSize, Point, Rect,
};
use webrender_surface::render_task_graph::{
    ColorF, PictureTask, RenderTask, RenderTaskGraphBuilder, RenderTaskId, RenderTaskKind,
    RenderTaskLocation, ResolveSource, TextureSource,
};
use webrender_surface::scalar::Scalar;
use webrender_surface::spatial::{DevicePixelScale, SpatialNodeIndex};
use webrender_surface::surface::SurfaceBuilder;

fn scalar(v: f32) -> Scalar {
    Scalar::from_bits(v.to_bits())
}

fn rect(x0: f32, y0: f32, x1: f32, y1: f32) -> Rect {
    Rect {
        min: Point { x: scalar(x0), y: scalar(y0) },
        max: Point { x: scalar(x1), y: scalar(y1) },
    }
}

fn pixels(x0: i32, y0: i32, x1: i32, y1: i32) -> DeviceIntRect {
    DeviceIntRect { min: DeviceIntPoint { x: x0, y: y0 }, max: DeviceIntPoint { x: x1, y: y1 } }
}

fn color(r: f32) -> ColorF {
    ColorF { r: scalar(r), g: scalar(0.25), b: scalar(0.5), a: scalar(1.0) }
}

fn texture_source(slice_index: usize, id: u64, area: Rect) -> BackdropSource {
    BackdropSource {
        slice_index,
        kind: BackdropSourceKind::Texture(TextureSource { id }),
        device_rect: area,
        surface_rect: rect(0.0, 0.0, 64.0, 64.0),
        producer_task_id: None,
    }
}

fn color_source(slice_index: usize, c: ColorF, area: Rect) -> BackdropSource {
    BackdropSource {
        slice_index,
        kind: BackdropSourceKind::Color(c),
        device_rect: area,
        surface_rect: Rect::zero(),
        producer_task_id: None,
    }
}

fn projection(r: DeviceIntRect, src: DeviceIntRect) -> SourceProjection {
    SourceProjection { rect: r, src_rect: src }
}

fn picture_task() -> RenderTask {
    RenderTask::new(
        RenderTaskLocation::Unallocated { size: DeviceIntSize { width: 8, height: 8 } },
        RenderTaskKind::Picture(PictureTask {
            cmd_buffer_index: CommandBufferIndex(0),
            raster_spatial_node_index: SpatialNodeIndex(0),
            content_origin: Point { x: scalar(0.0), y: scalar(0.0) },
            content_size: DeviceIntSize { width: 8, height: 8 },
            device_pixel_scale: DevicePixelScale(scalar(1.0)),
            clear_color: None,
            scissor_rect: None,
            valid_rect: None,
            resolve_op: None,
        }),
    )
}

fn effect_task() -> RenderTask {
    RenderTask::new(
        RenderTaskLocation::Unallocated { size: DeviceIntSize { width: 8, height: 8 } },
        RenderTaskKind::Effect,
    )
}

fn hash_rect(hasher: &mut FxHasher, r: &DeviceIntRect) {
    r.min.x.hash(hasher);
    r.min.y.hash(hasher);
    r.max.x.hash(hasher);
    r.max.y.hash(hasher);
}

fn expected_signature(slice: usize, capture: &[f32; 4], mut entries: Vec<u64>) -> u64 {
    entries.sort();
    let mut hasher = FxHasher::default();
    slice.hash(&mut hasher);
    for edge in capture.iter() {
        edge.to_bits().hash(&mut hasher);
    }
    entries.hash(&mut hasher);
    hasher.finish()
}

#[test]
fn a_texture_source_is_hashed_with_what_is_read_of_it() {
    let source = texture_source(2, 77, rect(0.0, 0.0, 100.0, 100.0));
    let read = projection(pixels(10, 20, 30, 40), pixels(1, 2, 3, 4));
    let mut hasher = FxHasher::default();
    2usize.hash(&mut hasher);
    hash_rect(&mut hasher, &read.rect);
    77u64.hash(&mut hasher);
    hash_rect(&mut hasher, &read.src_rect);
    assert_eq!(
        entry_hash(&source, 3, &rect(10.0, 20.0, 30.0, 40.0), &read),
        Some(hasher.finish()),
    );
}

#[test]
fn a_color_source_is_hashed_with_its_color() {
    let c = color(0.125);
    let source = color_source(1, c, rect(0.0, 0.0, 100.0, 100.0));
    let read = projection(pixels(-10, 20, 30, 40), pixels(0, 0, 0, 0));
    let mut hasher = FxHasher::default();
    1usize.hash(&mut hasher);
    hash_rect(&mut hasher, &read.rect);
    for part in [0.125f32, 0.25, 0.5, 1.0].iter() {
        part.to_bits().hash(&mut hasher);
    }
    assert_eq!(
        entry_hash(&source, 2, &rect(-10.0, 20.0, 30.0, 40.0), &read),
        Some(hasher.finish()),
    );
}

#[test]
fn sources_that_are_not_behind_or_not_read_contribute_nothing() {
    let area = rect(0.0, 0.0, 100.0, 100.0);
    let capture = rect(10.0, 10.0, 20.0, 20.0);
    let read = projection(pixels(10, 10, 20, 20), pixels(1, 1, 2, 2));
    // The same slice, or one in front.
    assert_eq!(entry_hash(&texture_source(2, 1, area), 2, &capture, &read), None);
    assert_eq!(entry_hash(&texture_source(3, 1, area), 2, &capture, &read), None);
    // Nothing in common with the capture.
    let aside = rect(20.0, 10.0, 30.0, 20.0);
    assert_eq!(entry_hash(&texture_source(1, 1, aside), 2, &capture, &read), None);
    // Less than a pixel in common.
    let thin = projection(pixels(10, 10, 10, 20), read.src_rect);
    assert_eq!(entry_hash(&texture_source(1, 1, area), 2, &capture, &thin), None);
    // Nothing of the texture.
    let unmapped = projection(read.rect, pixels(1, 1, 1, 2));
    assert_eq!(entry_hash(&texture_source(1, 1, area), 2, &capture, &unmapped), None);
    let mut no_surface = texture_source(1, 1, area);
    no_surface.surface_rect = Rect::zero();
    assert_eq!(entry_hash(&no_surface, 2, &capture, &read), None);
    assert!(entry_hash(&texture_source(1, 1, area), 2, &capture, &read).is_some());
}

#[test]
fn mapping_between_empty_rectangles_gives_nothing() {
    let full = rect(0.0, 0.0, 4.0, 4.0);
    let mapped = pixels(0, 0, 2, 2);
    assert_eq!(map_device_rect_between(full, full, mapped), Some(mapped));
    assert_eq!(map_device_rect_between(Rect::zero(), full, mapped), None);
    assert_eq!(map_device_rect_between(full, rect(4.0, 0.0, 0.0, 4.0), mapped), None);
    assert_eq!(map_device_rect_between(full, full, pixels(2, 0, 2, 2)), None);
}

#[test]
fn the_signature_hashes_the_sorted_entries() {
    let capture = [0.5f32, 1.0, 8.0, 9.0];
    let r = rect(capture[0], capture[1], capture[2], capture[3]);
    let entries: Vec<u64> = vec![9, 3, u64::MAX, 3, 0];
    let signature = signature_of_entries(&entries, 4, &r, true);
    assert_eq!(signature.hash, expected_signature(4, &capture, entries.clone()));
    assert!(signature.has_dirty_source);
    let none: Vec<u64> = Vec::new();
    let empty = signature_of_entries(&none, 4, &r, false);
    assert_eq!(empty.hash, expected_signature(4, &capture, none.clone()));
    assert!(!empty.has_dirty_source);
    assert_ne!(empty.hash, signature.hash);
}

#[test]
fn the_signature_of_a_filter_covers_every_source_that_it_reads() {
    let area = rect(0.0, 0.0, 100.0, 100.0);
    let capture = [10.0f32, 10.0, 20.0, 20.0];
    let r = rect(10.0, 10.0, 20.0, 20.0);
    let sources = vec![
        texture_source(1, 5, area),
        texture_source(7, 6, area),
        color_source(0, color(1.0), area),
    ];
    let read = projection(pixels(10, 10, 20, 20), pixels(1, 1, 2, 2));
    let projections = vec![read, read, read];
    let mut builder = SurfaceBuilder::new();
    for source in sources.iter() {
        builder.register_backdrop_source(*source);
    }
    let expected = vec![
        entry_hash(&sources[0], 3, &r, &read).unwrap(),
        entry_hash(&sources[2], 3, &r, &read).unwrap(),
    ];
    let signature = builder.get_backdrop_input_signature(3, r, r, &projections);
    assert_eq!(signature.hash, expected_signature(3, &capture, expected));
    assert!(!signature.has_dirty_source);
}

#[test]
fn the_signature_does_not_depend_on_the_order_of_registration() {
    let area = rect(0.0, 0.0, 100.0, 100.0);
    let r = rect(10.0, 10.0, 20.0, 20.0);
    let mut sources = vec![
        texture_source(1, 5, area),
        color_source(0, color(0.75), area),
        texture_source(2, 6, area),
    ];
    sources[2].producer_task_id = Some(RenderTaskId { index: 0 });
    let mut projections = vec![
        projection(pixels(10, 10, 20, 20), pixels(1, 1, 2, 2)),
        projection(pixels(10, 12, 20, 20), pixels(0, 0, 0, 0)),
        projection(pixels(11, 10, 20, 20), pixels(3, 3, 9, 9)),
    ];
    let first = backdrop_signature(&sources, 3, &r, &r, &projections);
    assert!(first.has_dirty_source);
    sources.reverse();
    projections.reverse();
    assert_eq!(backdrop_signature(&sources, 3, &r, &r, &projections), first);
    sources.swap(0, 1);
    projections.swap(0, 1);
    assert_eq!(backdrop_signature(&sources, 3, &r, &r, &projections), first);
    // A source that is paired with another part makes a difference.
    projections.swap(0, 1);
    assert_ne!(backdrop_signature(&sources, 3, &r, &r, &projections).hash, first.hash);
}

#[test]
fn only_a_source_that_is_read_makes_the_signature_dirty() {
    let area = rect(0.0, 0.0, 100.0, 100.0);
    let r = rect(10.0, 10.0, 20.0, 20.0);
    let mut source = texture_source(1, 5, area);
    source.producer_task_id = Some(RenderTaskId { index: 0 });
    let read = projection(pixels(10, 10, 20, 20), pixels(1, 1, 2, 2));
    let unread = projection(pixels(10, 10, 20, 20), pixels(1, 1, 1, 1));
    let sources = vec![source];
    assert!(backdrop_signature(&sources, 2, &r, &r, &vec![read]).has_dirty_source);
    assert!(!backdrop_signature(&sources, 2, &r, &r, &vec![unread]).has_dirty_source);
    assert!(!backdrop_signature(&sources, 1, &r, &r, &vec![read]).has_dirty_source);
}

#[test]
fn sources_are_copied_from_back_to_front() {
    let area = rect(0.0, 0.0, 100.0, 100.0);
    let mut rg = RenderTaskGraphBuilder::new();
    let target = rg.add(picture_task());
    let front = rg.add(effect_task());
    let back = rg.add(effect_task());
    let aside = rg.add(effect_task());
    let mut sources = vec![
        texture_source(2, 20, area),
        texture_source(0, 10, area),
        color_source(2, color(0.5), area),
        texture_source(5, 50, area),
        texture_source(0, 11, rect(200.0, 0.0, 300.0, 100.0)),
        texture_source(1, 15, area),
    ];
    sources[0].producer_task_id = Some(front);
    sources[1].producer_task_id = Some(back);
    sources[4].producer_task_id = Some(aside);
    // The last one is drawn anew, but nothing of its texture is read.
    sources[5].producer_task_id = Some(front);
    let read = projection(pixels(0, 0, 8, 8), pixels(1, 1, 2, 2));
    let mut projections = vec![read; 6];
    projections[5].src_rect = pixels(0, 0, 0, 0);
    let copies = cross_slice_resolve_sources(
        &sources,
        3,
        &rect(0.0, 0.0, 8.0, 8.0),
        &projections,
        target,
        &mut rg,
    );
    assert_eq!(
        copies,
        vec![
            ResolveSource::Texture {
                source: TextureSource { id: 10 },
                src_rect: read.src_rect,
                dest_rect: read.rect,
            },
            ResolveSource::Texture {
                source: TextureSource { id: 20 },
                src_rect: read.src_rect,
                dest_rect: read.rect,
            },
            ResolveSource::Color { color: color(0.5), dest_rect: read.rect },
        ],
    );
    assert_eq!(rg.get_task(target).children, vec![back, front, front]);
}

#[test]
fn nothing_is_copied_into_a_task_that_draws_no_picture() {
    let area = rect(0.0, 0.0, 100.0, 100.0);
    let mut rg = RenderTaskGraphBuilder::new();
    let target = rg.add(effect_task());
    let mut source = texture_source(0, 10, area);
    source.producer_task_id = Some(target);
    let copies = cross_slice_resolve_sources(
        &vec![source],
        3,
        &area,
        &vec![projection(pixels(0, 0, 8, 8), pixels(1, 1, 2, 2))],
        target,
        &mut rg,
    );
    assert!(copies.is_empty());
    assert!(rg.get_task(target).children.is_empty());
}
