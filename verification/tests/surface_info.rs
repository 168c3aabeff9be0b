use webrender_surface::geometry::{DeviceIntPoint, DeviceIntRect, Point, Rect};
use webrender_surface::scalar::Scalar;
use webrender_surface::spatial::{DevicePixelScale, ScaleOffset, SpatialNodeIndex, SpatialTree};
use webrender_surface::surface_info::{
    AllocationAction, AllocationEvent, CullingAction, CullingEvent, MappingAction, MappingEvent,
    Projection, ScaledRect, SubpixelMode, SurfaceIndex, SurfaceInfo, MAX_BLUR_RADIUS_BITS,
};

fn scalar(v: f32) -> Scalar {
    Scalar::from_bits(v.to_bits())
}

fn rect(x0: f32, y0: f32, x1: f32, y1: f32) -> Rect {
    Rect {
        min: Point { x: scalar(x0), y: scalar(y0) },
        max: Point { x: scalar(x1), y: scalar(y1) },
    }
}

fn pixels(x0: i32, y0: i32, x1: i32, y1: i32) -> DeviceIntRect {
    DeviceIntRect { min: DeviceIntPoint { x: x0, y: y0 }, max: DeviceIntPoint { x: x1, y: y1 } }
}

fn sound(r: Rect) -> Projection {
    Projection { is_scale_offset: true, rect: Some(r) }
}

fn surface(surface_node: u32, raster_node: u32, scale: f32) -> SurfaceInfo {
    SurfaceInfo::new(
        SpatialNodeIndex(surface_node),
        SpatialNodeIndex(raster_node),
        Some(rect(0.0, 0.0, 640.0, 480.0)),
        sound(rect(0.0, 0.0, 320.0, 240.0)),
        DevicePixelScale(scalar(scale)),
        (scalar(2.0), scalar(3.0)),
        (scalar(4.0), scalar(5.0)),
        (scalar(6.0), scalar(7.0)),
        true,
        false,
    )
}

#[test]
fn a_new_surface_culls_against_the_screen() {
    let info = surface(3, 4, 1.5);
    assert_eq!(info.unclipped_local_rect, Rect::zero());
    assert_eq!(info.clipped_local_rect, Rect::zero());
    assert_eq!(info.clipping_rect, Rect::zero());
    assert_eq!(info.culling_rect, rect(0.0, 0.0, 320.0, 240.0));
    assert!(!info.culling_rect_projection_failed);
    assert_eq!(info.map_local_to_picture.ref_spatial_node_index, SpatialNodeIndex(3));
    assert_eq!(info.map_local_to_picture.bounds, rect(0.0, 0.0, 640.0, 480.0));
    assert_eq!(info.surface_spatial_node_index, SpatialNodeIndex(3));
    assert_eq!(info.raster_spatial_node_index, SpatialNodeIndex(4));
    assert_eq!(info.device_pixel_scale, DevicePixelScale(scalar(1.5)));
    assert_eq!(info.world_scale_factors, (scalar(2.0), scalar(3.0)));
    assert_eq!(info.blur_scale_factors, (scalar(4.0), scalar(5.0)));
    assert_eq!(info.local_scale, (scalar(6.0), scalar(7.0)));
    assert!(!info.is_opaque);
    assert!(info.allow_snapping);
    assert!(!info.force_scissor_rect);
    assert_eq!(info.svgfe_source_map, ScaleOffset::identity());
}

#[test]
fn a_surface_that_the_screen_cannot_be_mapped_to_culls_nothing() {
    let screen = rect(0.0, 0.0, 320.0, 240.0);
    let failures = [
        Projection { is_scale_offset: false, rect: Some(screen) },
        Projection { is_scale_offset: true, rect: None },
        Projection { is_scale_offset: false, rect: None },
    ];
    for failed in failures.iter() {
        let info = SurfaceInfo::new(
            SpatialNodeIndex(0),
            SpatialNodeIndex(0),
            None,
            *failed,
            DevicePixelScale(scalar(1.0)),
            (scalar(1.0), scalar(1.0)),
            (scalar(1.0), scalar(1.0)),
            (scalar(1.0), scalar(1.0)),
            false,
            true,
        );
        assert_eq!(info.culling_rect, Rect::max_rect());
        assert!(info.culling_rect_projection_failed);
        assert_eq!(info.map_local_to_picture.bounds, Rect::max_rect());
        assert!(info.force_scissor_rect);
    }
}

#[test]
fn a_blur_within_the_limit_keeps_its_radii() {
    assert_eq!(MAX_BLUR_RADIUS_BITS, 100.0f32.to_bits());
    let info = surface(0, 0, 1.0);
    let radii = (scalar(12.0), scalar(9.0));
    let shrunk = (scalar(6.0), scalar(4.5));
    for largest in [0.0f32, 99.0, 100.0, f32::NAN].iter() {
        assert_eq!(
            info.clamp_blur_radius(radii.0, radii.1, scalar(*largest), shrunk),
            radii,
            "{}",
            largest,
        );
    }
    for largest in [100.1f32, 200.0, f32::INFINITY].iter() {
        assert_eq!(info.clamp_blur_radius(radii.0, radii.1, scalar(*largest), shrunk), shrunk);
    }
}

#[test]
fn a_culling_rectangle_is_expanded_in_the_same_raster_space() {
    let mut info = surface(1, 2, 1.0);
    let before = info;
    let parent = rect(10.0, 10.0, 50.0, 50.0);
    let action = info.update_culling_rect(CullingEvent::Parent {
        raster_spatial_node_index: SpatialNodeIndex(2),
        culling_rect: parent,
    });
    assert_eq!(action, CullingAction::Expand(parent));
    assert_eq!(info, before);
    let expanded = rect(0.0, 0.0, 60.0, 60.0);
    let action = info.update_culling_rect(CullingEvent::Expanded(Some(expanded)));
    assert_eq!(action, CullingAction::Done);
    assert_eq!(info, SurfaceInfo { culling_rect: expanded, ..before });
    assert!(!info.culling_rect_projection_failed);
}

#[test]
fn a_culling_rectangle_crosses_raster_spaces_by_way_of_the_screen() {
    let mut info = surface(1, 2, 1.0);
    let parent = rect(10.0, 10.0, 50.0, 50.0);
    let screen = rect(20.0, 20.0, 100.0, 100.0);
    let across = rect(5.0, 5.0, 25.0, 25.0);
    assert_eq!(
        info.update_culling_rect(CullingEvent::Parent {
            raster_spatial_node_index: SpatialNodeIndex(7),
            culling_rect: parent,
        }),
        CullingAction::MapToScreen(parent),
    );
    assert_eq!(
        info.update_culling_rect(CullingEvent::OnScreen(sound(screen))),
        CullingAction::MapToRaster(screen),
    );
    assert_eq!(
        info.update_culling_rect(CullingEvent::InRaster(sound(across))),
        CullingAction::Expand(across),
    );
}

#[test]
fn a_failed_mapping_culls_nothing() {
    let unsound = Projection { is_scale_offset: false, rect: Some(rect(0.0, 0.0, 1.0, 1.0)) };
    let unmapped = Projection { is_scale_offset: true, rect: None };
    let events = [
        CullingEvent::OnScreen(unsound),
        CullingEvent::OnScreen(unmapped),
        CullingEvent::InRaster(unsound),
        CullingEvent::InRaster(unmapped),
        CullingEvent::Expanded(None),
    ];
    for event in events.iter() {
        let mut info = surface(1, 2, 1.0);
        let before = info;
        assert!(!before.culling_rect_projection_failed);
        assert_eq!(info.update_culling_rect(*event), CullingAction::Done);
        assert_eq!(
            info,
            SurfaceInfo {
                culling_rect: Rect::max_rect(),
                culling_rect_projection_failed: true,
                ..before
            },
        );
    }
}

#[test]
fn a_failure_is_forgotten_once_a_rectangle_is_derived() {
    let mut info = surface(1, 2, 1.0);
    info.update_culling_rect(CullingEvent::Expanded(None));
    assert!(info.culling_rect_projection_failed);
    // A step that settles nothing says nothing of it.
    let parent = rect(10.0, 10.0, 50.0, 50.0);
    info.update_culling_rect(CullingEvent::Parent {
        raster_spatial_node_index: SpatialNodeIndex(2),
        culling_rect: parent,
    });
    assert!(info.culling_rect_projection_failed);
    info.update_culling_rect(CullingEvent::Expanded(Some(parent)));
    assert_eq!(info.culling_rect, parent);
    assert!(!info.culling_rect_projection_failed);
}

#[test]
fn a_parent_that_culls_nothing_leaves_the_failure_as_it_is() {
    for failed in [false, true].iter() {
        let mut info = surface(1, 2, 1.0);
        info.culling_rect_projection_failed = *failed;
        info.update_culling_rect(CullingEvent::Parent {
            raster_spatial_node_index: SpatialNodeIndex(7),
            culling_rect: Rect::max_rect(),
        });
        assert_eq!(info.culling_rect_projection_failed, *failed);
    }
}

#[test]
fn a_parent_that_culls_nothing_has_children_that_cull_nothing() {
    for node in [2u32, 7].iter() {
        let mut info = surface(1, 2, 1.0);
        let action = info.update_culling_rect(CullingEvent::Parent {
            raster_spatial_node_index: SpatialNodeIndex(*node),
            culling_rect: Rect::max_rect(),
        });
        assert_eq!(action, CullingAction::Done);
        assert_eq!(info.culling_rect, Rect::max_rect());
    }
}

#[test]
fn a_rectangle_is_mapped_to_the_device() {
    let tree = SpatialTree::new(SpatialNodeIndex(0));
    let r = rect(1.0, 2.0, 3.0, 4.0);
    let own = surface(5, 5, 2.0);
    assert_eq!(
        own.map_to_device_rect(MappingEvent::Local(r), &tree),
        MappingAction::Scale(ScaledRect { rect: r, scale: DevicePixelScale(scalar(2.0)) }),
    );
    let snapped = surface(5, 0, 1.0);
    assert_eq!(
        snapped.map_to_device_rect(MappingEvent::Local(r), &tree),
        MappingAction::MapToRoot(r),
    );
    let mapped = rect(11.0, 12.0, 13.0, 14.0);
    assert_eq!(
        snapped.map_to_device_rect(MappingEvent::InRoot(mapped), &tree),
        MappingAction::Scale(ScaledRect { rect: mapped, scale: DevicePixelScale(scalar(1.0)) }),
    );
}

#[test]
fn a_child_surface_is_allocated_in_whole_pixels() {
    let mut info = surface(5, 5, 2.0);
    info.clipping_rect = rect(0.0, 0.0, 10.0, 10.0);
    assert_eq!(
        info.get_surface_rect(AllocationEvent::Local(rect(10.0, 0.0, 20.0, 10.0))),
        AllocationAction::Done(None),
    );
    assert_eq!(
        info.get_surface_rect(AllocationEvent::Local(rect(4.0, -4.0, 20.0, 6.0))),
        AllocationAction::RoundOut(ScaledRect {
            rect: rect(4.0, 0.0, 10.0, 6.0),
            scale: DevicePixelScale(scalar(2.0)),
        }),
    );
    let mut snapped = surface(5, 0, 1.0);
    snapped.clipping_rect = rect(0.0, 0.0, 10.0, 10.0);
    assert_eq!(
        snapped.get_surface_rect(AllocationEvent::Local(rect(4.0, -4.0, 20.0, 6.0))),
        AllocationAction::MapToRoot(rect(4.0, 0.0, 10.0, 6.0)),
    );
    let mapped = rect(14.0, 10.0, 20.0, 16.0);
    assert_eq!(
        snapped.get_surface_rect(AllocationEvent::InRoot(mapped)),
        AllocationAction::RoundOut(ScaledRect {
            rect: mapped,
            scale: DevicePixelScale(scalar(1.0)),
        }),
    );
    let held = pixels(8, 0, 20, 12);
    assert_eq!(
        info.get_surface_rect(AllocationEvent::Pixels(held)),
        AllocationAction::Done(Some(held)),
    );
    assert_eq!(
        info.get_surface_rect(AllocationEvent::Pixels(pixels(8, 0, 8, 12))),
        AllocationAction::Done(None),
    );
}

#[test]
fn surfaces_are_told_apart_by_their_index() {
    assert_eq!(SurfaceIndex(4), SurfaceIndex(4));
    assert_ne!(SurfaceIndex(4), SurfaceIndex(5));
    let conditional = SubpixelMode::Conditional {
        allowed_rect: rect(0.0, 0.0, 9.0, 9.0),
        prohibited_rect: rect(1.0, 1.0, 2.0, 2.0),
    };
    assert_ne!(conditional, SubpixelMode::Allow);
    assert_ne!(SubpixelMode::Allow, SubpixelMode::Deny);
}
