//! How the culling rectangle of a surface is derived, and how rectangles are mapped to the
//! device: said of what each step finds.

use vstd::prelude::*;

use crate::filter_laws::leaves_in_place;
use crate::geometry::{DeviceIntRect, DeviceRect, PictureRect, RasterRect, Rect};
use crate::scalar::Scalar;
use crate::spatial::{DevicePixelScale, SpatialNodeIndex};
use crate::surface_info::{
    allocation_run, allocation_step, culling_run, culling_step, limited_blur, mapping_run,
    mapping_step, or_whole_plane, AllocationAction, AllocationEvent, CullingAction, CullingEvent,
    MappingAction, MappingEvent, Projection, ScaledRect, SurfaceInfo,
};

verus! {

/// Whether the rectangle is the one that stands for the whole plane: from half the least to
/// half the greatest finite number on both axes.
pub open spec fn is_whole_plane(rect: Rect) -> bool {
    &&& rect.min.x.bits == 0xfeff_ffff
    &&& rect.min.y.bits == 0xfeff_ffff
    &&& rect.max.x.bits == 0x7eff_ffff
    &&& rect.max.y.bits == 0x7eff_ffff
}

/// Whether all edges of the rectangle are zero.
pub open spec fn has_no_extent(rect: Rect) -> bool {
    &&& rect.min.x.bits == 0
    &&& rect.min.y.bits == 0
    &&& rect.max.x.bits == 0
    &&& rect.max.y.bits == 0
}

/// What is mapped bounds something only where the mapping is a scale and an offset and
/// there is an image. Where there is no bound, the whole plane takes its place.
pub proof fn law_only_a_scale_and_offset_bounds(projection: Projection)
    ensures
        projection.bound() is Some <==> projection.is_scale_offset && projection.rect is Some,
        projection.bound() is Some ==> projection.bound() == projection.rect,
        projection.bound() is Some ==> Some(or_whole_plane(projection.bound()))
            == projection.rect,
        projection.bound() is None ==> is_whole_plane(or_whole_plane(projection.bound())),
{
}

/// Whether nothing of a surface has changed but what is culled.
pub open spec fn only_culls_otherwise(before: SurfaceInfo, after: SurfaceInfo) -> bool {
    after == (SurfaceInfo {
        culling_rect: after.culling_rect,
        culling_rect_projection_failed: after.culling_rect_projection_failed,
        ..before
    })
}

/// Whether a surface culls nothing, since something could not be mapped.
pub open spec fn gave_up_culling(info: SurfaceInfo) -> bool {
    info.culling_rect_projection_failed && is_whole_plane(info.culling_rect)
}

/// Each event of deriving a culling rectangle. A parent that culls nothing ends it; one in
/// the same raster space goes on to be expanded as it is, and any other to be mapped to the
/// screen. What is mapped goes on only where it is a sound bound. What has been expanded is
/// culled. Until the end nothing of the surface changes.
pub proof fn law_each_event_of_culling(
    info: SurfaceInfo,
    node: SpatialNodeIndex,
    rect: RasterRect,
    projection: Projection,
    expanded: Option<RasterRect>,
)
    ensures
        ({
            let (after, action) = culling_step(
                info,
                CullingEvent::Parent { raster_spatial_node_index: node, culling_rect: rect },
            );
            &&& is_whole_plane(rect) ==> action is Done && after == (SurfaceInfo {
                culling_rect: rect,
                ..info
            })
            &&& !is_whole_plane(rect) ==> after == info && action == if node
                == info.raster_spatial_node_index {
                CullingAction::Expand(rect)
            } else {
                CullingAction::MapToScreen(rect)
            }
        }),
        ({
            let sound = projection.is_scale_offset && projection.rect is Some;
            let (after, action) = culling_step(info, CullingEvent::OnScreen(projection));
            let (later, next) = culling_step(info, CullingEvent::InRaster(projection));
            &&& sound ==> after == info && action == CullingAction::MapToRaster(
                projection.rect->0,
            )
            &&& sound ==> later == info && next == CullingAction::Expand(projection.rect->0)
            &&& !sound ==> action is Done && gave_up_culling(after) && only_culls_otherwise(
                info,
                after,
            )
            &&& !sound ==> next is Done && gave_up_culling(later) && only_culls_otherwise(
                info,
                later,
            )
        }),
        ({
            let (after, action) = culling_step(info, CullingEvent::Expanded(expanded));
            &&& action is Done
            &&& only_culls_otherwise(info, after)
            &&& expanded is None ==> gave_up_culling(after)
            &&& expanded matches Some(rect) ==> after.culling_rect == rect
                && !after.culling_rect_projection_failed
        }),
{
}

/// The whole derivation of a culling rectangle. Where the raster spaces differ, the
/// rectangle of the parent is mapped to the screen and from there; then it is expanded by
/// what the composite mode reads. Where a mapping is no sound bound, or what is expanded
/// cannot be mapped back, nothing is culled.
pub proof fn law_culling_follows_the_parent(
    info: SurfaceInfo,
    node: SpatialNodeIndex,
    rect: RasterRect,
    on_screen: spec_fn(RasterRect) -> Projection,
    in_raster: spec_fn(DeviceRect) -> Projection,
    expanded: spec_fn(RasterRect) -> Option<RasterRect>,
    steps: nat,
)
    requires
        steps >= 3,
        !is_whole_plane(rect),
    ensures
        ({
            let after = culling_run(
                info,
                CullingEvent::Parent { raster_spatial_node_index: node, culling_rect: rect },
                on_screen,
                in_raster,
                expanded,
                steps,
            );
            let same = node == info.raster_spatial_node_index;
            let screen = on_screen(rect);
            let raster = in_raster(screen.rect->0);
            let maps_to_screen = screen.is_scale_offset && screen.rect is Some;
            let maps = maps_to_screen && raster.is_scale_offset && raster.rect is Some;
            let found = if same {
                expanded(rect)
            } else {
                expanded(raster.rect->0)
            };
            &&& only_culls_otherwise(info, after)
            &&& !same && !maps ==> gave_up_culling(after)
            &&& (same || maps) && found is None ==> gave_up_culling(after)
            &&& (same || maps) && found is Some ==> Some(after.culling_rect) == found
                && !after.culling_rect_projection_failed
        }),
{
    reveal_with_fuel(culling_run, 5);
}

/// Mapping a rectangle to the device: it is first mapped to the root exactly where the
/// surface is rasterized in another space than its own, and then multiplied by the ratio of
/// device pixels.
pub proof fn law_mapping_to_the_device(
    info: SurfaceInfo,
    rect: PictureRect,
    in_root: spec_fn(PictureRect) -> RasterRect,
    steps: nat,
)
    requires
        steps >= 1,
    ensures
        ({
            let elsewhere = info.raster_spatial_node_index.0 != info.surface_spatial_node_index.0;
            let action = mapping_run(info, MappingEvent::Local(rect), in_root, steps);
            &&& mapping_step(info, MappingEvent::Local(rect)) is MapToRoot <==> elsewhere
            &&& elsewhere ==> mapping_step(info, MappingEvent::Local(rect))
                == MappingAction::MapToRoot(rect)
            &&& action == MappingAction::Scale(
                ScaledRect {
                    rect: if elsewhere {
                        in_root(rect)
                    } else {
                        rect
                    },
                    scale: info.device_pixel_scale,
                },
            )
        }),
{
    reveal_with_fuel(mapping_run, 3);
}

/// Allocating a child surface: what the rectangle has in common with what is valid of the
/// surface is mapped to the root exactly where the surface is rasterized in another space
/// than its own, and rounded out to whole pixels. Nothing is allocated where there is
/// nothing in common, or no pixel is covered.
pub proof fn law_allocating_a_child(
    info: SurfaceInfo,
    rect: PictureRect,
    in_root: spec_fn(PictureRect) -> RasterRect,
    round_out: spec_fn(ScaledRect) -> DeviceIntRect,
    steps: nat,
)
    requires
        steps >= 2,
    ensures
        ({
            let elsewhere = info.raster_spatial_node_index.0 != info.surface_spatial_node_index.0;
            let first = allocation_step(info, AllocationEvent::Local(rect));
            let action = allocation_run(
                info,
                AllocationEvent::Local(rect),
                in_root,
                round_out,
                steps,
            );
            let part = rect.common(info.clipping_rect);
            let raster = if elsewhere {
                in_root(part->0)
            } else {
                part->0
            };
            let pixels = round_out(ScaledRect { rect: raster, scale: info.device_pixel_scale });
            &&& part is None ==> action == AllocationAction::Done(None)
            &&& part is Some ==> (first == AllocationAction::MapToRoot(part->0) <==> elsewhere)
            &&& part is Some && (pixels.max.x <= pixels.min.x || pixels.max.y <= pixels.min.y)
                ==> action == AllocationAction::Done(None)
            &&& part is Some && pixels.min.x < pixels.max.x && pixels.min.y < pixels.max.y
                ==> action == AllocationAction::Done(Some(pixels))
        }),
{
    reveal_with_fuel(allocation_run, 4);
}

/// A blur keeps both of its radii exactly up to a hundred pixels of the device, and where
/// its size is no number. A larger one has both shrunk.
pub proof fn law_blur_is_limited(
    radii: (Scalar, Scalar),
    largest: Scalar,
    shrunk: (Scalar, Scalar),
)
    ensures
        0x42c8_0000 < largest.bits <= 0x7f80_0000 ==> limited_blur(radii, largest, shrunk)
            == shrunk,
        !(0x42c8_0000 < largest.bits <= 0x7f80_0000) ==> limited_blur(radii, largest, shrunk)
            == radii,
{
}

/// A surface of which nothing has been drawn: it covers nothing and is valid nowhere, its
/// culling rectangle is what the screen is where it is rasterized, as far as that is a sound
/// bound, and everything else is as given.
pub proof fn law_fresh_surface(
    surface_node: SpatialNodeIndex,
    raster_node: SpatialNodeIndex,
    bounds: Option<PictureRect>,
    screen: Projection,
    device_pixel_scale: DevicePixelScale,
    world_scale_factors: (Scalar, Scalar),
    blur_scale_factors: (Scalar, Scalar),
    local_scale: (Scalar, Scalar),
    allow_snapping: bool,
    force_scissor_rect: bool,
)
    ensures
        ({
            let info = SurfaceInfo::fresh(
                surface_node,
                raster_node,
                bounds,
                screen,
                device_pixel_scale,
                world_scale_factors,
                blur_scale_factors,
                local_scale,
                allow_snapping,
                force_scissor_rect,
            );
            let sound = screen.is_scale_offset && screen.rect is Some;
            &&& has_no_extent(info.unclipped_local_rect)
            &&& has_no_extent(info.clipped_local_rect)
            &&& has_no_extent(info.clipping_rect)
            &&& sound ==> Some(info.culling_rect) == screen.rect
                && !info.culling_rect_projection_failed
            &&& !sound ==> gave_up_culling(info)
            &&& info.map_local_to_picture.ref_spatial_node_index == surface_node
            &&& bounds is Some ==> Some(info.map_local_to_picture.bounds) == bounds
            &&& bounds is None ==> is_whole_plane(info.map_local_to_picture.bounds)
            &&& info.surface_spatial_node_index == surface_node
            &&& info.raster_spatial_node_index == raster_node
            &&& info.device_pixel_scale == device_pixel_scale
            &&& info.world_scale_factors == world_scale_factors
            &&& info.blur_scale_factors == blur_scale_factors
            &&& info.local_scale == local_scale
            &&& !info.is_opaque
            &&& info.allow_snapping == allow_snapping
            &&& info.force_scissor_rect == force_scissor_rect
            &&& leaves_in_place(info.svgfe_source_map)
        }),
{
}

} // verus!
