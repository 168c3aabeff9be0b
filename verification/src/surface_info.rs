//! What is known of an off-screen surface.

use vstd::prelude::*;

use crate::geometry::{DeviceIntRect, DeviceRect, PictureRect, RasterRect, Rect};
use crate::scalar::Scalar;
use crate::spatial::{DevicePixelScale, ScaleOffset, SpaceMapper, SpatialNodeIndex, SpatialTree};

verus! {

/// An index into the surface array.
#[derive(Clone, Copy, Debug, PartialEq, Eq, Hash, Structural)]
pub struct SurfaceIndex(pub usize);

/// Whether a surface allows text with subpixel antialiasing.
#[derive(Clone, Copy, Debug, PartialEq, Eq, Structural)]
pub enum SubpixelMode {
    /// The surface allows it.
    Allow,
    /// The surface does not allow it.
    Deny,
    /// The surface allows it inside a rectangle, and off another one.
    Conditional { allowed_rect: PictureRect, prohibited_rect: PictureRect },
}

/// What comes of mapping a rectangle from one space to another.
///
/// The result is only a sound bound for culling where the mapping is a scale and
/// an offset. The image of a rectangle under a rotation or a perspective is not
/// bounded by the images of its corners, and culling against those would drop
/// content that is on screen.
#[derive(Clone, Copy, Debug, PartialEq, Eq, Structural)]
pub struct Projection {
    /// Whether the mapping is a scale and an offset.
    pub is_scale_offset: bool,
    /// The image of the rectangle, where there is one.
    pub rect: Option<Rect>,
}

impl Projection {
    /// The image of the rectangle, where it is a sound bound.
    pub open spec fn bound(self) -> Option<Rect> {
        if self.is_scale_offset {
            self.rect
        } else {
            None
        }
    }

    /// The image of the rectangle, where it is a sound bound.
    pub fn sound(&self) -> (r: Option<Rect>)
        ensures
            r == self.bound(),
    {
        if self.is_scale_offset {
            self.rect
        } else {
            None
        }
    }
}

/// The rectangle, or the whole plane where there is none.
pub open spec fn or_whole_plane(rect: Option<Rect>) -> Rect {
    match rect {
        Some(rect) => rect,
        None => Rect::whole_plane(),
    }
}

fn or_max_rect(rect: Option<Rect>) -> (r: Rect)
    ensures
        r == or_whole_plane(rect),
{
    match rect {
        Some(rect) => rect,
        None => Rect::max_rect(),
    }
}

/// The largest radius of a blur, in device pixels: a hundred.
pub const MAX_BLUR_RADIUS_BITS: u32 = 0x42c8_0000;

/// The radii of a blur, limited: `largest` is the greater of the two once they are scaled
/// to the device, and `shrunk` what brings that down to the limit.
pub open spec fn limited_blur(
    radii: (Scalar, Scalar),
    largest: Scalar,
    shrunk: (Scalar, Scalar),
) -> (Scalar, Scalar) {
    if (Scalar { bits: MAX_BLUR_RADIUS_BITS }).less(largest) {
        shrunk
    } else {
        radii
    }
}

/// A rectangle of the raster space of a surface that is still to be multiplied
/// by a ratio of device pixels.
#[derive(Clone, Copy, Debug, PartialEq, Eq, Structural)]
pub struct ScaledRect {
    pub rect: RasterRect,
    pub scale: DevicePixelScale,
}

/// What is known of an off-screen surface.
#[derive(Clone, Copy, Debug, PartialEq, Eq)]
pub struct SurfaceInfo {
    /// The bounds of the child primitives before they are clipped, in the space
    /// of the surface.
    pub unclipped_local_rect: PictureRect,
    /// The bounds of the child primitives after they are clipped.
    pub clipped_local_rect: PictureRect,
    /// The part of the surface that is valid, or more. It limits how much is
    /// allocated.
    pub clipping_rect: PictureRect,
    /// A primitive outside this rectangle cannot affect anything on screen. It
    /// is in the space that the surface is rasterized in.
    ///
    /// It is never empty to say that nothing is visible: whatever cannot be
    /// projected gives the whole plane, which culls nothing.
    pub culling_rect: RasterRect,
    /// Whether the culling rectangle is the whole plane because a projection
    /// failed, and not a projection of the screen.
    pub culling_rect_projection_failed: bool,
    /// The mapping of local rectangles into the space of the surface.
    pub map_local_to_picture: SpaceMapper,
    /// The node that positions the surface.
    pub surface_spatial_node_index: SpatialNodeIndex,
    /// The node in whose space the surface is rasterized.
    pub raster_spatial_node_index: SpatialNodeIndex,
    /// The ratio of device pixels to the units of the raster space.
    pub device_pixel_scale: DevicePixelScale,
    /// The scale from the surface to the device, per axis.
    pub world_scale_factors: (Scalar, Scalar),
    /// What is left of that scale after rasterizing, per axis.
    pub blur_scale_factors: (Scalar, Scalar),
    /// The scale from the surface to its raster space, per axis.
    pub local_scale: (Scalar, Scalar),
    /// Whether the surface is known to be opaque everywhere.
    pub is_opaque: bool,
    /// Whether content is snapped to the device pixels.
    pub allow_snapping: bool,
    /// Whether the surface has to be drawn with a scissor rectangle.
    pub force_scissor_rect: bool,
    /// The mapping from the space that the regions of an SVG filter graph are
    /// written in to that of the surface.
    pub svgfe_source_map: ScaleOffset,
}

/// What has been found out for the culling rectangle of a surface.
#[derive(Clone, Copy, Debug, PartialEq, Eq, Structural)]
pub enum CullingEvent {
    /// The culling rectangle of the parent, in the raster space of the parent.
    Parent { raster_spatial_node_index: SpatialNodeIndex, culling_rect: RasterRect },
    /// What that is on the screen.
    OnScreen(Projection),
    /// What that is in the raster space of the surface.
    InRaster(Projection),
    /// What the composite mode reads to draw that, if it could be mapped.
    Expanded(Option<RasterRect>),
}

/// What is still to be found out for the culling rectangle of a surface.
#[derive(Clone, Copy, Debug, PartialEq, Eq, Structural)]
pub enum CullingAction {
    /// Map the rectangle from the raster space of the parent to the screen.
    MapToScreen(RasterRect),
    /// Map the rectangle from the screen to the raster space of the surface.
    MapToRaster(DeviceRect),
    /// Expand the rectangle to what the composite mode reads, in the space of
    /// the surface, and map that back.
    Expand(RasterRect),
    /// Nothing: the culling rectangle is settled.
    Done,
}

/// What has been found out on the way from a rectangle to the device.
#[derive(Clone, Copy, Debug, PartialEq, Eq, Structural)]
pub enum MappingEvent {
    /// The rectangle, in the space of the surface.
    Local(PictureRect),
    /// What that is in the space of the root.
    InRoot(RasterRect),
}

/// What is still to be done on the way from a rectangle to the device.
#[derive(Clone, Copy, Debug, PartialEq, Eq, Structural)]
pub enum MappingAction {
    /// Map the rectangle from the space of the surface to that of the root.
    MapToRoot(PictureRect),
    /// Multiply the rectangle: that is the result.
    Scale(ScaledRect),
}

/// What has been found out on the way from a rectangle to whole device pixels.
#[derive(Clone, Copy, Debug, PartialEq, Eq, Structural)]
pub enum AllocationEvent {
    /// The rectangle, in the space of the surface.
    Local(PictureRect),
    /// What is allocated of that, in the space of the root.
    InRoot(RasterRect),
    /// The least whole pixels that hold it.
    Pixels(DeviceIntRect),
}

/// What is still to be done on the way from a rectangle to whole device pixels.
#[derive(Clone, Copy, Debug, PartialEq, Eq, Structural)]
pub enum AllocationAction {
    /// Map the rectangle from the space of the surface to that of the root.
    MapToRoot(PictureRect),
    /// Multiply the rectangle, and take the least whole pixels that hold it.
    RoundOut(ScaledRect),
    /// Nothing: that is the result.
    Done(Option<DeviceIntRect>),
}

/// The surface with a culling rectangle that has been derived, or with the whole
/// plane where it could not be.
pub open spec fn with_culling(info: SurfaceInfo, rect: Option<RasterRect>) -> SurfaceInfo {
    SurfaceInfo {
        culling_rect: or_whole_plane(rect),
        culling_rect_projection_failed: rect is None,
        ..info
    }
}

/// What an event makes of the culling rectangle of a surface, and what is still
/// to be found out.
pub open spec fn culling_step(info: SurfaceInfo, event: CullingEvent) -> (
    SurfaceInfo,
    CullingAction,
) {
    match event {
        CullingEvent::Parent { raster_spatial_node_index, culling_rect } => {
            if culling_rect == Rect::whole_plane() {
                (SurfaceInfo { culling_rect, ..info }, CullingAction::Done)
            } else if raster_spatial_node_index == info.raster_spatial_node_index {
                (info, CullingAction::Expand(culling_rect))
            } else {
                (info, CullingAction::MapToScreen(culling_rect))
            }
        },
        CullingEvent::OnScreen(projection) => match projection.bound() {
            Some(rect) => (info, CullingAction::MapToRaster(rect)),
            None => (with_culling(info, None), CullingAction::Done),
        },
        CullingEvent::InRaster(projection) => match projection.bound() {
            Some(rect) => (info, CullingAction::Expand(rect)),
            None => (with_culling(info, None), CullingAction::Done),
        },
        CullingEvent::Expanded(rect) => (with_culling(info, rect), CullingAction::Done),
    }
}

/// What an event makes of a rectangle on its way to the device.
pub open spec fn mapping_step(info: SurfaceInfo, event: MappingEvent) -> MappingAction {
    match event {
        MappingEvent::Local(rect) => if info.rasters_elsewhere() {
            MappingAction::MapToRoot(rect)
        } else {
            MappingAction::Scale(ScaledRect { rect, scale: info.device_pixel_scale })
        },
        MappingEvent::InRoot(rect) => MappingAction::Scale(
            ScaledRect { rect, scale: info.device_pixel_scale },
        ),
    }
}

/// What an event makes of a rectangle on its way to whole device pixels.
pub open spec fn allocation_step(info: SurfaceInfo, event: AllocationEvent) -> AllocationAction {
    match event {
        AllocationEvent::Local(rect) => match rect.common(info.clipping_rect) {
            None => AllocationAction::Done(None),
            Some(part) => if info.rasters_elsewhere() {
                AllocationAction::MapToRoot(part)
            } else {
                AllocationAction::RoundOut(
                    ScaledRect { rect: part, scale: info.device_pixel_scale },
                )
            },
        },
        AllocationEvent::InRoot(rect) => AllocationAction::RoundOut(
            ScaledRect { rect, scale: info.device_pixel_scale },
        ),
        AllocationEvent::Pixels(rect) => AllocationAction::Done(
            if rect.empty() {
                None
            } else {
                Some(rect)
            },
        ),
    }
}

impl SurfaceInfo {
    /// Whether the surface is rasterized in another space than its own.
    pub open spec fn rasters_elsewhere(self) -> bool {
        self.raster_spatial_node_index != self.surface_spatial_node_index
    }

    /// A surface of which nothing has been drawn.
    pub open spec fn fresh(
        surface_spatial_node_index: SpatialNodeIndex,
        raster_spatial_node_index: SpatialNodeIndex,
        surface_bounds: Option<PictureRect>,
        screen_in_raster: Projection,
        device_pixel_scale: DevicePixelScale,
        world_scale_factors: (Scalar, Scalar),
        blur_scale_factors: (Scalar, Scalar),
        local_scale: (Scalar, Scalar),
        allow_snapping: bool,
        force_scissor_rect: bool,
    ) -> Self {
        SurfaceInfo {
            unclipped_local_rect: Rect::zero_value(),
            clipped_local_rect: Rect::zero_value(),
            clipping_rect: Rect::zero_value(),
            culling_rect: or_whole_plane(screen_in_raster.bound()),
            culling_rect_projection_failed: screen_in_raster.bound() is None,
            map_local_to_picture: SpaceMapper {
                ref_spatial_node_index: surface_spatial_node_index,
                bounds: or_whole_plane(surface_bounds),
            },
            surface_spatial_node_index,
            raster_spatial_node_index,
            device_pixel_scale,
            world_scale_factors,
            blur_scale_factors,
            local_scale,
            is_opaque: false,
            allow_snapping,
            force_scissor_rect,
            svgfe_source_map: ScaleOffset::identity_value(),
        }
    }

    /// A surface of which nothing has been drawn.
    ///
    /// `surface_bounds` is what the screen is in the space of the surface, where
    /// it can be mapped there, and `screen_in_raster` what it is in the space
    /// that the surface is rasterized in. Where that is no sound bound, nothing
    /// is culled.
    pub fn new(
        surface_spatial_node_index: SpatialNodeIndex,
        raster_spatial_node_index: SpatialNodeIndex,
        surface_bounds: Option<PictureRect>,
        screen_in_raster: Projection,
        device_pixel_scale: DevicePixelScale,
        world_scale_factors: (Scalar, Scalar),
        blur_scale_factors: (Scalar, Scalar),
        local_scale: (Scalar, Scalar),
        allow_snapping: bool,
        force_scissor_rect: bool,
    ) -> (r: Self)
        ensures
            r == (SurfaceInfo {
                unclipped_local_rect: Rect::zero_value(),
                clipped_local_rect: Rect::zero_value(),
                clipping_rect: Rect::zero_value(),
                culling_rect: or_whole_plane(screen_in_raster.bound()),
                culling_rect_projection_failed: screen_in_raster.bound() is None,
                map_local_to_picture: SpaceMapper {
                    ref_spatial_node_index: surface_spatial_node_index,
                    bounds: or_whole_plane(surface_bounds),
                },
                surface_spatial_node_index,
                raster_spatial_node_index,
                device_pixel_scale,
                world_scale_factors,
                blur_scale_factors,
                local_scale,
                is_opaque: false,
                allow_snapping,
                force_scissor_rect,
                svgfe_source_map: ScaleOffset::identity_value(),
            }),
            r == Self::fresh(
                surface_spatial_node_index,
                raster_spatial_node_index,
                surface_bounds,
                screen_in_raster,
                device_pixel_scale,
                world_scale_factors,
                blur_scale_factors,
                local_scale,
                allow_snapping,
                force_scissor_rect,
            ),
    {
        let pic_bounds = or_max_rect(surface_bounds);
        let map_local_to_picture = SpaceMapper::new(surface_spatial_node_index, pic_bounds);
        let mut culling_rect_projection_failed: bool = false;
        let culling_rect = match screen_in_raster.sound() {
            Some(rect) => rect,
            None => {
                // Cull nothing rather than everything.
                culling_rect_projection_failed = true;
                Rect::max_rect()
            },
        };
        SurfaceInfo {
            unclipped_local_rect: Rect::zero(),
            clipped_local_rect: Rect::zero(),
            is_opaque: false,
            clipping_rect: Rect::zero(),
            map_local_to_picture,
            raster_spatial_node_index,
            surface_spatial_node_index,
            device_pixel_scale,
            world_scale_factors,
            blur_scale_factors,
            local_scale,
            allow_snapping,
            force_scissor_rect,
            svgfe_source_map: ScaleOffset::identity(),
            culling_rect,
            culling_rect_projection_failed,
        }
    }

    /// The radii of a blur, limited: `largest_scaled_blur_radius` is the greater
    /// of the two once they are scaled to the device, and `shrunk` what they are
    /// when they are shrunk by as much as brings that down to the limit. A blur
    /// within the limit keeps its radii, so that nothing is lost to rounding.
    pub fn clamp_blur_radius(
        &self,
        x_blur_radius: Scalar,
        y_blur_radius: Scalar,
        largest_scaled_blur_radius: Scalar,
        shrunk: (Scalar, Scalar),
    ) -> (r: (Scalar, Scalar))
        ensures
            r == (if (Scalar { bits: MAX_BLUR_RADIUS_BITS }).less(largest_scaled_blur_radius) {
                shrunk
            } else {
                (x_blur_radius, y_blur_radius)
            }),
            r == limited_blur((x_blur_radius, y_blur_radius), largest_scaled_blur_radius, shrunk),
    {
        if Scalar::from_bits(MAX_BLUR_RADIUS_BITS).lt(largest_scaled_blur_radius) {
            shrunk
        } else {
            (x_blur_radius, y_blur_radius)
        }
    }

    /// Takes a culling rectangle that has been derived. Where it could not be,
    /// nothing is culled.
    fn set_culling_rect(&mut self, rect: Option<RasterRect>)
        ensures
            *final(self) == with_culling(*old(self), rect),
    {
        self.culling_rect_projection_failed = rect.is_none();
        self.culling_rect = or_max_rect(rect);
    }

    /// Derives the culling rectangle of the surface from that of its parent, one
    /// event after the other, and tells what is still to be found out.
    ///
    /// The rectangle of the parent is mapped across by way of the screen where
    /// the two are rasterized in different spaces. It is then expanded by what
    /// the composite mode reads: a blur, a shadow or a filter graph samples
    /// outside its own destination.
    pub fn update_culling_rect(&mut self, event: CullingEvent) -> (action: CullingAction)
        ensures
            (*final(self), action) == culling_step(*old(self), event),
    {
        match event {
            CullingEvent::Parent { raster_spatial_node_index, culling_rect } => {
                // A parent that culls nothing gives a child that culls nothing:
                // mapping the whole plane across need not still cover it.
                if culling_rect == Rect::max_rect() {
                    self.culling_rect = culling_rect;
                    CullingAction::Done
                } else if raster_spatial_node_index == self.raster_spatial_node_index {
                    CullingAction::Expand(culling_rect)
                } else {
                    CullingAction::MapToScreen(culling_rect)
                }
            },
            CullingEvent::OnScreen(projection) => {
                match projection.sound() {
                    Some(rect) => CullingAction::MapToRaster(rect),
                    None => {
                        self.set_culling_rect(None);
                        CullingAction::Done
                    },
                }
            },
            CullingEvent::InRaster(projection) => {
                match projection.sound() {
                    Some(rect) => CullingAction::Expand(rect),
                    None => {
                        self.set_culling_rect(None);
                        CullingAction::Done
                    },
                }
            },
            CullingEvent::Expanded(rect) => {
                // The rectangle that has not been expanded must not stay: it
                // culls the very content that the expansion keeps.
                self.set_culling_rect(rect);
                CullingAction::Done
            },
        }
    }

    /// Maps a rectangle of the surface to the device, one event after the other,
    /// and tells what is still to be done.
    ///
    /// A surface is only rasterized in another space than its own to be snapped,
    /// in the space of the root.
    pub fn map_to_device_rect(&self, event: MappingEvent, spatial_tree: &SpatialTree) -> (action:
        MappingAction)
        requires
            self.rasters_elsewhere() ==> {
                &&& self.device_pixel_scale.0 == Scalar::one_value()
                &&& self.raster_spatial_node_index == spatial_tree.root_node()
            },
        ensures
            action == mapping_step(*self, event),
    {
        match event {
            MappingEvent::Local(rect) => {
                if self.raster_spatial_node_index != self.surface_spatial_node_index {
                    MappingAction::MapToRoot(rect)
                } else {
                    MappingAction::Scale(ScaledRect { rect, scale: self.device_pixel_scale })
                }
            },
            MappingEvent::InRoot(rect) => MappingAction::Scale(
                ScaledRect { rect, scale: self.device_pixel_scale },
            ),
        }
    }

    /// Clips a rectangle of the surface and maps it to the whole pixels that a
    /// child surface is allocated in, one event after the other, and tells what
    /// is still to be done. There are none where the rectangle lies outside the
    /// surface, or is too small to cover a pixel.
    pub fn get_surface_rect(&self, event: AllocationEvent) -> (action: AllocationAction)
        requires
            event matches AllocationEvent::Local(rect) && rect.common(self.clipping_rect) is Some
                ==> (if self.rasters_elsewhere() {
                self.device_pixel_scale.0 == Scalar::one_value()
            } else {
                Scalar::zero_value().less(self.device_pixel_scale.0)
            }),
        ensures
            action == allocation_step(*self, event),
    {
        match event {
            AllocationEvent::Local(rect) => {
                match rect.intersection(&self.clipping_rect) {
                    None => AllocationAction::Done(None),
                    Some(part) => {
                        if self.raster_spatial_node_index != self.surface_spatial_node_index {
                            AllocationAction::MapToRoot(part)
                        } else {
                            AllocationAction::RoundOut(
                                ScaledRect { rect: part, scale: self.device_pixel_scale },
                            )
                        }
                    },
                }
            },
            AllocationEvent::InRoot(rect) => AllocationAction::RoundOut(
                ScaledRect { rect, scale: self.device_pixel_scale },
            ),
            AllocationEvent::Pixels(rect) => {
                if rect.is_empty() {
                    AllocationAction::Done(None)
                } else {
                    AllocationAction::Done(Some(rect))
                }
            },
        }
    }
}

/// A parent that culls nothing gives a child that culls nothing.
pub proof fn law_unculled_parent(info: SurfaceInfo, node: SpatialNodeIndex)
    ensures
        ({
            let (after, action) = culling_step(
                info,
                CullingEvent::Parent {
                    raster_spatial_node_index: node,
                    culling_rect: Rect::whole_plane(),
                },
            );
            after.culling_rect == Rect::whole_plane() && action is Done
        }),
{
}

/// The culling rectangle that is derived from that of the parent, if no step
/// fails: it is carried across where the raster spaces differ, and expanded.
/// `on_screen`, `in_raster` and `expanded` are what each step finds when it is
/// asked for.
pub open spec fn derived_culling(
    info: SurfaceInfo,
    parent_node: SpatialNodeIndex,
    parent_rect: RasterRect,
    on_screen: spec_fn(RasterRect) -> Projection,
    in_raster: spec_fn(DeviceRect) -> Projection,
    expanded: spec_fn(RasterRect) -> Option<RasterRect>,
) -> Option<RasterRect> {
    let across = if parent_node == info.raster_spatial_node_index {
        Some(parent_rect)
    } else {
        match on_screen(parent_rect).bound() {
            Some(rect) => in_raster(rect).bound(),
            None => None,
        }
    };
    match across {
        Some(rect) => expanded(rect),
        None => None,
    }
}

/// The surface that the events of a whole derivation give. A parent that culls
/// nothing is taken over as it is.
pub open spec fn culling_outcome(
    info: SurfaceInfo,
    parent_node: SpatialNodeIndex,
    parent_rect: RasterRect,
    on_screen: spec_fn(RasterRect) -> Projection,
    in_raster: spec_fn(DeviceRect) -> Projection,
    expanded: spec_fn(RasterRect) -> Option<RasterRect>,
) -> SurfaceInfo {
    if parent_rect == Rect::whole_plane() {
        SurfaceInfo { culling_rect: parent_rect, ..info }
    } else {
        with_culling(
            info,
            derived_culling(info, parent_node, parent_rect, on_screen, in_raster, expanded),
        )
    }
}

/// The surface, once every question that an action asks has been answered.
pub open spec fn culling_run(
    info: SurfaceInfo,
    event: CullingEvent,
    on_screen: spec_fn(RasterRect) -> Projection,
    in_raster: spec_fn(DeviceRect) -> Projection,
    expanded: spec_fn(RasterRect) -> Option<RasterRect>,
    steps: nat,
) -> SurfaceInfo
    decreases steps,
{
    let (after, action) = culling_step(info, event);
    if steps == 0 {
        after
    } else {
        let next = |event: CullingEvent|
            culling_run(after, event, on_screen, in_raster, expanded, (steps - 1) as nat);
        match action {
            CullingAction::MapToScreen(rect) => next(CullingEvent::OnScreen(on_screen(rect))),
            CullingAction::MapToRaster(rect) => next(CullingEvent::InRaster(in_raster(rect))),
            CullingAction::Expand(rect) => next(CullingEvent::Expanded(expanded(rect))),
            CullingAction::Done => after,
        }
    }
}

/// Deriving a culling rectangle takes at most four events. It changes nothing of
/// the surface but that rectangle and whether it could be derived. The rectangle
/// is the parent's, carried across and expanded. As soon as a step fails it is the
/// whole plane, and the surface says so.
pub proof fn law_culling_run(
    info: SurfaceInfo,
    parent_node: SpatialNodeIndex,
    parent_rect: RasterRect,
    on_screen: spec_fn(RasterRect) -> Projection,
    in_raster: spec_fn(DeviceRect) -> Projection,
    expanded: spec_fn(RasterRect) -> Option<RasterRect>,
    steps: nat,
)
    requires
        steps >= 3,
    ensures
        culling_run(
            info,
            CullingEvent::Parent {
                raster_spatial_node_index: parent_node,
                culling_rect: parent_rect,
            },
            on_screen,
            in_raster,
            expanded,
            steps,
        ) == culling_outcome(info, parent_node, parent_rect, on_screen, in_raster, expanded),
{
    reveal_with_fuel(culling_run, 5);
}

/// The surface tells whether its culling rectangle is what takes the place of a
/// failed projection. After a derivation from a parent that culls something, it
/// does so exactly where a step has failed. Whatever the parent, the rectangle is
/// the whole plane where it does.
pub proof fn law_culling_failure_is_told(
    info: SurfaceInfo,
    parent_node: SpatialNodeIndex,
    parent_rect: RasterRect,
    on_screen: spec_fn(RasterRect) -> Projection,
    in_raster: spec_fn(DeviceRect) -> Projection,
    expanded: spec_fn(RasterRect) -> Option<RasterRect>,
)
    ensures
        ({
            let after = culling_outcome(
                info,
                parent_node,
                parent_rect,
                on_screen,
                in_raster,
                expanded,
            );
            let derived = derived_culling(
                info,
                parent_node,
                parent_rect,
                on_screen,
                in_raster,
                expanded,
            );
            &&& parent_rect != Rect::whole_plane() ==> after.culling_rect_projection_failed == (
            derived is None)
            &&& parent_rect == Rect::whole_plane() ==> after.culling_rect_projection_failed
                == info.culling_rect_projection_failed
            &&& after.culling_rect_projection_failed ==> after.culling_rect == Rect::whole_plane()
        }),
{
}

/// Nothing is culled only because it could not be mapped: where the rectangle that
/// the expansion finds covers something, so does the culling rectangle.
pub proof fn law_culling_never_empty(
    info: SurfaceInfo,
    parent_node: SpatialNodeIndex,
    parent_rect: RasterRect,
    on_screen: spec_fn(RasterRect) -> Projection,
    in_raster: spec_fn(DeviceRect) -> Projection,
    expanded: spec_fn(RasterRect) -> Option<RasterRect>,
)
    requires
        forall|rect: RasterRect|
            (#[trigger] expanded(rect)) matches Some(found) ==> !found.empty(),
    ensures
        !culling_outcome(
            info,
            parent_node,
            parent_rect,
            on_screen,
            in_raster,
            expanded,
        ).culling_rect.empty(),
{
    assert(!Rect::whole_plane().empty());
}

/// The action that is left, once every mapping that is asked for has been done.
/// `in_root` is what a rectangle is in the space of the root.
pub open spec fn mapping_run(
    info: SurfaceInfo,
    event: MappingEvent,
    in_root: spec_fn(PictureRect) -> RasterRect,
    steps: nat,
) -> MappingAction
    decreases steps,
{
    let action = mapping_step(info, event);
    match action {
        MappingAction::MapToRoot(rect) if steps > 0 => mapping_run(
            info,
            MappingEvent::InRoot(in_root(rect)),
            in_root,
            (steps - 1) as nat,
        ),
        _ => action,
    }
}

/// Mapping a rectangle to the device takes at most two events. It ends with the
/// rectangle to multiply: the given one where the surface is rasterized in its own
/// space, and what that is in the space of the root otherwise. There the ratio of
/// device pixels is one, so that multiplying changes nothing.
pub proof fn law_mapping_run(
    info: SurfaceInfo,
    rect: PictureRect,
    in_root: spec_fn(PictureRect) -> RasterRect,
    steps: nat,
)
    requires
        info.rasters_elsewhere() ==> info.device_pixel_scale.0 == Scalar::one_value(),
        steps >= 1,
    ensures
        mapping_run(info, MappingEvent::Local(rect), in_root, steps) == MappingAction::Scale(
            if info.rasters_elsewhere() {
                ScaledRect { rect: in_root(rect), scale: DevicePixelScale(Scalar::one_value()) }
            } else {
                ScaledRect { rect, scale: info.device_pixel_scale }
            },
        ),
{
    reveal_with_fuel(mapping_run, 3);
}

/// The action that is left, once everything that is asked for has been done.
/// `in_root` is what a rectangle is in the space of the root, and `round_out` the
/// least whole pixels that hold a multiplied one.
pub open spec fn allocation_run(
    info: SurfaceInfo,
    event: AllocationEvent,
    in_root: spec_fn(PictureRect) -> RasterRect,
    round_out: spec_fn(ScaledRect) -> DeviceIntRect,
    steps: nat,
) -> AllocationAction
    decreases steps,
{
    let action = allocation_step(info, event);
    if steps == 0 {
        action
    } else {
        let next = |event: AllocationEvent|
            allocation_run(info, event, in_root, round_out, (steps - 1) as nat);
        match action {
            AllocationAction::MapToRoot(rect) => next(AllocationEvent::InRoot(in_root(rect))),
            AllocationAction::RoundOut(rect) => next(AllocationEvent::Pixels(round_out(rect))),
            AllocationAction::Done(_) => action,
        }
    }
}

/// The whole pixels that a child surface is allocated in: those that hold the part
/// of the rectangle within the surface, once it is mapped and multiplied. There
/// are none where there is no such part, or it covers no pixel.
pub open spec fn allocation_outcome(
    info: SurfaceInfo,
    rect: PictureRect,
    in_root: spec_fn(PictureRect) -> RasterRect,
    round_out: spec_fn(ScaledRect) -> DeviceIntRect,
) -> Option<DeviceIntRect> {
    match rect.common(info.clipping_rect) {
        None => None,
        Some(part) => {
            let raster = if info.rasters_elsewhere() {
                in_root(part)
            } else {
                part
            };
            let pixels = round_out(ScaledRect { rect: raster, scale: info.device_pixel_scale });
            if pixels.empty() {
                None
            } else {
                Some(pixels)
            }
        },
    }
}

/// Allocating a child surface takes at most three events, and ends with the whole
/// pixels of the part that is within the surface, if it covers any.
pub proof fn law_allocation_run(
    info: SurfaceInfo,
    rect: PictureRect,
    in_root: spec_fn(PictureRect) -> RasterRect,
    round_out: spec_fn(ScaledRect) -> DeviceIntRect,
    steps: nat,
)
    requires
        steps >= 2,
    ensures
        allocation_run(info, AllocationEvent::Local(rect), in_root, round_out, steps)
            == AllocationAction::Done(allocation_outcome(info, rect, in_root, round_out)),
{
    reveal_with_fuel(allocation_run, 4);
}

} // verus!
