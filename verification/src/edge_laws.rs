//! What comparing numbers and rectangles means: said of bit patterns, edges and
//! points.

use vstd::prelude::*;

use crate::geometry::{DeviceIntRect, Rect};
use crate::render_task_graph::RenderTaskLocation;
use crate::scalar::Scalar;
use crate::spatial::ScaleOffset;

verus! {

/// Numbers are ordered by their bits. A NaN, whose bits below the sign exceed those of
/// an infinity, is neither less nor greater than anything. Numbers with the sign clear
/// rank by their bits, and those with the sign set the other way round and below them;
/// the two zeros are equal.
pub proof fn law_numbers_are_ordered_by_bits(a: Scalar, b: Scalar)
    ensures
        (0x7f80_0000 < a.bits < 0x8000_0000 || 0xff80_0000 < a.bits) ==> !a.less(b) && !b.less(a)
            && !a.at_most(b) && !b.at_most(a),
        a.bits <= 0x7f80_0000 && b.bits <= 0x7f80_0000 ==> (a.less(b) <==> a.bits < b.bits),
        0x8000_0000 <= a.bits <= 0xff80_0000 && 0x8000_0000 <= b.bits <= 0xff80_0000 ==> (a.less(b)
            <==> b.bits < a.bits),
        0x8000_0000 <= a.bits <= 0xff80_0000 && b.bits <= 0x7f80_0000 ==> (a.less(b) <==> !(a.bits
            == 0x8000_0000 && b.bits == 0)),
        a.bits <= 0x7f80_0000 && 0x8000_0000 <= b.bits <= 0xff80_0000 ==> !a.less(b),
        !(0x7f80_0000 < a.bits < 0x8000_0000 || 0xff80_0000 < a.bits) && !(0x7f80_0000 < b.bits
            < 0x8000_0000 || 0xff80_0000 < b.bits) ==> (a.at_most(b) <==> !b.less(a)),
{
}

/// The lesser of two numbers is one of them and at most both; the greater is one of
/// them and at least both. Of two that are equal either is the first, and of two that do
/// not compare the second.
pub proof fn law_lesser_and_greater(a: Scalar, b: Scalar)
    ensures
        a.lesser(b) == a || a.lesser(b) == b,
        a.greater(b) == a || a.greater(b) == b,
        a.at_most(b) && b.at_most(a) ==> a.lesser(b) == a && a.greater(b) == a,
        !a.at_most(b) && !b.at_most(a) ==> a.lesser(b) == b && a.greater(b) == b,
        a.at_most(a) && b.at_most(b) ==> {
            &&& a.lesser(b).at_most(a)
            &&& a.lesser(b).at_most(b)
            &&& a.at_most(a.greater(b))
            &&& b.at_most(a.greater(b))
        },
{
}

/// A NaN is what is neither less than anything nor at most itself: its bits below the sign
/// exceed those of an infinity.
pub proof fn law_what_is_a_nan(a: Scalar)
    ensures
        a.nan() <==> 0x7f80_0000 < a.bits < 0x8000_0000 || 0xff80_0000 < a.bits,
        a.nan() <==> !a.at_most(a),
{
}

/// The bits of zero and one, and what is made of them: the rectangle without extent at
/// the origin, and the mapping that scales by one and moves by nothing.
pub proof fn law_zero_and_one()
    ensures
        Rect::zero_value().min.x.bits == 0,
        Rect::zero_value().min.y.bits == 0,
        Rect::zero_value().max.x.bits == 0,
        Rect::zero_value().max.y.bits == 0,
        ScaleOffset::identity_value().scale_x.bits == 0x3f80_0000,
        ScaleOffset::identity_value().scale_y.bits == 0x3f80_0000,
        ScaleOffset::identity_value().offset_x.bits == 0,
        ScaleOffset::identity_value().offset_y.bits == 0,
        Scalar::zero_value().bits == 0,
        Scalar::one_value().bits == 0x3f80_0000,
{
}

/// Whether the point lies in the rectangle: on its left or upper edge or inside.
pub open spec fn holds_point(rect: Rect, x: Scalar, y: Scalar) -> bool {
    &&& rect.min.x.at_most(x)
    &&& x.less(rect.max.x)
    &&& rect.min.y.at_most(y)
    &&& y.less(rect.max.y)
}

/// A rectangle covers nothing exactly if no point lies in it.
pub proof fn law_empty_rect_holds_no_point(rect: Rect)
    ensures
        rect.empty() <==> forall|x: Scalar, y: Scalar| !#[trigger] holds_point(rect, x, y),
{
    if !rect.empty() {
        assert(holds_point(rect, rect.min.x, rect.min.y));
    }
}

/// Two rectangles that cover something overlap exactly if a point lies in both.
pub proof fn law_overlap_is_a_common_point(a: Rect, b: Rect)
    requires
        !a.empty(),
        !b.empty(),
    ensures
        a.overlaps(b) <==> exists|x: Scalar, y: Scalar|
            #[trigger] holds_point(a, x, y) && holds_point(b, x, y),
{
    let x = a.min.x.greater(b.min.x);
    let y = a.min.y.greater(b.min.y);
    if a.overlaps(b) {
        assert(holds_point(a, x, y) && holds_point(b, x, y));
    }
}

/// Whether two rectangles overlap is told by their edges, on each axis: the near edge of
/// either comes before the far edge of the other.
pub proof fn law_overlap_of_edges(a: Rect, b: Rect)
    ensures
        a.overlaps(b) <==> a.min.x.less(b.max.x) && b.min.x.less(a.max.x) && a.min.y.less(b.max.y)
            && b.min.y.less(a.max.y),
        a.overlaps(b) == b.overlaps(a),
{
}

/// A rectangle covers one that covers something exactly if every point of the latter
/// lies in it. It covers every one that covers nothing.
pub proof fn law_cover_is_every_point(a: Rect, b: Rect)
    ensures
        !b.empty() ==> (a.covers(b) <==> forall|x: Scalar, y: Scalar|
            #[trigger] holds_point(b, x, y) ==> holds_point(a, x, y)),
        b.empty() ==> a.covers(b),
{
    if !b.empty() {
        if forall|x: Scalar, y: Scalar|
            #[trigger] holds_point(b, x, y) ==> holds_point(a, x, y) {
            assert(holds_point(b, b.min.x, b.min.y));
            let x = a.max.x.greater(b.min.x);
            let y = a.max.y.greater(b.min.y);
            if a.max.x.less(b.max.x) {
                assert(holds_point(b, x, b.min.y));
            }
            if a.max.y.less(b.max.y) {
                assert(holds_point(b, b.min.x, y));
            }
        }
        if a.covers(b) {
            assert forall|x: Scalar, y: Scalar| #[trigger] holds_point(
                b,
                x,
                y,
            ) implies holds_point(a, x, y) by {}
        }
    }
}

/// What two rectangles have in common holds exactly the points that lie in both. There
/// is nothing in common exactly if no point does.
pub proof fn law_common_part_is_every_common_point(a: Rect, b: Rect, x: Scalar, y: Scalar)
    requires
        a.min.x.at_most(a.min.x) && a.min.y.at_most(a.min.y),
        a.max.x.at_most(a.max.x) && a.max.y.at_most(a.max.y),
        b.min.x.at_most(b.min.x) && b.min.y.at_most(b.min.y),
        b.max.x.at_most(b.max.x) && b.max.y.at_most(b.max.y),
    ensures
        a.common(b) matches Some(part) ==> !part.empty() && (holds_point(part, x, y)
            <==> holds_point(a, x, y) && holds_point(b, x, y)),
        a.common(b) is None ==> !(holds_point(a, x, y) && holds_point(b, x, y)),
{
}

/// What two rectangles have in common lies between the greater of the near edges and the
/// lesser of the far edges, on each axis, and there is something in common exactly if that
/// covers anything.
pub proof fn law_edges_of_the_common_part(a: Rect, b: Rect)
    ensures
        a.common(b) is Some <==> a.min.x.greater(b.min.x).less(a.max.x.lesser(b.max.x))
            && a.min.y.greater(b.min.y).less(a.max.y.lesser(b.max.y)),
        a.common(b) matches Some(part) ==> {
            &&& part.min.x == a.min.x.greater(b.min.x)
            &&& part.min.y == a.min.y.greater(b.min.y)
            &&& part.max.x == a.max.x.lesser(b.max.x)
            &&& part.max.y == a.max.y.lesser(b.max.y)
        },
{
}

/// The whole plane reaches from half the least to half the greatest finite number. It covers
/// every rectangle whose edges lie within that, and overlaps every such one that covers
/// something.
pub proof fn law_whole_plane_covers(rect: Rect)
    requires
        (Scalar { bits: 0xfeff_ffff }).at_most(rect.min.x),
        (Scalar { bits: 0xfeff_ffff }).at_most(rect.min.y),
        rect.max.x.at_most(Scalar { bits: 0x7eff_ffff }),
        rect.max.y.at_most(Scalar { bits: 0x7eff_ffff }),
    ensures
        Rect::whole_plane().min.x.bits == 0xfeff_ffff,
        Rect::whole_plane().min.y.bits == 0xfeff_ffff,
        Rect::whole_plane().max.x.bits == 0x7eff_ffff,
        Rect::whole_plane().max.y.bits == 0x7eff_ffff,
        Rect::whole_plane().covers(rect),
        !rect.empty() ==> Rect::whole_plane().overlaps(rect),
        !Rect::whole_plane().empty(),
{
}

/// A rectangle in whole pixels covers a pixel exactly if it has a width and a height,
/// which are the distances between its edges.
pub proof fn law_pixels_of_a_rect(rect: DeviceIntRect)
    ensures
        rect.empty() <==> rect.max.x <= rect.min.x || rect.max.y <= rect.min.y,
        rect.sizable() ==> rect.extent().width == rect.max.x - rect.min.x && rect.extent().height
            == rect.max.y - rect.min.y,
{
}

/// A place is as large as its size says or, where it is a rectangle, as that is.
pub proof fn law_extent_of_a_place(location: RenderTaskLocation)
    ensures
        match location {
            RenderTaskLocation::Unallocated { size } => location.extent() == size,
            RenderTaskLocation::CacheRequest { size } => location.extent() == size,
            RenderTaskLocation::Existing { size, .. } => location.extent() == size,
            RenderTaskLocation::Dynamic { rect } => rect.sizable() ==> location.extent().width
                == rect.max.x - rect.min.x && location.extent().height == rect.max.y - rect.min.y,
            RenderTaskLocation::Static { rect, .. } => rect.sizable() ==> location.extent().width
                == rect.max.x - rect.min.x && location.extent().height == rect.max.y - rect.min.y,
        },
{
}

} // verus!
