//! When a surface can be finished, and what has to be worked out before: said of the tiles
//! and tasks one by one.

use vstd::prelude::*;

use crate::command_buffer::BuilderView;
use crate::draw_laws::law_deferred_outputs;
use crate::filter_laws::{
    is_first_mapped, is_seen, law_first_mapped_tile, law_reads_are_the_seen_tasks, picks_seen,
    reads_picked, seen_task,
};
use crate::geometry::PictureRect;
use crate::merge::first_mapped;
use crate::render_task_graph::{task, Graph, RenderTaskId, TaskKindView, TaskView};
use crate::resolve::{
    clear_in, clear_tasks, projections_cover, starts_clear, ProjectionView, Relations,
};
use crate::splice::{opened, read_tasks, readable};
use crate::surface::{pending, pop_ready, SurfaceBuilderView};
use crate::tile::Tiles;

verus! {

/// Whether a task draws a picture to a target that is cleared, and copies nothing first.
pub open spec fn is_cleared(view: TaskView) -> bool {
    view.kind matches TaskKindView::Picture(info) && info.clear_color is Some
        && info.resolve_op is None
}

/// Whether `picked` lists exactly the tiles that a filter reads and that start from a
/// cleared target, in their order, and `ids` the tasks that are read of them.
pub open spec fn lists_cleared(
    ids: Seq<RenderTaskId>,
    picked: Seq<int>,
    graph: Graph,
    tiles: Tiles,
    rect: PictureRect,
) -> bool {
    &&& forall|a: int, b: int|
        0 <= a < b < picked.len() ==> #[trigger] picked[a] < #[trigger] picked[b]
    &&& forall|i: int|
        #![trigger picked.contains(i)]
        picked.contains(i) <==> 0 <= i < tiles.len() && is_seen(graph, tiles[i].1, rect)
            && is_cleared(task(graph, seen_task(tiles[i].1, rect)))
    &&& reads_picked(ids, picked, tiles, rect)
}

/// Those of the tasks that start clear, as of a list of which some are picked.
proof fn lemma_cleared_picked(
    ids: Seq<RenderTaskId>,
    picked: Seq<int>,
    graph: Graph,
    tiles: Tiles,
    rect: PictureRect,
) -> (chosen: Seq<int>)
    requires
        reads_picked(ids, picked, tiles, rect),
        forall|a: int, b: int|
            0 <= a < b < picked.len() ==> #[trigger] picked[a] < #[trigger] picked[b],
    ensures
        reads_picked(clear_tasks(graph, ids), chosen, tiles, rect),
        forall|a: int, b: int|
            0 <= a < b < chosen.len() ==> #[trigger] chosen[a] < #[trigger] chosen[b],
        forall|i: int|
            #![trigger chosen.contains(i)]
            chosen.contains(i) <==> picked.contains(i) && is_cleared(
                task(graph, seen_task(tiles[i].1, rect)),
            ),
    decreases ids.len(),
{
    reveal(Seq::filter);
    let keep = clear_in(graph);
    if ids.len() == 0 {
        let chosen = Seq::<int>::empty();
        assert(clear_tasks(graph, ids).len() == 0);
        chosen
    } else {
        let n = ids.len() - 1;
        let ids0 = ids.drop_last();
        let picked0 = picked.drop_last();
        assert forall|j: int|
            #![trigger ids0[j]]
            0 <= j < ids0.len() implies ids0[j] == seen_task(tiles[picked0[j]].1, rect) by {
            assert(ids0[j] == ids[j]);
        }
        assert forall|a: int, b: int| 0 <= a < b < picked0.len() implies #[trigger] picked0[a]
            < #[trigger] picked0[b] by {
            assert(picked[a] < picked[b]);
        }
        let chosen0 = lemma_cleared_picked(ids0, picked0, graph, tiles, rect);
        let last = picked[n];
        let adds = is_cleared(task(graph, seen_task(tiles[last].1, rect)));
        assert(ids[n] == seen_task(tiles[last].1, rect));
        assert(adds == starts_clear(graph, ids[n]));
        let chosen = if adds {
            chosen0.push(last)
        } else {
            chosen0
        };
        let kept0 = clear_tasks(graph, ids0);
        let kept = clear_tasks(graph, ids);
        assert(kept == if adds {
            kept0.push(ids[n])
        } else {
            kept0
        });
        assert forall|j: int| 0 <= j < chosen0.len() implies #[trigger] chosen0[j] < last by {
            assert(chosen0.contains(chosen0[j]));
            let k = choose|k: int| 0 <= k < picked0.len() && picked0[k] == chosen0[j];
            assert(picked[k] < picked[n]);
        }
        assert forall|i: int|
            #![trigger chosen.contains(i)]
            chosen.contains(i) <==> picked.contains(i) && is_cleared(
                task(graph, seen_task(tiles[i].1, rect)),
            ) by {
            if picked0.contains(i) {
                let k = choose|k: int| 0 <= k < picked0.len() && picked0[k] == i;
                assert(picked[k] == i);
            }
            if picked.contains(i) && i != last {
                let k = choose|k: int| 0 <= k < picked.len() && picked[k] == i;
                assert(picked0[k] == i);
            }
            if chosen0.contains(i) {
                let k = choose|k: int| 0 <= k < chosen0.len() && chosen0[k] == i;
                assert(chosen[k] == i);
            }
            if chosen.contains(i) && !chosen0.contains(i) {
                let k = choose|k: int| 0 <= k < chosen.len() && chosen[k] == i;
                if k < chosen0.len() {
                    assert(chosen0[k] == i);
                }
            }
            if adds {
                assert(chosen[chosen0.len() as int] == last);
            } else if chosen0.contains(last) {
                let k = choose|k: int| 0 <= k < chosen0.len() && chosen0[k] == last;
            }
            assert(picked[n] == last);
            assert(picked.contains(last));
        }
        assert forall|j: int|
            #![trigger kept[j]]
            0 <= j < kept.len() implies kept[j] == seen_task(tiles[chosen[j]].1, rect) by {
            if j < kept0.len() {
                assert(kept[j] == kept0[j]);
            }
        }
        chosen
    }
}

/// Before a filter on top of tiles is finished, it has to be known where those of the tasks
/// lie that it reads and that start from a cleared target: these are asked for, tile by
/// tile, with the slice and the mapping of the first tile whose mapping to the device is
/// known. Nothing is asked for where there is no such tile, or where the current surface is
/// no such filter.
pub proof fn law_what_is_pending(stack: Seq<BuilderView>, graph: Graph, m: int)
    requires
        stack.len() >= 2 && stack[stack.len() - 2].kind is Tiled ==> forall|i: int|
            0 <= i < stack[stack.len() - 2].kind->tiles.len() ==> (
            #[trigger] stack[stack.len() - 2].kind->tiles[i]).1.wf(graph),
    ensures
        ({
            let top = stack[stack.len() - 1];
            let parent = stack[stack.len() - 2];
            let filters = stack.len() >= 2 && top.establishes_sub_graph
                && top.resolve_source is Some && parent.kind is Tiled;
            let tiles = parent.kind->tiles;
            let rect = (top.resolve_source->0).1;
            let unmapped = forall|j: int|
                0 <= j < tiles.len() ==> (#[trigger] tiles[j]).1.pic_to_device is None;
            &&& !filters || unmapped ==> pending(stack, graph) is None
            &&& filters && is_first_mapped(tiles, m) ==> {
                &&& pending(stack, graph) is Some
                &&& (pending(stack, graph)->0).0 == tiles[m].1.slice_index
                &&& (pending(stack, graph)->0).1 == tiles[m].1.pic_to_device->0
                &&& exists|picked: Seq<int>| #[trigger]
                    lists_cleared((pending(stack, graph)->0).2, picked, graph, tiles, rect)
            }
        }),
{
    let top = stack[stack.len() - 1];
    let parent = stack[stack.len() - 2];
    let tiles = parent.kind->tiles;
    let rect = (top.resolve_source->0).1;
    assert(stack.len() > 0 ==> stack.last() == top);
    let filters = stack.len() >= 2 && top.establishes_sub_graph && top.resolve_source is Some
        && parent.kind is Tiled;
    if filters {
        law_first_mapped_tile(tiles, m);
        law_reads_are_the_seen_tasks(graph, tiles, rect);
        let reads = read_tasks(graph, tiles, rect);
        let seen = choose|picked: Seq<int>| #[trigger]
            picks_seen(picked, graph, tiles, rect) && reads_picked(reads, picked, tiles, rect);
        let picked = lemma_cleared_picked(reads, seen, graph, tiles, rect);
        assert(lists_cleared(clear_tasks(graph, reads), picked, graph, tiles, rect));
        assert(parent.kind.tiles() == tiles);
        if is_first_mapped(tiles, m) {
            assert(pending(stack, graph) == Some(
                (
                    tiles[m].1.slice_index,
                    tiles[m].1.pic_to_device->0,
                    clear_tasks(graph, reads),
                ),
            ));
            assert(lists_cleared((pending(stack, graph)->0).2, picked, graph, tiles, rect));
        }
    }
}

/// Whether it is known how the raster spaces of two tasks relate: they are the same, or
/// the relation of the two nodes is known.
pub open spec fn knows_rasters(
    graph: Graph,
    relations: Relations,
    dest: RenderTaskId,
    src: RenderTaskId,
) -> bool {
    let from = task(graph, dest).kind->Picture_0.raster_spatial_node_index;
    let to = task(graph, src).kind->Picture_0.raster_spatial_node_index;
    from == to || relations.dom().contains((from, to))
}

/// Whether a filter can be finished on top of tiles. Each tile that is drawn where the
/// filter reads has a place that a tile can have. No tile that is read draws to the resolve
/// target. It is known how the target relates to the first tile that is read and, where the
/// mapping of some tile to the device is known, where each task lies that is read and starts
/// from a cleared target.
pub open spec fn filters_tiles(
    graph: Graph,
    tiles: Tiles,
    target: RenderTaskId,
    rect: PictureRect,
    relations: Relations,
    projections: Map<RenderTaskId, ProjectionView>,
) -> bool {
    let mapped = exists|j: int|
        0 <= j < tiles.len() && (#[trigger] tiles[j]).1.pic_to_device is Some;
    &&& graph.len() + tiles.len() <= usize::MAX
    &&& forall|i: int|
        0 <= i < tiles.len() && (#[trigger] tiles[i]).1.dirty_rect.overlaps(rect) ==> {
            let place = task(graph, seen_task(tiles[i].1, rect)).location;
            place is Unallocated || place is Existing || place is Static
        }
    &&& forall|i: int|
        0 <= i < tiles.len() && is_seen(graph, (#[trigger] tiles[i]).1, rect) ==> {
            let read = seen_task(tiles[i].1, rect);
            &&& read != target
            &&& mapped && is_cleared(task(graph, read)) ==> projections.dom().contains(read)
            &&& (forall|j: int| 0 <= j < i ==> !is_seen(graph, (#[trigger] tiles[j]).1, rect))
                ==> knows_rasters(graph, relations, target, read)
        }
}

/// The current surface can be finished for sure exactly if there is one, what is known of
/// where tasks lie speaks of every source, and there is a surface below that it can be
/// handed to where it needs one. A filter besides needs a surface below that is drawn at
/// all. Where it reads that, nothing may be copied to its resolve target yet, and what it
/// reads has to be known well enough.
pub proof fn law_when_a_surface_is_ready(
    surfaces: SurfaceBuilderView,
    graph: Graph,
    relations: Relations,
    projections: Map<RenderTaskId, ProjectionView>,
)
    requires
        surfaces.wf(graph),
    ensures
        ({
            let stack = surfaces.stack;
            let top = stack[stack.len() - 1];
            let parent = stack[stack.len() - 2];
            let (target, rect) = top.resolve_source->0;
            pop_ready(surfaces, graph, relations, projections) <==> {
                &&& stack.len() > 0
                &&& forall|id: RenderTaskId|
                    projections.dom().contains(id) ==> (
                    #[trigger] projections[id]).sources.len() == surfaces.sources.len()
                &&& top.kind is Simple ==> stack.len() >= 2
                &&& top.establishes_sub_graph ==> parent.kind is Tiled || parent.kind is Simple
                &&& top.establishes_sub_graph && top.resolve_source is Some ==> {
                    &&& task(graph, target).kind->Picture_0.resolve_op is None
                    &&& parent.kind is Tiled ==> filters_tiles(
                        graph,
                        parent.kind->tiles,
                        target,
                        rect,
                        relations,
                        projections,
                    )
                    &&& parent.kind is Simple ==> knows_rasters(
                        graph,
                        relations,
                        target,
                        parent.kind->Simple_render_task_id,
                    )
                }
            }
        }),
{
    let stack = surfaces.stack;
    if stack.len() > 0 {
        let top = stack[stack.len() - 1];
        let parent = stack[stack.len() - 2];
        assert(top.wf(graph));
        if top.establishes_sub_graph && top.kind is Simple && stack.len() >= 2
            && top.resolve_source is Some && parent.kind is Tiled {
            assert(parent.wf(graph));
            let (target, rect) = top.resolve_source->0;
            let tiles = parent.kind->tiles;
            law_reads_are_the_seen_tasks(graph, tiles, rect);
            let reads = read_tasks(graph, tiles, rect);
            let picked = choose|picked: Seq<int>| #[trigger]
                picks_seen(picked, graph, tiles, rect) && reads_picked(reads, picked, tiles, rect);
            lemma_readable(graph, tiles, rect);
            lemma_any_mapped(tiles);
            assert(reads.contains(target) <==> exists|i: int|
                0 <= i < tiles.len() && is_seen(graph, (#[trigger] tiles[i]).1, rect) && seen_task(
                    tiles[i].1,
                    rect,
                ) == target) by {
                if reads.contains(target) {
                    let j = choose|j: int| 0 <= j < reads.len() && reads[j] == target;
                    assert(picked.contains(picked[j]));
                    assert(is_seen(graph, tiles[picked[j]].1, rect));
                }
                if exists|i: int|
                    0 <= i < tiles.len() && is_seen(graph, (#[trigger] tiles[i]).1, rect)
                        && seen_task(tiles[i].1, rect) == target {
                    let i = choose|i: int|
                        0 <= i < tiles.len() && is_seen(graph, (#[trigger] tiles[i]).1, rect)
                            && seen_task(tiles[i].1, rect) == target;
                    assert(picked.contains(i));
                    let j = choose|j: int| 0 <= j < picked.len() && picked[j] == i;
                    assert(reads[j] == target);
                }
            }
            lemma_covered(graph, tiles, rect, projections, reads, picked);
            if reads.len() > 0 {
                let first = picked[0];
                assert(picked.contains(first));
                assert(reads[0] == seen_task(tiles[first].1, rect));
                assert forall|j: int| 0 <= j < first implies !is_seen(
                    graph,
                    (#[trigger] tiles[j]).1,
                    rect,
                ) by {
                    if is_seen(graph, tiles[j].1, rect) {
                        assert(picked.contains(j));
                        let k = choose|k: int| 0 <= k < picked.len() && picked[k] == j;
                        if k > 0 {
                            assert(picked[0] < picked[k]);
                        }
                    }
                }
                assert forall|i: int|
                    0 <= i < tiles.len() && is_seen(graph, (#[trigger] tiles[i]).1, rect) && (
                    forall|j: int| 0 <= j < i ==> !is_seen(graph, (#[trigger] tiles[j]).1, rect))
                    implies i == first by {
                    assert(is_seen(graph, tiles[first].1, rect));
                    if i < first {
                        assert(!is_seen(graph, tiles[i].1, rect));
                    }
                }
                assert(is_seen(graph, tiles[first].1, rect));
            } else {
                assert forall|i: int| 0 <= i < tiles.len() implies !is_seen(
                    graph,
                    (#[trigger] tiles[i]).1,
                    rect,
                ) by {
                    if is_seen(graph, tiles[i].1, rect) {
                        assert(picked.contains(i));
                    }
                }
            }
        }
    }
}

/// The two ways to say that tiles can be read agree.
proof fn lemma_readable(graph: Graph, tiles: Tiles, rect: PictureRect)
    requires
        forall|i: int| 0 <= i < tiles.len() ==> (#[trigger] tiles[i]).1.wf(graph),
    ensures
        readable(graph, tiles, rect) <==> forall|i: int|
            0 <= i < tiles.len() && (#[trigger] tiles[i]).1.dirty_rect.overlaps(rect) ==> {
                let place = task(graph, seen_task(tiles[i].1, rect)).location;
                place is Unallocated || place is Existing || place is Static
            },
{
    assert forall|i: int| 0 <= i < tiles.len() implies opened(
        (#[trigger] tiles[i]).1,
        rect,
    ).current_task_id == seen_task(tiles[i].1, rect) by {
        law_deferred_outputs(tiles[i].1, rect, rect);
    }
}

/// There is a first tile whose mapping to the device is known where there is any.
proof fn lemma_any_mapped(tiles: Tiles)
    ensures
        first_mapped(tiles) is Some <==> exists|j: int|
            0 <= j < tiles.len() && (#[trigger] tiles[j]).1.pic_to_device is Some,
    decreases tiles.len(),
{
    if tiles.len() > 0 {
        let shorter = tiles.drop_last();
        lemma_any_mapped(shorter);
        assert(tiles[tiles.len() - 1] == tiles.last());
        if exists|j: int| 0 <= j < tiles.len() && (#[trigger] tiles[j]).1.pic_to_device is Some {
            let j = choose|j: int|
                0 <= j < tiles.len() && (#[trigger] tiles[j]).1.pic_to_device is Some;
            if j < shorter.len() {
                assert(shorter[j] == tiles[j]);
            }
        }
        if first_mapped(shorter) is Some {
            let j = choose|j: int|
                0 <= j < shorter.len() && (#[trigger] shorter[j]).1.pic_to_device is Some;
            assert(tiles[j].1.pic_to_device is Some);
        }
    }
}

/// It is known where every cleared task lies that is read exactly if it is of each tile.
proof fn lemma_covered(
    graph: Graph,
    tiles: Tiles,
    rect: PictureRect,
    projections: Map<RenderTaskId, ProjectionView>,
    reads: Seq<RenderTaskId>,
    picked: Seq<int>,
)
    requires
        picks_seen(picked, graph, tiles, rect),
        reads_picked(reads, picked, tiles, rect),
    ensures
        projections_cover(graph, reads, projections) <==> forall|i: int|
            0 <= i < tiles.len() && is_seen(graph, (#[trigger] tiles[i]).1, rect) && is_cleared(
                task(graph, seen_task(tiles[i].1, rect)),
            ) ==> projections.dom().contains(seen_task(tiles[i].1, rect)),
{
    if projections_cover(graph, reads, projections) {
        assert forall|i: int|
            0 <= i < tiles.len() && is_seen(graph, (#[trigger] tiles[i]).1, rect) && is_cleared(
                task(graph, seen_task(tiles[i].1, rect)),
            ) implies projections.dom().contains(seen_task(tiles[i].1, rect)) by {
            assert(picked.contains(i));
            let j = choose|j: int| 0 <= j < picked.len() && picked[j] == i;
            assert(starts_clear(graph, reads[j]));
        }
    }
    if forall|i: int|
        0 <= i < tiles.len() && is_seen(graph, (#[trigger] tiles[i]).1, rect) && is_cleared(
            task(graph, seen_task(tiles[i].1, rect)),
        ) ==> projections.dom().contains(seen_task(tiles[i].1, rect)) {
        assert forall|k: int|
            0 <= k < reads.len() && starts_clear(
                graph,
                #[trigger] reads[k],
            ) implies projections.dom().contains(reads[k]) by {
            assert(picked.contains(picked[k]));
            assert(is_seen(graph, tiles[picked[k]].1, rect));
        }
    }
}

} // verus!
