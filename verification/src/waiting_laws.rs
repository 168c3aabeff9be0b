//! Which of the tasks that a sub-graph reads wait for its output.

use vstd::prelude::*;

use crate::backdrop::{source_producers, sources_by_slice, BackdropSource, SourceProjection};
use crate::command_buffer::{tiles_wf, CommandBufferIndex};
use crate::deferral::lemma_read_of_tile;
use crate::dependency_laws::{lemma_edges_from_needs, tiles_apart};
use crate::geometry::DeviceRect;
use crate::growth::lemma_tile_kept;
use crate::merge::{first_mapped, merged_tiles, readied, Surroundings};
use crate::merge_laws::{
    lemma_all_spliced, lemma_initialized_kept, lemma_initialized_others,
    lemma_resolve_kept, needs,
};
use crate::render_task_graph::{
    graph_wf, has_task, is_picture, task, with_edge, with_edges_from, Graph, RenderTaskId,
};
use crate::resolve::{
    dest_to_src_raster, initialized, lemma_order_in_range, starts_clear, with_resolve,
    ProjectionView,
};
use crate::splice::{
    opened, other_than, read_tasks, reads_tile, splice_all, spliced_graph,
    without_child, SubGraph,
};
use crate::tile::{TileView, Tiles};

verus! {

/// Whether a sub-graph reads its own output, and its resolve target not after that, as
/// if they drew tiles.
pub open spec fn reads_output_last(reads: Seq<RenderTaskId>, sub: SubGraph) -> bool {
    exists|k: int|
        #![trigger reads[k]]
        0 <= k < reads.len() && reads[k] == sub.output && forall|j: int|
            k < j < reads.len() ==> #[trigger] reads[j] != sub.resolve_task
}

/// Whether a task takes over where a sub-graph has read a tile.
pub open spec fn takes_over(
    graph: Graph,
    tiles: Tiles,
    sub: SubGraph,
    id: RenderTaskId,
) -> bool {
    exists|a: int|
        0 <= a < tiles.len() && reads_tile(graph, (#[trigger] tiles[a]).1, sub.resolve_rect)
            && opened(tiles[a].1, sub.resolve_rect).deferred_task_id == Some(id)
}

/// The tasks that draw what the slices behind show to a task.
pub open spec fn producers_behind(
    slice_index: usize,
    sources: Seq<BackdropSource>,
    projections: Map<RenderTaskId, ProjectionView>,
    id: RenderTaskId,
) -> Seq<RenderTaskId> {
    source_producers(
        sources,
        sources_by_slice(sources),
        slice_index,
        projections[id].wanted_device_rect,
        projections[id].sources,
    )
}

/// Whether a task starts from what slices behind show, and the output of the sub-graph
/// draws one of them.
pub open spec fn starts_from_output(
    graph: Graph,
    tiles: Tiles,
    sub: SubGraph,
    around: Surroundings,
    id: RenderTaskId,
) -> bool {
    &&& first_mapped(tiles) is Some
    &&& starts_clear(graph, id)
    &&& producers_behind(
        first_mapped(tiles)->0.slice_index,
        around.sources,
        around.projections,
        id,
    ).contains(sub.output)
}

/// Which tasks need the output of a sub-graph after it has been spliced into one tile.
proof fn lemma_one_output(
    graph: Graph,
    tile: TileView,
    sub: SubGraph,
    commands: CommandBufferIndex,
    id: RenderTaskId,
)
    requires
        tile.wf(graph),
        is_picture(graph, sub.resolve_task),
        has_task(graph, id),
        reads_tile(graph, tile, sub.resolve_rect),
    ensures
        ({
            let read = opened(tile, sub.resolve_rect).current_task_id;
            needs(spliced_graph(graph, tile, sub, commands), id, sub.output) <==> (id != read
                && needs(graph, id, sub.output)) || (id == sub.resolve_task && read == sub.output)
        }),
{
    let read = opened(tile, sub.resolve_rect).current_task_id;
    let keep = other_than(sub.output);
    let children = task(graph, read).children;
    let kept = children.filter(keep);
    let pruned = without_child(graph, read, sub.output);
    let ordered = with_edge(pruned, sub.resolve_task, read);
    let after = spliced_graph(graph, tile, sub, commands);
    if kept.contains(sub.output) {
        let k = choose|k: int| 0 <= k < kept.len() && kept[k] == sub.output;
        children.lemma_filter_pred(keep, k);
    }
    if id != read {
        assert(id.index != read.index);
    }
    assert(needs(pruned, id, sub.output) <==> id != read && needs(graph, id, sub.output));
    assert(task(after, id) == task(ordered, id));
    let before = task(pruned, id).children;
    if id == sub.resolve_task {
        let all = before.push(read);
        assert(task(ordered, id).children == all);
        assert(all[before.len() as int] == read);
        if before.contains(sub.output) {
            let k = choose|k: int| 0 <= k < before.len() && before[k] == sub.output;
            assert(all[k] == sub.output);
        }
        if all.contains(sub.output) && read != sub.output {
            let k = choose|k: int| 0 <= k < all.len() && all[k] == sub.output;
            assert(before[k] == sub.output);
        }
    } else {
        assert(id.index != sub.resolve_task.index);
    }
}

/// Which tasks need the output of a sub-graph after it has been spliced into tiles.
proof fn lemma_all_outputs(
    graph: Graph,
    cmd_buffers: Seq<Seq<u32>>,
    tiles: Tiles,
    sub: SubGraph,
    id: RenderTaskId,
)
    requires
        graph_wf(graph),
        forall|i: int| 0 <= i < tiles.len() ==> (#[trigger] tiles[i]).1.wf(graph),
        is_picture(graph, sub.resolve_task),
        has_task(graph, id),
    ensures
        ({
            let reads = read_tasks(graph, tiles, sub.resolve_rect);
            needs(splice_all(graph, cmd_buffers, tiles, sub).graph, id, sub.output) <==> (
            !reads.contains(id) && needs(graph, id, sub.output)) || (id == sub.resolve_task
                && reads_output_last(reads, sub))
        }),
    decreases tiles.len(),
{
    let rect = sub.resolve_rect;
    let reads = read_tasks(graph, tiles, rect);
    if tiles.len() > 0 {
        let shorter = tiles.drop_last();
        let reads0 = read_tasks(graph, shorter, rect);
        let s0 = splice_all(graph, cmd_buffers, shorter, sub);
        let tile = tiles[tiles.len() - 1].1;
        let commands = CommandBufferIndex(s0.cmd_buffers.len() as usize);
        assert forall|i: int| 0 <= i < shorter.len() implies (#[trigger] shorter[i]).1.wf(
            graph,
        ) by {
            assert(shorter[i] == tiles[i]);
        }
        assert(tile.wf(graph));
        lemma_all_outputs(graph, cmd_buffers, shorter, sub, id);
        lemma_all_spliced(graph, cmd_buffers, shorter, sub);
        lemma_tile_kept(tile, graph, s0.graph);
        let read = opened(tile, rect).current_task_id;
        let d = task(s0.graph, sub.resolve_task);
        let t = task(s0.graph, read);
        assert(has_task(graph, read));
        assert(reads_tile(s0.graph, tile, rect) == reads_tile(graph, tile, rect));
        if reads_tile(graph, tile, rect) {
            lemma_one_output(s0.graph, tile, sub, commands, id);
            assert(reads == reads0.push(read));
            let n = reads0.len() as int;
            assert(reads[n] == read);
            assert(reads.contains(id) <==> reads0.contains(id) || id == read) by {
                if reads0.contains(id) {
                    let k = choose|k: int| 0 <= k < reads0.len() && reads0[k] == id;
                    assert(reads[k] == id);
                }
                if reads.contains(id) && id != read {
                    let k = choose|k: int| 0 <= k < reads.len() && reads[k] == id;
                    assert(reads0[k] == id);
                }
            }
            assert(reads_output_last(reads, sub) <==> read == sub.output || (reads_output_last(
                reads0,
                sub,
            ) && read != sub.resolve_task)) by {
                if reads_output_last(reads, sub) && read != sub.output {
                    let k = choose|k: int|
                        #![trigger reads[k]]
                        0 <= k < reads.len() && reads[k] == sub.output && forall|j: int|
                            k < j < reads.len() ==> #[trigger] reads[j] != sub.resolve_task;
                    assert(k < n);
                    assert(reads0[k] == sub.output);
                    assert forall|j: int| k < j < reads0.len() implies #[trigger] reads0[j]
                        != sub.resolve_task by {
                        assert(reads[j] == reads0[j]);
                    }
                    assert(reads[n] != sub.resolve_task);
                }
                if reads_output_last(reads0, sub) && read != sub.resolve_task {
                    let k = choose|k: int|
                        #![trigger reads0[k]]
                        0 <= k < reads0.len() && reads0[k] == sub.output && forall|j: int|
                            k < j < reads0.len() ==> #[trigger] reads0[j] != sub.resolve_task;
                    assert(reads[k] == sub.output);
                    assert forall|j: int| k < j < reads.len() implies #[trigger] reads[j]
                        != sub.resolve_task by {
                        if j < n {
                            assert(reads[j] == reads0[j]);
                        }
                    }
                }
            }
        }
    }
}

/// The tasks that draw the output of a sub-graph each take over for a tile.
pub proof fn lemma_affected_of_tile(
    graph: Graph,
    cmd_buffers: Seq<Seq<u32>>,
    tiles: Tiles,
    sub: SubGraph,
    id: RenderTaskId,
)
    requires
        graph_wf(graph),
        forall|i: int| 0 <= i < tiles.len() ==> (#[trigger] tiles[i]).1.wf(graph),
        is_picture(graph, sub.resolve_task),
        splice_all(graph, cmd_buffers, tiles, sub).affected.contains(id),
    ensures
        ({
            let s = splice_all(graph, cmd_buffers, tiles, sub);
            exists|i: int|
                #![trigger s.tiles[i]]
                0 <= i < tiles.len() && reads_tile(graph, tiles[i].1, sub.resolve_rect)
                    && s.tiles[i].1.deferred_task_id == Some(id)
        }),
    decreases tiles.len(),
{
    if tiles.len() > 0 {
        let shorter = tiles.drop_last();
        let n = shorter.len() as int;
        let rect = sub.resolve_rect;
        let s0 = splice_all(graph, cmd_buffers, shorter, sub);
        let s = splice_all(graph, cmd_buffers, tiles, sub);
        let tile = tiles[n].1;
        assert forall|i: int| 0 <= i < shorter.len() implies (#[trigger] shorter[i]).1.wf(
            graph,
        ) by {
            assert(shorter[i] == tiles[i]);
        }
        assert(tile.wf(graph));
        lemma_all_spliced(graph, cmd_buffers, shorter, sub);
        lemma_all_spliced(graph, cmd_buffers, tiles, sub);
        let read = opened(tile, rect).current_task_id;
        let t = task(s0.graph, read);
        assert(has_task(graph, read));
        assert(reads_tile(s0.graph, tile, rect) == reads_tile(graph, tile, rect));
        let k = choose|k: int| 0 <= k < s.affected.len() && s.affected[k] == id;
        if k < s0.affected.len() {
            assert(s0.affected[k] == id);
            lemma_affected_of_tile(graph, cmd_buffers, shorter, sub, id);
            let i = choose|i: int|
                #![trigger s0.tiles[i]]
                0 <= i < shorter.len() && reads_tile(graph, shorter[i].1, rect)
                    && s0.tiles[i].1.deferred_task_id == Some(id);
            assert(shorter[i] == tiles[i]);
            assert(s.tiles[i] == s0.tiles[i]);
        } else {
            assert(s.tiles[n].1.deferred_task_id is Some);
        }
    }
}

/// What a task needs after tasks have been made to start from what the slices behind
/// them show.
pub proof fn lemma_initialized_needs(
    graph: Graph,
    ids: Seq<RenderTaskId>,
    slice_index: usize,
    sources: Seq<BackdropSource>,
    projections: Map<RenderTaskId, ProjectionView>,
    id: RenderTaskId,
    child: RenderTaskId,
)
    requires
        forall|k: int| 0 <= k < ids.len() ==> has_task(graph, #[trigger] ids[k]),
        has_task(graph, id),
    ensures
        needs(initialized(graph, ids, slice_index, sources, projections), id, child) <==> needs(
            graph,
            id,
            child,
        ) || (ids.contains(id) && starts_clear(graph, id) && producers_behind(
            slice_index,
            sources,
            projections,
            id,
        ).contains(child)),
    decreases ids.len(),
{
    if ids.len() > 0 {
        let shorter = ids.drop_last();
        let last = ids[ids.len() - 1];
        let before = initialized(graph, shorter, slice_index, sources, projections);
        assert forall|k: int| 0 <= k < shorter.len() implies has_task(
            graph,
            #[trigger] shorter[k],
        ) by {
            assert(shorter[k] == ids[k]);
        }
        lemma_initialized_needs(graph, shorter, slice_index, sources, projections, id, child);
        lemma_initialized_kept(graph, shorter, slice_index, sources, projections);
        assert(ids.contains(id) <==> shorter.contains(id) || id == last) by {
            if shorter.contains(id) {
                let k = choose|k: int| 0 <= k < shorter.len() && shorter[k] == id;
                assert(ids[k] == id);
            }
            if ids.contains(id) && id != last {
                let k = choose|k: int| 0 <= k < ids.len() && ids[k] == id;
                assert(shorter[k] == id);
            }
        }
        if id != last {
            assert(id.index != last.index);
        } else if !shorter.contains(id) {
            lemma_initialized_others(graph, shorter, slice_index, sources, projections, id);
            if starts_clear(graph, id) {
                let old_children = task(graph, id).children;
                let producers = producers_behind(slice_index, sources, projections, id);
                let all = old_children + producers;
                let after = initialized(graph, ids, slice_index, sources, projections);
                assert(task(after, id).children == all);
                if old_children.contains(child) {
                    let k = choose|k: int| 0 <= k < old_children.len() && old_children[k] == child;
                    assert(all[k] == child);
                }
                if producers.contains(child) {
                    let k = choose|k: int| 0 <= k < producers.len() && producers[k] == child;
                    assert(all[old_children.len() + k] == child);
                }
                if all.contains(child) {
                    let k = choose|k: int| 0 <= k < all.len() && all[k] == child;
                    if k < old_children.len() {
                        assert(old_children[k] == child);
                    } else {
                        assert(producers[k - old_children.len()] == child);
                    }
                }
            }
        }
    }
}

/// When a task that a sub-graph reads of tiles waits for the output of the sub-graph
/// after the merge. Splicing takes that away, since the two would wait for each other.
/// It comes back only where the task is the resolve target and the output is read as
/// well, where the task takes over for another tile, or where it starts from what the
/// output draws to a slice behind.
pub proof fn law_read_task_waits(
    graph: Graph,
    cmd_buffers: Seq<Seq<u32>>,
    tiles: Tiles,
    sub: SubGraph,
    around: Surroundings,
    id: RenderTaskId,
)
    requires
        graph_wf(graph),
        tiles_wf(tiles, graph),
        is_picture(graph, sub.resolve_task),
        graph.len() + tiles.len() <= usize::MAX,
        read_tasks(graph, tiles, sub.resolve_rect).contains(id),
    ensures
        needs(merged_tiles(graph, cmd_buffers, tiles, sub, around).graph, id, sub.output) <==> {
            ||| id == sub.resolve_task && reads_output_last(
                read_tasks(graph, tiles, sub.resolve_rect),
                sub,
            )
            ||| takes_over(graph, tiles, sub, id)
            ||| starts_from_output(graph, tiles, sub, around, id)
        },
{
    let s = splice_all(graph, cmd_buffers, tiles, sub);
    let m = merged_tiles(graph, cmd_buffers, tiles, sub, around);
    let ready = readied(s.graph, tiles, s.sources, around);
    let rect = sub.resolve_rect;
    lemma_all_spliced(graph, cmd_buffers, tiles, sub);
    let k = choose|k: int| 0 <= k < s.sources.len() && s.sources[k] == id;
    assert(has_task(graph, s.sources[k]));
    lemma_all_outputs(graph, cmd_buffers, tiles, sub, id);
    assert forall|k: int| 0 <= k < s.sources.len() implies has_task(
        s.graph,
        #[trigger] s.sources[k],
    ) by {
        assert(has_task(graph, s.sources[k]));
    }
    let t = task(s.graph, id);
    assert(starts_clear(s.graph, id) == starts_clear(graph, id));
    if let Some(tile) = first_mapped(tiles) {
        lemma_initialized_needs(
            s.graph,
            s.sources,
            tile.slice_index,
            around.sources,
            around.projections,
            id,
            sub.output,
        );
        lemma_initialized_kept(
            s.graph,
            s.sources,
            tile.slice_index,
            around.sources,
            around.projections,
        );
    }
    let d = task(s.graph, sub.resolve_task);
    let e = task(ready, sub.resolve_task);
    let raster = dest_to_src_raster(s.graph, around.relations, sub.resolve_task, s.sources);
    let resolved = with_resolve(ready, sub.resolve_task, s.sources, Seq::empty(), raster);
    lemma_resolve_kept(ready, sub.resolve_task, s.sources, Seq::empty(), raster);
    assert(task(resolved, id).children == task(ready, id).children);
    assert(m.graph == with_edges_from(resolved, s.affected, sub.output));
    lemma_edges_from_needs(resolved, s.affected, sub.output, id, sub.output);
    assert(needs(resolved, id, sub.output) == needs(ready, id, sub.output));
    assert(s.affected.contains(id) <==> takes_over(graph, tiles, sub, id)) by {
        if takes_over(graph, tiles, sub, id) {
            let a = choose|a: int|
                0 <= a < tiles.len() && reads_tile(graph, (#[trigger] tiles[a]).1, rect) && opened(
                    tiles[a].1,
                    rect,
                ).deferred_task_id == Some(id);
            assert(s.tiles[a].1.deferred_task_id == Some(id));
        }
        if s.affected.contains(id) {
            lemma_affected_of_tile(graph, cmd_buffers, tiles, sub, id);
            let a = choose|a: int|
                #![trigger s.tiles[a]]
                0 <= a < tiles.len() && reads_tile(graph, tiles[a].1, rect)
                    && s.tiles[a].1.deferred_task_id == Some(id);
            assert(opened(tiles[a].1, rect).deferred_task_id == Some(id));
        }
    }
}

/// The tasks that show something to a task are those of the sources.
pub proof fn lemma_producers_of_sources(
    sources: Seq<BackdropSource>,
    order: Seq<int>,
    slice_index: usize,
    area: DeviceRect,
    parts: Seq<SourceProjection>,
    id: RenderTaskId,
)
    requires
        forall|k: int| 0 <= k < order.len() ==> 0 <= #[trigger] order[k] < sources.len(),
        source_producers(sources, order, slice_index, area, parts).contains(id),
    ensures
        exists|k: int|
            0 <= k < sources.len() && (#[trigger] sources[k]).producer_task_id == Some(id),
    decreases order.len(),
{
    if order.len() > 0 {
        let shorter = order.drop_last();
        let earlier = source_producers(sources, shorter, slice_index, area, parts);
        let all = source_producers(sources, order, slice_index, area, parts);
        let k = choose|k: int| 0 <= k < all.len() && all[k] == id;
        let last = order[order.len() - 1];
        if k < earlier.len() {
            assert(earlier[k] == id);
            assert forall|k: int| 0 <= k < shorter.len() implies 0 <= #[trigger] shorter[k]
                < sources.len() by {
                assert(shorter[k] == order[k]);
            }
            lemma_producers_of_sources(sources, shorter, slice_index, area, parts, id);
        } else {
            assert(sources[last].producer_task_id == Some(id));
        }
    }
}

/// No task that a sub-graph reads of tiles waits for the output of the sub-graph after
/// the merge, where every task draws one of the tiles, the resolve target is not read,
/// and the output draws no slice behind.
pub proof fn law_read_task_does_not_wait(
    graph: Graph,
    cmd_buffers: Seq<Seq<u32>>,
    tiles: Tiles,
    sub: SubGraph,
    around: Surroundings,
    id: RenderTaskId,
)
    requires
        graph_wf(graph),
        tiles_wf(tiles, graph),
        tiles_apart(tiles),
        is_picture(graph, sub.resolve_task),
        graph.len() + tiles.len() <= usize::MAX,
        !read_tasks(graph, tiles, sub.resolve_rect).contains(sub.resolve_task),
        forall|k: int|
            0 <= k < around.sources.len() ==> (#[trigger] around.sources[k]).producer_task_id
                != Some(sub.output),
        read_tasks(graph, tiles, sub.resolve_rect).contains(id),
    ensures
        !needs(merged_tiles(graph, cmd_buffers, tiles, sub, around).graph, id, sub.output),
{
    let rect = sub.resolve_rect;
    law_read_task_waits(graph, cmd_buffers, tiles, sub, around, id);
    if takes_over(graph, tiles, sub, id) {
        let a = choose|a: int|
            0 <= a < tiles.len() && reads_tile(graph, (#[trigger] tiles[a]).1, rect) && opened(
                tiles[a].1,
                rect,
            ).deferred_task_id == Some(id);
        lemma_read_of_tile(graph, tiles, rect, id);
        let b = choose|b: int|
            0 <= b < tiles.len() && reads_tile(graph, (#[trigger] tiles[b]).1, rect) && id
                == opened(tiles[b].1, rect).current_task_id;
        assert(tiles[a].1.deferred_task_id == Some(id));
        assert(tiles[a].1.deferred_task_id != Some(tiles[b].1.current_task_id));
        assert(tiles[b].1.deferred_task_id == Some(id));
        assert(a == b);
    }
    if starts_from_output(graph, tiles, sub, around, id) {
        lemma_order_in_range(around.sources);
        lemma_producers_of_sources(
            around.sources,
            sources_by_slice(around.sources),
            first_mapped(tiles)->0.slice_index,
            around.projections[id].wanted_device_rect,
            around.projections[id].sources,
            sub.output,
        );
    }
}

} // verus!
