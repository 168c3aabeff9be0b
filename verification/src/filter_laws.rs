//! What a backdrop filter makes of the surface that it reads: said of the tiles, tasks and
//! buffers one by one.

use vstd::prelude::*;

use crate::backdrop::sources_by_slice;
use crate::command_buffer::{tiles_wf, BuilderKindView, CommandBufferIndex};
use crate::deferral::lemma_read_of_tile;
use crate::dependency_laws::{
    followed_by, lemma_edges_from_mentions, lemma_edges_from_needs, lemma_edges_to_needs,
    lemma_followed_once_more, mentions, tiles_apart,
};
use crate::draw_laws::{law_deferred_outputs, lists_besides, one_overlaps};
use crate::finish_laws::filtered_output;
use crate::geometry::PictureRect;
use crate::merge::{first_mapped, merged_tiles, readied, sub_graph, Surroundings};
use crate::merge_laws::{
    adds_task, lemma_after_splice, lemma_all_spliced, lemma_edges_from_kept,
    lemma_initialized_kept, lemma_initialized_others, lemma_resolve_kept, needs, reads_itself,
};
use crate::render_task_graph::{
    graph_wf, has_task, is_picture, task, with_edges_to, Graph, PictureTaskView, RenderTaskId,
    RenderTaskLocation, ResolveOpView, TaskKindView, TaskView,
};
use crate::resolve::{dest_to_src_raster, lemma_order_in_range, with_resolve, Relations};
use crate::slice_laws::{
    copies_behind_first, law_cleared_tasks_start_from_behind, lies_behind, starts_from_all_behind,
};
use crate::spatial::ScaleOffset;
use crate::splice::{opened, other_than, read_tasks, reads_tile, splice_all, SubGraph};
use crate::surface::{handed_on, popped, PictureIndex, Stage};
use crate::tile::{TileView, Tiles};
use crate::waiting_laws::{
    law_read_task_does_not_wait, lemma_affected_of_tile, lemma_initialized_needs,
    lemma_producers_of_sources, producers_behind,
};

verus! {

/// Whether a filter that reads `rect` has to see the deferred outputs of a tile.
pub open spec fn sees_outputs(tile: TileView, rect: PictureRect) -> bool {
    tile.deferred_task_id is Some && one_overlaps(tile.deferred_output_rects, rect)
}

/// The task of a tile that holds what a filter which reads `rect` has to see.
pub open spec fn seen_task(tile: TileView, rect: PictureRect) -> RenderTaskId {
    if sees_outputs(tile, rect) {
        tile.deferred_task_id->0
    } else {
        tile.current_task_id
    }
}

/// Whether a filter reads the tile: the tile has to be drawn there, and not straight into
/// a surface that outlives the frame.
pub open spec fn is_seen(graph: Graph, tile: TileView, rect: PictureRect) -> bool {
    tile.dirty_rect.overlaps(rect) && !(task(graph, seen_task(tile, rect)).location is Static)
}

/// The two ways to say what a filter sees of a tile agree.
proof fn lemma_seen(graph: Graph, tile: TileView, rect: PictureRect)
    requires
        tile.deferred_task_id is None ==> tile.deferred_output_rects.len() == 0,
    ensures
        opened(tile, rect).current_task_id == seen_task(tile, rect),
        reads_tile(graph, tile, rect) == is_seen(graph, tile, rect),
        sees_outputs(tile, rect) ==> opened(tile, rect) == (TileView {
            current_task_id: tile.deferred_task_id->0,
            deferred_task_id: None,
            deferred_output_rects: Seq::empty(),
            ..tile
        }),
        !sees_outputs(tile, rect) ==> opened(tile, rect) == tile,
{
    law_deferred_outputs(tile, rect, rect);
}

/// The command buffers that splicing adds are empty, and as many as the tasks that it adds.
proof fn lemma_spliced_buffers(
    graph: Graph,
    cmd_buffers: Seq<Seq<u32>>,
    tiles: Tiles,
    sub: SubGraph,
)
    requires
        graph_wf(graph),
        forall|i: int| 0 <= i < tiles.len() ==> (#[trigger] tiles[i]).1.wf(graph),
        is_picture(graph, sub.resolve_task),
    ensures
        ({
            let s = splice_all(graph, cmd_buffers, tiles, sub);
            &&& s.cmd_buffers.len() - cmd_buffers.len() == s.graph.len() - graph.len()
            &&& forall|k: int|
                0 <= k < s.cmd_buffers.len() ==> #[trigger] s.cmd_buffers[k] == if k
                    < cmd_buffers.len() {
                    cmd_buffers[k]
                } else {
                    Seq::empty()
                }
            &&& forall|i: int|
                #![trigger s.tiles[i]]
                0 <= i < tiles.len() ==> s.tiles[i].0 == tiles[i].0 && s.tiles[i].1 == (TileView {
                    current_task_id: s.tiles[i].1.current_task_id,
                    deferred_task_id: s.tiles[i].1.deferred_task_id,
                    deferred_output_rects: s.tiles[i].1.deferred_output_rects,
                    ..tiles[i].1
                })
        }),
    decreases tiles.len(),
{
    if tiles.len() > 0 {
        let shorter = tiles.drop_last();
        assert forall|i: int| 0 <= i < shorter.len() implies (#[trigger] shorter[i]).1.wf(
            graph,
        ) by {
            assert(shorter[i] == tiles[i]);
        }
        lemma_spliced_buffers(graph, cmd_buffers, shorter, sub);
        lemma_all_spliced(graph, cmd_buffers, shorter, sub);
        let s0 = splice_all(graph, cmd_buffers, shorter, sub);
        let s = splice_all(graph, cmd_buffers, tiles, sub);
        let tile = tiles[tiles.len() - 1].1;
        assert(tile.wf(graph));
        let t = task(s0.graph, sub.resolve_task);
        assert(has_task(s0.graph, opened(tile, sub.resolve_rect).current_task_id));
        assert forall|i: int|
            #![trigger s.tiles[i]]
            0 <= i < tiles.len() implies s.tiles[i].0 == tiles[i].0 && s.tiles[i].1 == (TileView {
            current_task_id: s.tiles[i].1.current_task_id,
            deferred_task_id: s.tiles[i].1.deferred_task_id,
            deferred_output_rects: s.tiles[i].1.deferred_output_rects,
            ..tiles[i].1
        }) by {
            if i < shorter.len() {
                assert(shorter[i] == tiles[i]);
                assert(s.tiles[i] == s0.tiles[i]);
            }
        }
    }
}

/// The task that splicing adds for a tile.
#[verifier::rlimit(40)]
proof fn lemma_fresh_task(
    graph: Graph,
    cmd_buffers: Seq<Seq<u32>>,
    tiles: Tiles,
    sub: SubGraph,
    i: int,
)
    requires
        graph_wf(graph),
        forall|k: int| 0 <= k < tiles.len() ==> (#[trigger] tiles[k]).1.wf(graph),
        is_picture(graph, sub.resolve_task),
        0 <= i < tiles.len(),
        adds_task(graph, tiles[i].1, sub),
        splice_all(graph, cmd_buffers, tiles, sub).graph.len() <= usize::MAX,
        splice_all(graph, cmd_buffers, tiles, sub).cmd_buffers.len() <= usize::MAX,
    ensures
        ({
            let s = splice_all(graph, cmd_buffers, tiles, sub);
            let base = opened(tiles[i].1, sub.resolve_rect).current_task_id;
            let id = s.tiles[i].1.deferred_task_id->0;
            let buffer = CommandBufferIndex((cmd_buffers.len() + id.index - graph.len()) as usize);
            &&& s.tiles[i].1.deferred_task_id is Some
            &&& graph.len() <= id.index < s.graph.len()
            &&& task(s.graph, id) == (TaskView {
                location: RenderTaskLocation::Existing {
                    parent_task_id: base,
                    size: task(graph, base).location.extent(),
                },
                kind: TaskKindView::Picture(task(graph, base).picture().continued(buffer)),
                children: seq![base],
            })
            &&& mentions(s.affected, id) == 1
        }),
    decreases tiles.len(),
{
    let shorter = tiles.drop_last();
    let n = shorter.len() as int;
    assert forall|k: int| 0 <= k < shorter.len() implies (#[trigger] shorter[k]).1.wf(graph) by {
        assert(shorter[k] == tiles[k]);
    }
    let s0 = splice_all(graph, cmd_buffers, shorter, sub);
    let s = splice_all(graph, cmd_buffers, tiles, sub);
    lemma_all_spliced(graph, cmd_buffers, shorter, sub);
    lemma_spliced_buffers(graph, cmd_buffers, shorter, sub);
    let last = tiles[n].1;
    assert(last.wf(graph));
    let read = opened(last, sub.resolve_rect).current_task_id;
    let a = task(s0.graph, read);
    let b = task(s0.graph, sub.resolve_task);
    assert(has_task(graph, read) && has_task(graph, sub.resolve_task));
    assert(reads_tile(s0.graph, last, sub.resolve_rect) == reads_tile(
        graph,
        last,
        sub.resolve_rect,
    ));
    if i < n {
        assert(shorter[i] == tiles[i]);
        assert(s0.graph.len() <= s.graph.len());
        assert(s0.cmd_buffers.len() <= s.cmd_buffers.len());
        lemma_fresh_task(graph, cmd_buffers, shorter, sub, i);
        assert(s.tiles[i] == s0.tiles[i]);
        let id = s.tiles[i].1.deferred_task_id->0;
        assert(id.index != read.index && id.index != sub.resolve_task.index);
        assert(task(s.graph, id) == task(s0.graph, id));
        if reads_tile(graph, last, sub.resolve_rect) {
            let taken = s.tiles[n].1.final_task();
            assert(taken != id);
            assert(s.affected.drop_last() =~= s0.affected);
        }
    } else {
        let id = s.tiles[i].1.deferred_task_id->0;
        assert(s.affected.drop_last() =~= s0.affected);
        assert(!s0.affected.contains(id)) by {
            if s0.affected.contains(id) {
                let k = choose|k: int| 0 <= k < s0.affected.len() && s0.affected[k] == id;
                assert(has_task(s0.graph, s0.affected[k]));
            }
        }
        lemma_no_mention(s0.affected, id);
    }
}

/// Splicing changes no task but those that are read and the resolve target, and makes
/// nothing but the target need anything more.
proof fn lemma_spliced_others(
    graph: Graph,
    cmd_buffers: Seq<Seq<u32>>,
    tiles: Tiles,
    sub: SubGraph,
    id: RenderTaskId,
    child: RenderTaskId,
)
    requires
        graph_wf(graph),
        forall|k: int| 0 <= k < tiles.len() ==> (#[trigger] tiles[k]).1.wf(graph),
        is_picture(graph, sub.resolve_task),
        has_task(graph, id),
    ensures
        ({
            let s = splice_all(graph, cmd_buffers, tiles, sub);
            let reads = read_tasks(graph, tiles, sub.resolve_rect);
            &&& !reads.contains(id) && id != sub.resolve_task ==> task(s.graph, id) == task(
                graph,
                id,
            )
            &&& needs(s.graph, id, child) ==> needs(graph, id, child) || (id == sub.resolve_task
                && reads.contains(child))
        }),
    decreases tiles.len(),
{
    if tiles.len() > 0 {
        let shorter = tiles.drop_last();
        let n = shorter.len() as int;
        let rect = sub.resolve_rect;
        assert forall|k: int| 0 <= k < shorter.len() implies (#[trigger] shorter[k]).1.wf(
            graph,
        ) by {
            assert(shorter[k] == tiles[k]);
        }
        lemma_spliced_others(graph, cmd_buffers, shorter, sub, id, child);
        lemma_all_spliced(graph, cmd_buffers, shorter, sub);
        let s0 = splice_all(graph, cmd_buffers, shorter, sub);
        let s = splice_all(graph, cmd_buffers, tiles, sub);
        let reads0 = read_tasks(graph, shorter, rect);
        let reads = read_tasks(graph, tiles, rect);
        let last = tiles[n].1;
        assert(last.wf(graph));
        let read = opened(last, rect).current_task_id;
        let a = task(s0.graph, read);
        assert(has_task(graph, read));
        assert(reads_tile(s0.graph, last, rect) == reads_tile(graph, last, rect));
        assert forall|x: RenderTaskId| reads0.contains(x) implies reads.contains(x) by {
            let k = choose|k: int| 0 <= k < reads0.len() && reads0[k] == x;
            assert(reads[k] == x);
        }
        if reads_tile(graph, last, rect) {
            assert(reads[reads.len() - 1] == read);
            assert(reads.contains(read));
            if id != read {
                assert(id.index != read.index);
            }
            if id != sub.resolve_task {
                assert(id.index != sub.resolve_task.index);
            }
            let keep = other_than(sub.output);
            let list = task(s0.graph, read).children;
            let left = list.filter(keep);
            if needs(s.graph, id, child) {
                let all = task(s.graph, id).children;
                let k = choose|k: int| 0 <= k < all.len() && all[k] == child;
                let core = if id == read {
                    left
                } else {
                    task(s0.graph, id).children
                };
                assert(all == core || all == core.push(read));
                if k < core.len() {
                    assert(core[k] == child);
                    if id == read {
                        assert(left.contains(child));
                        list.lemma_filter_contains_rev(keep, child);
                    }
                    assert(needs(s0.graph, id, child));
                } else {
                    assert(child == read && id == sub.resolve_task);
                }
            }
        }
    }
}

/// Whether a task goes on where another one has been read: it draws to the same place and
/// as that one does, but other commands, and clears and copies nothing first. It waits for
/// that one and for the output of the filter, in turn, and for nothing else.
pub open spec fn goes_on_after(
    read: TaskView,
    next: TaskView,
    id: RenderTaskId,
    output: RenderTaskId,
    buffer: CommandBufferIndex,
) -> bool {
    &&& next.location == (RenderTaskLocation::Existing {
        parent_task_id: id,
        size: read.location.extent(),
    })
    &&& next.kind == TaskKindView::Picture(
        PictureTaskView {
            cmd_buffer_index: buffer,
            clear_color: None,
            resolve_op: None,
            ..read.kind->Picture_0
        },
    )
    &&& next.children.len() == 2
    &&& next.children[0] == id
    &&& next.children[1] == output
}

/// What a backdrop filter on top of tiles leaves to be said of the merge: it is merged into
/// the tiles and the tasks that hold it get what was added to it.
proof fn lemma_filter_merged(stage: Stage, pic_index: PictureIndex, around: Surroundings)
    requires
        stage.surfaces.wf(stage.graph),
        stage.surfaces.stack.len() > 1,
        stage.surfaces.top().establishes_sub_graph,
        stage.surfaces.top().resolve_source is Some,
        stage.surfaces.stack[stage.surfaces.stack.len() - 2].kind is Tiled,
    ensures
        ({
            let stack = stage.surfaces.stack;
            let top = stage.surfaces.top();
            let tiles = stack[stack.len() - 2].kind->tiles;
            let sub = sub_graph(top);
            let s = splice_all(stage.graph, stage.cmd_buffers, tiles, sub);
            let m = merged_tiles(stage.graph, stage.cmd_buffers, tiles, sub, around);
            let after = popped(stage, pic_index, around);
            &&& top.kind is Simple
            &&& sub.output == filtered_output(top.kind)
            &&& sub.resolve_task == (top.resolve_source->0).0
            &&& sub.resolve_rect == (top.resolve_source->0).1
            &&& is_picture(stage.graph, sub.resolve_task)
            &&& tiles_wf(tiles, stage.graph)
            &&& has_task(stage.graph, top.kind->render_task_id)
            &&& m.graph.len() == s.graph.len()
            &&& after.graph.len() == m.graph.len()
            &&& after.cmd_buffers == s.cmd_buffers
            &&& after.surfaces.stack.len() == stack.len() - 1
            &&& after.surfaces.stack.last().kind == (BuilderKindView::Tiled { tiles: s.tiles })
            &&& after.graph == with_edges_to(
                m.graph,
                top.kind->render_task_id,
                top.extra_dependencies,
            )
        }),
{
    let stack = stage.surfaces.stack;
    let top = stage.surfaces.top();
    let below = stack.drop_last();
    let parent = stack[stack.len() - 2];
    let graph = stage.graph;
    assert(below.last() == parent);
    assert(stack[stack.len() - 1].wf(graph));
    assert(parent.wf(graph));
    let sub = sub_graph(top);
    let tiles = parent.kind->tiles;
    lemma_all_spliced(graph, stage.cmd_buffers, tiles, sub);
    lemma_after_splice(graph, stage.cmd_buffers, tiles, sub, around);
    let m = merged_tiles(graph, stage.cmd_buffers, tiles, sub, around);
    assert(handed_on(stage, pic_index, around).graph == m.graph);
}

/// The graph of a merge, step by step: which tasks keep what they were.
proof fn lemma_merge_steps(
    graph: Graph,
    cmd_buffers: Seq<Seq<u32>>,
    tiles: Tiles,
    sub: SubGraph,
    around: Surroundings,
    id: RenderTaskId,
    child: RenderTaskId,
)
    requires
        graph_wf(graph),
        tiles_wf(tiles, graph),
        is_picture(graph, sub.resolve_task),
        has_task(splice_all(graph, cmd_buffers, tiles, sub).graph, id),
    ensures
        ({
            let s = splice_all(graph, cmd_buffers, tiles, sub);
            let m = merged_tiles(graph, cmd_buffers, tiles, sub, around);
            let ready = readied(s.graph, tiles, s.sources, around);
            &&& ready.len() == s.graph.len()
            &&& m.graph.len() == s.graph.len()
            &&& is_picture(ready, sub.resolve_task)
            &&& task(m.graph, id).location == task(ready, id).location
            &&& id != sub.resolve_task ==> task(m.graph, id).kind == task(ready, id).kind
            &&& needs(m.graph, id, child) <==> needs(ready, id, child) || (s.affected.contains(id)
                && child == sub.output)
            &&& !s.affected.contains(id) && id != sub.resolve_task ==> task(m.graph, id) == task(
                ready,
                id,
            )
            &&& !s.sources.contains(id) ==> task(ready, id) == task(s.graph, id)
            &&& task(m.graph, id).children == followed_by(
                task(ready, id).children,
                sub.output,
                mentions(s.affected, id),
            )
        }),
{
    let s = splice_all(graph, cmd_buffers, tiles, sub);
    let m = merged_tiles(graph, cmd_buffers, tiles, sub, around);
    let ready = readied(s.graph, tiles, s.sources, around);
    lemma_all_spliced(graph, cmd_buffers, tiles, sub);
    assert forall|k: int| 0 <= k < s.sources.len() implies has_task(
        s.graph,
        #[trigger] s.sources[k],
    ) by {
        assert(has_task(graph, s.sources[k]));
    }
    if let Some(tile) = first_mapped(tiles) {
        lemma_initialized_kept(
            s.graph,
            s.sources,
            tile.slice_index,
            around.sources,
            around.projections,
        );
        if !s.sources.contains(id) {
            lemma_initialized_others(
                s.graph,
                s.sources,
                tile.slice_index,
                around.sources,
                around.projections,
                id,
            );
        }
    }
    let d = task(ready, sub.resolve_task);
    let e = task(s.graph, sub.resolve_task);
    assert(is_picture(ready, sub.resolve_task));
    let raster = dest_to_src_raster(s.graph, around.relations, sub.resolve_task, s.sources);
    let resolved = with_resolve(ready, sub.resolve_task, s.sources, Seq::empty(), raster);
    lemma_resolve_kept(ready, sub.resolve_task, s.sources, Seq::empty(), raster);
    if id != sub.resolve_task {
        assert(id.index != sub.resolve_task.index);
    }
    assert(task(resolved, id).children == task(ready, id).children);
    assert(needs(resolved, id, child) == needs(ready, id, child));
    lemma_edges_from_kept(resolved, s.affected, sub.output);
    lemma_edges_from_needs(resolved, s.affected, sub.output, id, child);
    lemma_edges_from_mentions(resolved, s.affected, sub.output, id);
    let f = task(m.graph, id);
    if !s.affected.contains(id) {
        lemma_no_mention(s.affected, id);
        assert(task(m.graph, id).children =~= task(resolved, id).children);
    }
}

/// A list does not mention what it does not hold.
proof fn lemma_no_mention(list: Seq<RenderTaskId>, id: RenderTaskId)
    requires
        !list.contains(id),
    ensures
        mentions(list, id) == 0,
    decreases list.len(),
{
    if list.len() > 0 {
        let shorter = list.drop_last();
        assert(list[list.len() - 1] == list.last());
        assert(list.contains(list[list.len() - 1]));
        if shorter.contains(id) {
            let k = choose|k: int| 0 <= k < shorter.len() && shorter[k] == id;
            assert(list[k] == id);
        }
        lemma_no_mention(shorter, id);
    }
}

/// A backdrop filter that is finished on top of tiles splits every tile that it reads.
///
/// A tile that has not to be drawn where the filter reads stays as it is. Otherwise its
/// deferred outputs become what is below where the filter has to see them. Of a tile that
/// is read, the task that was read stays below, and the outputs of the filter are deferred
/// to a task above: the one that is there, or else a new one that goes on after the task
/// that was read, with an empty buffer of its own. That task waits for the output of the
/// filter chain, or of the filter's own task where there is no chain.
#[verifier::rlimit(60)]
pub proof fn law_filter_splits_every_tile_it_reads(
    stage: Stage,
    pic_index: PictureIndex,
    around: Surroundings,
    i: int,
)
    requires
        stage.surfaces.wf(stage.graph),
        stage.surfaces.stack.len() > 1,
        stage.surfaces.top().establishes_sub_graph,
        stage.surfaces.top().resolve_source is Some,
        stage.surfaces.stack[stage.surfaces.stack.len() - 2].kind is Tiled,
        0 <= i < stage.surfaces.stack[stage.surfaces.stack.len() - 2].kind->tiles.len(),
        popped(stage, pic_index, around).graph.len() <= usize::MAX,
        popped(stage, pic_index, around).cmd_buffers.len() <= usize::MAX,
    ensures
        ({
            let stack = stage.surfaces.stack;
            let graph = stage.graph;
            let top = stage.surfaces.top();
            let tiles = stack[stack.len() - 2].kind->tiles;
            let rect = (top.resolve_source->0).1;
            let output = match top.kind->root_task_id {
                Some(root) => root,
                None => top.kind->render_task_id,
            };
            let after = popped(stage, pic_index, around);
            let tiles1 = after.surfaces.stack.last().kind->tiles;
            let old_tile = tiles[i].1;
            let tile = tiles1[i].1;
            let read = seen_task(old_tile, rect);
            let sees = sees_outputs(old_tile, rect);
            let buffer = CommandBufferIndex(
                (stage.cmd_buffers.len() + tile.deferred_task_id->0.index - graph.len()) as usize,
            );
            &&& after.surfaces.stack.last().kind is Tiled
            &&& tiles1.len() == tiles.len()
            &&& tiles1[i].0 == tiles[i].0
            &&& tile.composite_task_id == old_tile.composite_task_id
            &&& tile.dirty_rect == old_tile.dirty_rect
            &&& tile.slice_index == old_tile.slice_index
            &&& tile.pic_to_device == old_tile.pic_to_device
            &&& !old_tile.dirty_rect.overlaps(rect) ==> tile == old_tile
            &&& old_tile.dirty_rect.overlaps(rect) ==> tile.current_task_id == read
            &&& old_tile.dirty_rect.overlaps(rect) && !is_seen(graph, old_tile, rect) ==> {
                &&& sees ==> tile.deferred_task_id is None && tile.deferred_output_rects.len() == 0
                &&& !sees ==> tile == old_tile
            }
            &&& is_seen(graph, old_tile, rect) ==> {
                &&& tile.deferred_task_id is Some
                &&& has_task(after.graph, tile.deferred_task_id->0)
                &&& needs(after.graph, tile.deferred_task_id->0, output)
                &&& !sees && old_tile.deferred_task_id is Some ==> {
                    &&& tile.deferred_task_id == old_tile.deferred_task_id
                    &&& lists_besides(
                        old_tile.deferred_output_rects,
                        tile.deferred_output_rects,
                        rect,
                    )
                }
                &&& sees || old_tile.deferred_task_id is None ==> {
                    &&& lists_besides(Seq::empty(), tile.deferred_output_rects, rect)
                    &&& !has_task(graph, tile.deferred_task_id->0)
                    &&& buffer.0 == stage.cmd_buffers.len() + tile.deferred_task_id->0.index
                        - graph.len()
                    &&& buffer.0 < after.cmd_buffers.len()
                    &&& after.cmd_buffers[buffer.0 as int].len() == 0
                    &&& goes_on_after(
                        task(graph, read),
                        task(after.graph, tile.deferred_task_id->0),
                        read,
                        output,
                        buffer,
                    )
                }
            }
        }),
{
    let stack = stage.surfaces.stack;
    let graph = stage.graph;
    let top = stage.surfaces.top();
    let tiles = stack[stack.len() - 2].kind->tiles;
    let sub = sub_graph(top);
    let rect = sub.resolve_rect;
    lemma_filter_merged(stage, pic_index, around);
    let s = splice_all(graph, stage.cmd_buffers, tiles, sub);
    let m = merged_tiles(graph, stage.cmd_buffers, tiles, sub, around);
    let after = popped(stage, pic_index, around);
    lemma_all_spliced(graph, stage.cmd_buffers, tiles, sub);
    lemma_spliced_buffers(graph, stage.cmd_buffers, tiles, sub);
    let old_tile = tiles[i].1;
    let tile = s.tiles[i].1;
    assert(old_tile.wf(graph));
    lemma_seen(graph, old_tile, rect);
    let read = seen_task(old_tile, rect);
    lemma_one_tile_spliced(graph, stage.cmd_buffers, tiles, sub, i);
    if is_seen(graph, old_tile, rect) {
        let id = tile.deferred_task_id->0;
        assert(s.affected.contains(id));
        let k = choose|k: int| 0 <= k < s.affected.len() && s.affected[k] == id;
        assert(has_task(s.graph, s.affected[k]));
        lemma_merge_steps(graph, stage.cmd_buffers, tiles, sub, around, id, sub.output);
        assert(needs(m.graph, id, sub.output));
        lemma_edges_to_needs(
            m.graph,
            top.kind->render_task_id,
            top.extra_dependencies,
            id,
            sub.output,
        );
        let ready = opened(old_tile, rect);
        law_deferred_outputs(ready, rect, rect);
        if adds_task(graph, old_tile, sub) {
            lemma_fresh_task(graph, stage.cmd_buffers, tiles, sub, i);
            assert(!s.sources.contains(id)) by {
                if s.sources.contains(id) {
                    let k = choose|k: int| 0 <= k < s.sources.len() && s.sources[k] == id;
                    assert(has_task(graph, s.sources[k]));
                }
            }
            let next = task(after.graph, id);
            assert(top.kind->render_task_id.index != id.index);
            assert(next == task(m.graph, id));
            lemma_followed_once_more(seq![read], sub.output, 0);
            assert(next.children == seq![read].push(sub.output));
            assert(TileView { deferred_task_id: Some(id), ..ready }.with_output(rect) == tile);
            law_deferred_outputs(TileView { deferred_task_id: Some(id), ..ready }, rect, rect);
            assert(ready.deferred_output_rects.len() == 0);
            assert(ready.deferred_output_rects =~= Seq::empty());
        }
    }
}

/// The tile that splicing gives.
proof fn lemma_one_tile_spliced(
    graph: Graph,
    cmd_buffers: Seq<Seq<u32>>,
    tiles: Tiles,
    sub: SubGraph,
    i: int,
)
    requires
        graph_wf(graph),
        forall|k: int| 0 <= k < tiles.len() ==> (#[trigger] tiles[k]).1.wf(graph),
        is_picture(graph, sub.resolve_task),
        0 <= i < tiles.len(),
    ensures
        ({
            let s = splice_all(graph, cmd_buffers, tiles, sub);
            let ready = opened(tiles[i].1, sub.resolve_rect);
            let tile = s.tiles[i].1;
            reads_tile(graph, tiles[i].1, sub.resolve_rect) ==> tile == TileView {
                deferred_task_id: tile.deferred_task_id,
                ..ready
            }.with_output(sub.resolve_rect)
        }),
    decreases tiles.len(),
{
    let shorter = tiles.drop_last();
    let n = shorter.len() as int;
    assert forall|k: int| 0 <= k < shorter.len() implies (#[trigger] shorter[k]).1.wf(graph) by {
        assert(shorter[k] == tiles[k]);
    }
    let s0 = splice_all(graph, cmd_buffers, shorter, sub);
    let s = splice_all(graph, cmd_buffers, tiles, sub);
    lemma_all_spliced(graph, cmd_buffers, shorter, sub);
    if i < n {
        assert(shorter[i] == tiles[i]);
        lemma_one_tile_spliced(graph, cmd_buffers, shorter, sub, i);
        assert(s.tiles[i] == s0.tiles[i]);
    } else {
        assert(tiles[i].1.wf(graph));
        let read = opened(tiles[i].1, sub.resolve_rect).current_task_id;
        let a = task(s0.graph, read);
        assert(has_task(graph, read));
    }
}

/// Whether `picked` lists exactly the tiles that a filter reads, in their order.
pub open spec fn picks_seen(
    picked: Seq<int>,
    graph: Graph,
    tiles: Tiles,
    rect: PictureRect,
) -> bool {
    &&& forall|a: int, b: int|
        0 <= a < b < picked.len() ==> #[trigger] picked[a] < #[trigger] picked[b]
    &&& forall|i: int|
        #![trigger picked.contains(i)]
        picked.contains(i) <==> 0 <= i < tiles.len() && is_seen(graph, tiles[i].1, rect)
}

/// Whether the list holds what a filter reads of the tiles that are picked.
pub open spec fn reads_picked(
    reads: Seq<RenderTaskId>,
    picked: Seq<int>,
    tiles: Tiles,
    rect: PictureRect,
) -> bool {
    &&& reads.len() == picked.len()
    &&& forall|j: int|
        #![trigger reads[j]]
        0 <= j < reads.len() ==> reads[j] == seen_task(tiles[picked[j]].1, rect)
}

/// What a filter reads of tiles, tile by tile.
pub proof fn law_reads_are_the_seen_tasks(graph: Graph, tiles: Tiles, rect: PictureRect)
    requires
        forall|i: int| 0 <= i < tiles.len() ==> (#[trigger] tiles[i]).1.wf(graph),
    ensures
        exists|picked: Seq<int>| #[trigger]
            picks_seen(picked, graph, tiles, rect) && reads_picked(
                read_tasks(graph, tiles, rect),
                picked,
                tiles,
                rect,
            ),
    decreases tiles.len(),
{
    let reads = read_tasks(graph, tiles, rect);
    if tiles.len() == 0 {
        let picked = Seq::<int>::empty();
        assert(picks_seen(picked, graph, tiles, rect));
        assert(reads_picked(reads, picked, tiles, rect));
    } else {
        let shorter = tiles.drop_last();
        let n = shorter.len() as int;
        assert forall|k: int| 0 <= k < shorter.len() implies (#[trigger] shorter[k]).1.wf(
            graph,
        ) by {
            assert(shorter[k] == tiles[k]);
        }
        law_reads_are_the_seen_tasks(graph, shorter, rect);
        let reads0 = read_tasks(graph, shorter, rect);
        let picked0 = choose|picked: Seq<int>| #[trigger]
            picks_seen(picked, graph, shorter, rect) && reads_picked(reads0, picked, shorter, rect);
        assert(tiles[n].1.wf(graph));
        lemma_seen(graph, tiles[n].1, rect);
        let seen = is_seen(graph, tiles[n].1, rect);
        let picked = if seen {
            picked0.push(n)
        } else {
            picked0
        };
        assert forall|j: int| 0 <= j < picked0.len() implies 0 <= #[trigger] picked0[j] < n by {
            assert(picked0.contains(picked0[j]));
        }
        assert forall|i: int|
            #![trigger picked.contains(i)]
            picked.contains(i) <==> 0 <= i < tiles.len() && is_seen(graph, tiles[i].1, rect) by {
            if 0 <= i < n {
                assert(shorter[i] == tiles[i]);
            }
            if picked0.contains(i) {
                let j = choose|j: int| 0 <= j < picked0.len() && picked0[j] == i;
                assert(picked[j] == i);
            }
            if picked.contains(i) && i != n {
                let j = choose|j: int| 0 <= j < picked.len() && picked[j] == i;
                assert(picked0[j] == i);
                assert(picked0.contains(i));
            }
            if seen {
                assert(picked[picked0.len() as int] == n);
            } else if picked.contains(n) {
                let j = choose|j: int| 0 <= j < picked0.len() && picked0[j] == n;
            }
        }
        assert forall|a: int, b: int| 0 <= a < b < picked.len() implies #[trigger] picked[a]
            < #[trigger] picked[b] by {
            if b < picked0.len() {
                assert(picked0[a] < picked0[b]);
            }
        }
        assert forall|j: int|
            #![trigger reads[j]]
            0 <= j < reads.len() implies reads[j] == seen_task(tiles[picked[j]].1, rect) by {
            if j < reads0.len() {
                assert(reads[j] == reads0[j]);
                assert(shorter[picked0[j]] == tiles[picked[j]]);
            }
        }
        assert(picks_seen(picked, graph, tiles, rect));
        assert(reads_picked(reads, picked, tiles, rect));
    }
}

/// Whether `mapping` is the one between the raster spaces of two tasks: where the nodes
/// differ and are known to be a scale and an offset apart, just that; otherwise it leaves
/// everything where it is.
pub open spec fn relates_rasters(
    mapping: ScaleOffset,
    graph: Graph,
    relations: Relations,
    dest: RenderTaskId,
    src: RenderTaskId,
) -> bool {
    let from = task(graph, dest).kind->Picture_0.raster_spatial_node_index;
    let to = task(graph, src).kind->Picture_0.raster_spatial_node_index;
    if from != to && relations[(from, to)] is ScaleOffset {
        let m = relations[(from, to)]->ScaleOffset_0;
        &&& mapping.scale_x == m.scale_x
        &&& mapping.scale_y == m.scale_y
        &&& mapping.offset_x == m.offset_x
        &&& mapping.offset_y == m.offset_y
    } else {
        leaves_in_place(mapping)
    }
}

/// Whether the mapping scales by one and moves by nothing.
pub open spec fn leaves_in_place(mapping: ScaleOffset) -> bool {
    &&& mapping.scale_x.bits == 0x3f80_0000
    &&& mapping.scale_y.bits == 0x3f80_0000
    &&& mapping.offset_x.bits == 0
    &&& mapping.offset_y.bits == 0
}

/// Whether a resolve target first copies what a filter reads of the tiles that are picked,
/// mapped from the raster space of the first of them, and nothing else.
pub open spec fn copies_what_is_read(
    op: ResolveOpView,
    picked: Seq<int>,
    graph: Graph,
    tiles: Tiles,
    target: RenderTaskId,
    rect: PictureRect,
    relations: Relations,
) -> bool {
    &&& picks_seen(picked, graph, tiles, rect)
    &&& reads_picked(op.src_task_ids, picked, tiles, rect)
    &&& op.sources.len() == 0
    &&& op.dest_task_id == target
    &&& picked.len() == 0 ==> leaves_in_place(op.dest_to_src_raster)
    &&& picked.len() > 0 ==> relates_rasters(
        op.dest_to_src_raster,
        graph,
        relations,
        target,
        seen_task(tiles[picked[0]].1, rect),
    )
}

/// A backdrop filter that is finished on top of tiles copies all that it reads of them into
/// its resolve target before anything is drawn there, tile by tile and in the raster space
/// of what is read. The target waits for every task that it reads, unless the filter reads
/// its own target. The output is recorded for the picture.
pub proof fn law_filter_copies_every_tile_it_reads(
    stage: Stage,
    pic_index: PictureIndex,
    around: Surroundings,
    i: int,
)
    requires
        stage.surfaces.wf(stage.graph),
        stage.surfaces.stack.len() > 1,
        stage.surfaces.top().establishes_sub_graph,
        stage.surfaces.top().resolve_source is Some,
        stage.surfaces.stack[stage.surfaces.stack.len() - 2].kind is Tiled,
    ensures
        ({
            let stack = stage.surfaces.stack;
            let graph = stage.graph;
            let top = stage.surfaces.top();
            let tiles = stack[stack.len() - 2].kind->tiles;
            let (target, rect) = top.resolve_source->0;
            let after = popped(stage, pic_index, around);
            let drawn = task(after.graph, target);
            let reads_target = exists|j: int|
                0 <= j < tiles.len() && is_seen(graph, (#[trigger] tiles[j]).1, rect) && seen_task(
                    tiles[j].1,
                    rect,
                ) == target;
            &&& drawn.kind is Picture
            &&& drawn.location == task(graph, target).location
            &&& drawn.kind->Picture_0.resolve_op is Some
            &&& drawn.kind->Picture_0 == (PictureTaskView {
                resolve_op: drawn.kind->Picture_0.resolve_op,
                ..task(graph, target).kind->Picture_0
            })
            &&& exists|picked: Seq<int>| #[trigger]
                copies_what_is_read(
                    (drawn.kind->Picture_0.resolve_op)->0,
                    picked,
                    graph,
                    tiles,
                    target,
                    rect,
                    around.relations,
                )
            &&& !reads_target && 0 <= i < tiles.len() && is_seen(graph, tiles[i].1, rect) ==> needs(
                after.graph,
                target,
                seen_task(tiles[i].1, rect),
            )
            &&& after.surfaces.outputs.dom() == stage.surfaces.outputs.dom().insert(pic_index.0)
            &&& after.surfaces.outputs[pic_index.0] == match top.kind->root_task_id {
                Some(root) => root,
                None => top.kind->render_task_id,
            }
            &&& forall|other: usize|
                other != pic_index.0 && stage.surfaces.outputs.dom().contains(other)
                    ==> #[trigger] after.surfaces.outputs[other] == stage.surfaces.outputs[other]
        }),
{
    let stack = stage.surfaces.stack;
    let graph = stage.graph;
    let top = stage.surfaces.top();
    let tiles = stack[stack.len() - 2].kind->tiles;
    let sub = sub_graph(top);
    let rect = sub.resolve_rect;
    let target = sub.resolve_task;
    lemma_filter_merged(stage, pic_index, around);
    let s = splice_all(graph, stage.cmd_buffers, tiles, sub);
    let m = merged_tiles(graph, stage.cmd_buffers, tiles, sub, around);
    let after = popped(stage, pic_index, around);
    lemma_all_spliced(graph, stage.cmd_buffers, tiles, sub);
    lemma_after_splice(graph, stage.cmd_buffers, tiles, sub, around);
    let a = task(s.graph, target);
    let b = task(m.graph, target);
    let c = task(graph, target);
    law_reads_are_the_seen_tasks(graph, tiles, rect);
    let picked = choose|picked: Seq<int>| #[trigger]
        picks_seen(picked, graph, tiles, rect) && reads_picked(s.sources, picked, tiles, rect);
    let op = task(m.graph, target).picture().resolve_op->0;
    if s.sources.len() > 0 {
        let first = s.sources[0];
        assert(first == seen_task(tiles[picked[0]].1, rect));
        assert(has_task(graph, first));
        let t = task(s.graph, first);
    }
    assert(copies_what_is_read(op, picked, graph, tiles, target, rect, around.relations));
    let reads_target = exists|j: int|
        0 <= j < tiles.len() && is_seen(graph, (#[trigger] tiles[j]).1, rect) && seen_task(
            tiles[j].1,
            rect,
        ) == target;
    if !reads_target && 0 <= i < tiles.len() && is_seen(graph, tiles[i].1, rect) {
        assert(!s.sources.contains(target)) by {
            if s.sources.contains(target) {
                let j = choose|j: int| 0 <= j < s.sources.len() && s.sources[j] == target;
                assert(picked.contains(picked[j]));
                assert(is_seen(graph, tiles[picked[j]].1, rect));
            }
        }
        assert(!reads_itself(graph, tiles, sub));
        assert(picked.contains(i));
        let j = choose|j: int| 0 <= j < picked.len() && picked[j] == i;
        assert(s.sources[j] == seen_task(tiles[i].1, rect));
        assert(needs(s.graph, target, s.sources[j]));
        assert(needs(m.graph, target, s.sources[j]));
        lemma_edges_to_needs(
            m.graph,
            top.kind->render_task_id,
            top.extra_dependencies,
            target,
            s.sources[j],
        );
    }
}

/// No tile waits for a filter that reads it: after a filter is finished on top of tiles,
/// none of the tasks that it has read needs its output. This is where every task draws one
/// of the tiles, and neither the resolve target nor the filter's own task is among those
/// that are read, nor does its output draw a slice behind.
pub proof fn law_tile_that_is_read_does_not_wait(
    stage: Stage,
    pic_index: PictureIndex,
    around: Surroundings,
    i: int,
)
    requires
        stage.surfaces.wf(stage.graph),
        stage.surfaces.stack.len() > 1,
        stage.surfaces.top().establishes_sub_graph,
        stage.surfaces.top().resolve_source is Some,
        stage.surfaces.stack[stage.surfaces.stack.len() - 2].kind is Tiled,
        tiles_apart(stage.surfaces.stack[stage.surfaces.stack.len() - 2].kind->tiles),
        stage.graph.len() + stage.surfaces.stack[stage.surfaces.stack.len()
            - 2].kind->tiles.len() <= usize::MAX,
        ({
            let tiles = stage.surfaces.stack[stage.surfaces.stack.len() - 2].kind->tiles;
            let top = stage.surfaces.top();
            let (target, rect) = top.resolve_source->0;
            &&& 0 <= i < tiles.len()
            &&& is_seen(stage.graph, tiles[i].1, rect)
            &&& seen_task(tiles[i].1, rect) != top.kind->render_task_id
            &&& forall|j: int|
                0 <= j < tiles.len() && is_seen(stage.graph, (#[trigger] tiles[j]).1, rect)
                    ==> seen_task(tiles[j].1, rect) != target
            &&& forall|k: int|
                0 <= k < around.sources.len() ==> (#[trigger] around.sources[k]).producer_task_id
                    != Some(filtered_output(top.kind))
        }),
    ensures
        ({
            let tiles = stage.surfaces.stack[stage.surfaces.stack.len() - 2].kind->tiles;
            let top = stage.surfaces.top();
            !needs(
                popped(stage, pic_index, around).graph,
                seen_task(tiles[i].1, (top.resolve_source->0).1),
                match top.kind->root_task_id {
                    Some(root) => root,
                    None => top.kind->render_task_id,
                },
            )
        }),
{
    let stack = stage.surfaces.stack;
    let graph = stage.graph;
    let top = stage.surfaces.top();
    let tiles = stack[stack.len() - 2].kind->tiles;
    let sub = sub_graph(top);
    let rect = sub.resolve_rect;
    lemma_filter_merged(stage, pic_index, around);
    law_reads_are_the_seen_tasks(graph, tiles, rect);
    let reads = read_tasks(graph, tiles, rect);
    let picked = choose|picked: Seq<int>| #[trigger]
        picks_seen(picked, graph, tiles, rect) && reads_picked(reads, picked, tiles, rect);
    let id = seen_task(tiles[i].1, rect);
    assert(picked.contains(i));
    let j = choose|j: int| 0 <= j < picked.len() && picked[j] == i;
    assert(reads[j] == id);
    assert(!reads.contains(sub.resolve_task)) by {
        if reads.contains(sub.resolve_task) {
            let k = choose|k: int| 0 <= k < reads.len() && reads[k] == sub.resolve_task;
            assert(picked.contains(picked[k]));
            assert(is_seen(graph, tiles[picked[k]].1, rect));
        }
    }
    law_read_task_does_not_wait(graph, stage.cmd_buffers, tiles, sub, around, id);
    let m = merged_tiles(graph, stage.cmd_buffers, tiles, sub, around);
    lemma_all_spliced(graph, stage.cmd_buffers, tiles, sub);
    assert(has_task(graph, reads[j]));
    lemma_edges_to_needs(
        m.graph,
        top.kind->render_task_id,
        top.extra_dependencies,
        id,
        sub.output,
    );
}

/// Whether `m` is the first of the tiles whose mapping to the device is known.
pub open spec fn is_first_mapped(tiles: Tiles, m: int) -> bool {
    &&& 0 <= m < tiles.len()
    &&& tiles[m].1.pic_to_device is Some
    &&& forall|j: int| 0 <= j < m ==> (#[trigger] tiles[j]).1.pic_to_device is None
}

/// The first tile whose mapping to the device is known is found, if there is one.
pub proof fn law_first_mapped_tile(tiles: Tiles, m: int)
    ensures
        is_first_mapped(tiles, m) ==> first_mapped(tiles) == Some(tiles[m].1),
        (forall|j: int| 0 <= j < tiles.len() ==> (#[trigger] tiles[j]).1.pic_to_device is None)
            ==> first_mapped(tiles) is None,
    decreases tiles.len(),
{
    if tiles.len() > 0 {
        let shorter = tiles.drop_last();
        let n = shorter.len() as int;
        law_first_mapped_tile(shorter, m);
        assert(tiles[n] == tiles.last());
        if is_first_mapped(tiles, m) {
            if m < n {
                assert(shorter[m] == tiles[m]);
                assert forall|j: int| 0 <= j < m implies (
                #[trigger] shorter[j]).1.pic_to_device is None by {
                    assert(shorter[j] == tiles[j]);
                }
            } else {
                assert forall|j: int| 0 <= j < shorter.len() implies (
                #[trigger] shorter[j]).1.pic_to_device is None by {
                    assert(shorter[j] == tiles[j]);
                }
            }
        }
        if forall|j: int| 0 <= j < tiles.len() ==> (#[trigger] tiles[j]).1.pic_to_device is None {
            assert forall|j: int| 0 <= j < shorter.len() implies (
            #[trigger] shorter[j]).1.pic_to_device is None by {
                assert(shorter[j] == tiles[j]);
            }
        }
    }
}

/// A task that a filter reads, and that would start from a cleared target, copies all that
/// the slices behind show first: every source that lies behind the slice and has content,
/// from back to front. The slice is that of the first tile whose mapping to the device is
/// known. The task waits for what draws those that are drawn anew. Where there is no such
/// tile, or the task does not start so, what it draws stays as it is.
pub proof fn law_filter_sees_the_slices_behind(
    stage: Stage,
    pic_index: PictureIndex,
    around: Surroundings,
    i: int,
    m: int,
)
    requires
        stage.surfaces.wf(stage.graph),
        stage.surfaces.stack.len() > 1,
        stage.surfaces.top().establishes_sub_graph,
        stage.surfaces.top().resolve_source is Some,
        stage.surfaces.stack[stage.surfaces.stack.len() - 2].kind is Tiled,
        ({
            let tiles = stage.surfaces.stack[stage.surfaces.stack.len() - 2].kind->tiles;
            let (target, rect) = stage.surfaces.top().resolve_source->0;
            &&& 0 <= i < tiles.len()
            &&& is_seen(stage.graph, tiles[i].1, rect)
            &&& seen_task(tiles[i].1, rect) != target
        }),
    ensures
        ({
            let tiles = stage.surfaces.stack[stage.surfaces.stack.len() - 2].kind->tiles;
            let rect = (stage.surfaces.top().resolve_source->0).1;
            let id = seen_task(tiles[i].1, rect);
            let before = task(stage.graph, id);
            let after = task(popped(stage, pic_index, around).graph, id);
            let cleared = before.kind matches TaskKindView::Picture(info)
                && info.clear_color is Some && info.resolve_op is None;
            let unmapped = forall|j: int|
                0 <= j < tiles.len() ==> (#[trigger] tiles[j]).1.pic_to_device is None;
            &&& after.location == before.location
            &&& !cleared || unmapped ==> after.kind == before.kind
            &&& cleared && is_first_mapped(tiles, m) ==> {
                &&& after.kind is Picture
                &&& after.kind->Picture_0 == (PictureTaskView {
                    resolve_op: after.kind->Picture_0.resolve_op,
                    ..before.kind->Picture_0
                })
                &&& exists|copied: Seq<int>| #[trigger]
                    copies_behind_first(
                        after.kind->Picture_0.resolve_op,
                        id,
                        copied,
                        around.sources,
                        around.projections[id].sources,
                        tiles[m].1.slice_index,
                        around.projections[id].wanted_device_rect,
                    )
                &&& forall|k: int|
                    0 <= k < around.sources.len() && (
                    #[trigger] around.sources[k]).producer_task_id is Some && lies_behind(
                        around.sources[k],
                        around.projections[id].sources[k],
                        tiles[m].1.slice_index,
                        around.projections[id].wanted_device_rect,
                    ) ==> after.children.contains(around.sources[k].producer_task_id->0)
            }
        }),
{
    let stack = stage.surfaces.stack;
    let graph = stage.graph;
    let top = stage.surfaces.top();
    let tiles = stack[stack.len() - 2].kind->tiles;
    let sub = sub_graph(top);
    let rect = sub.resolve_rect;
    let id = seen_task(tiles[i].1, rect);
    lemma_filter_merged(stage, pic_index, around);
    let s = splice_all(graph, stage.cmd_buffers, tiles, sub);
    lemma_all_spliced(graph, stage.cmd_buffers, tiles, sub);
    law_reads_are_the_seen_tasks(graph, tiles, rect);
    let picked = choose|picked: Seq<int>| #[trigger]
        picks_seen(picked, graph, tiles, rect) && reads_picked(s.sources, picked, tiles, rect);
    assert(picked.contains(i));
    let j = choose|j: int| 0 <= j < picked.len() && picked[j] == i;
    assert(s.sources[j] == id);
    assert(has_task(graph, s.sources[j]));
    let t = task(s.graph, id);
    lemma_merge_steps(graph, stage.cmd_buffers, tiles, sub, around, id, sub.output);
    law_first_mapped_tile(tiles, m);
    let ready = readied(s.graph, tiles, s.sources, around);
    let after = task(popped(stage, pic_index, around).graph, id);
    assert(after.kind == task(ready, id).kind);
    assert(after.location == task(ready, id).location);
    assert forall|k: int| 0 <= k < s.sources.len() implies has_task(
        s.graph,
        #[trigger] s.sources[k],
    ) by {
        assert(has_task(graph, s.sources[k]));
    }
    if let Some(tile) = first_mapped(tiles) {
        law_cleared_tasks_start_from_behind(
            s.graph,
            s.sources,
            tile.slice_index,
            around.sources,
            around.projections,
            id,
        );
        let before = task(graph, id);
        let cleared = before.kind matches TaskKindView::Picture(info) && info.clear_color is Some
            && info.resolve_op is None;
        if cleared && is_first_mapped(tiles, m) {
            let (awaited, copied) = choose|awaited: Seq<int>, copied: Seq<int>| #[trigger]
                starts_from_all_behind(
                    task(s.graph, id),
                    task(ready, id),
                    id,
                    awaited,
                    copied,
                    around.sources,
                    around.projections[id].sources,
                    tile.slice_index,
                    around.projections[id].wanted_device_rect,
                );
            assert(copies_behind_first(
                after.kind->Picture_0.resolve_op,
                id,
                copied,
                around.sources,
                around.projections[id].sources,
                tiles[m].1.slice_index,
                around.projections[id].wanted_device_rect,
            ));
            let producers = task(ready, id).children.skip(task(s.graph, id).children.len() as int);
            assert forall|k: int|
                0 <= k < around.sources.len() && (
                #[trigger] around.sources[k]).producer_task_id is Some && lies_behind(
                    around.sources[k],
                    around.projections[id].sources[k],
                    tiles[m].1.slice_index,
                    around.projections[id].wanted_device_rect,
                ) implies after.children.contains(around.sources[k].producer_task_id->0) by {
                let producer = around.sources[k].producer_task_id->0;
                assert(awaited.contains(k));
                let j = choose|j: int| 0 <= j < awaited.len() && awaited[j] == k;
                assert(producers[j] == producer);
                assert(needs(ready, id, producer)) by {
                    let n = task(s.graph, id).children.len() as int;
                    assert(task(ready, id).children[n + j] == producer);
                }
                lemma_merge_steps(graph, stage.cmd_buffers, tiles, sub, around, id, producer);
                let m_graph = merged_tiles(graph, stage.cmd_buffers, tiles, sub, around).graph;
                lemma_edges_to_needs(
                    m_graph,
                    top.kind->render_task_id,
                    top.extra_dependencies,
                    id,
                    producer,
                );
                assert(needs(popped(stage, pic_index, around).graph, id, producer));
            }
        }
    }
}

/// Every task that splicing adds takes over for one of the tiles.
proof fn lemma_fresh_is_deferred(
    graph: Graph,
    cmd_buffers: Seq<Seq<u32>>,
    tiles: Tiles,
    sub: SubGraph,
    id: RenderTaskId,
)
    requires
        graph_wf(graph),
        forall|k: int| 0 <= k < tiles.len() ==> (#[trigger] tiles[k]).1.wf(graph),
        is_picture(graph, sub.resolve_task),
        graph.len() <= id.index < splice_all(graph, cmd_buffers, tiles, sub).graph.len(),
    ensures
        exists|i: int|
            #![trigger tiles[i]]
            0 <= i < tiles.len() && splice_all(
                graph,
                cmd_buffers,
                tiles,
                sub,
            ).tiles[i].1.deferred_task_id == Some(id),
    decreases tiles.len(),
{
    if tiles.len() > 0 {
        let shorter = tiles.drop_last();
        let n = shorter.len() as int;
        assert forall|k: int| 0 <= k < shorter.len() implies (#[trigger] shorter[k]).1.wf(
            graph,
        ) by {
            assert(shorter[k] == tiles[k]);
        }
        lemma_all_spliced(graph, cmd_buffers, shorter, sub);
        let s0 = splice_all(graph, cmd_buffers, shorter, sub);
        let s = splice_all(graph, cmd_buffers, tiles, sub);
        let last = tiles[n].1;
        assert(last.wf(graph));
        let read = opened(last, sub.resolve_rect).current_task_id;
        let a = task(s0.graph, read);
        assert(has_task(graph, read));
        if id.index < s0.graph.len() {
            lemma_fresh_is_deferred(graph, cmd_buffers, shorter, sub, id);
            let i = choose|i: int|
                #![trigger shorter[i]]
                0 <= i < shorter.len() && s0.tiles[i].1.deferred_task_id == Some(id);
            assert(s.tiles[i] == s0.tiles[i]);
            assert(tiles[i] == shorter[i]);
        } else {
            assert(id.index == s0.graph.len());
            assert(s.tiles[n].1.deferred_task_id == Some(id));
        }
    }
}

/// A filter that is finished on top of tiles adds no task but those that take over for
/// tiles, and as many buffers, which are empty. The buffers that there were stay as they
/// are.
pub proof fn law_filter_adds_nothing_else(
    stage: Stage,
    pic_index: PictureIndex,
    around: Surroundings,
    id: RenderTaskId,
    k: int,
)
    requires
        stage.surfaces.wf(stage.graph),
        stage.surfaces.stack.len() > 1,
        stage.surfaces.top().establishes_sub_graph,
        stage.surfaces.top().resolve_source is Some,
        stage.surfaces.stack[stage.surfaces.stack.len() - 2].kind is Tiled,
    ensures
        ({
            let after = popped(stage, pic_index, around);
            let tiles = after.surfaces.stack.last().kind->tiles;
            &&& after.cmd_buffers.len() - stage.cmd_buffers.len() == after.graph.len()
                - stage.graph.len()
            &&& 0 <= k < stage.cmd_buffers.len() ==> after.cmd_buffers[k] == stage.cmd_buffers[k]
            &&& stage.cmd_buffers.len() <= k < after.cmd_buffers.len()
                ==> after.cmd_buffers[k].len() == 0
            &&& has_task(after.graph, id) && !has_task(stage.graph, id) ==> exists|i: int|
                0 <= i < tiles.len() && (#[trigger] tiles[i]).1.deferred_task_id == Some(id)
        }),
{
    let stack = stage.surfaces.stack;
    let graph = stage.graph;
    let top = stage.surfaces.top();
    let tiles = stack[stack.len() - 2].kind->tiles;
    let sub = sub_graph(top);
    lemma_filter_merged(stage, pic_index, around);
    lemma_all_spliced(graph, stage.cmd_buffers, tiles, sub);
    lemma_spliced_buffers(graph, stage.cmd_buffers, tiles, sub);
    let s = splice_all(graph, stage.cmd_buffers, tiles, sub);
    let after = popped(stage, pic_index, around);
    if stage.cmd_buffers.len() <= k < after.cmd_buffers.len() {
        assert(s.cmd_buffers[k] == Seq::<u32>::empty());
    }
    if 0 <= k < stage.cmd_buffers.len() {
        assert(s.cmd_buffers[k] == stage.cmd_buffers[k]);
    }
    if has_task(after.graph, id) && !has_task(graph, id) {
        lemma_fresh_is_deferred(graph, stage.cmd_buffers, tiles, sub, id);
        let i = choose|i: int|
            #![trigger tiles[i]]
            0 <= i < tiles.len() && s.tiles[i].1.deferred_task_id == Some(id);
        assert(after.surfaces.stack.last().kind->tiles[i].1.deferred_task_id == Some(id));
    }
}

/// Finishing a filter on top of tiles changes nothing but what it has to. The surfaces
/// below that of the tiles stay as they are, and that one but for its tiles. A task that is
/// neither read nor the resolve target, neither takes over for a tile that is read nor is
/// the filter's own, stays as it is. A task comes to need something only as the resolve
/// target, which needs what is read; as one that takes over, which needs the output; as one
/// that is read, which needs what draws the slices behind it; or as the filter's own, which
/// needs what was added to that.
pub proof fn law_filter_changes_nothing_else(
    stage: Stage,
    pic_index: PictureIndex,
    around: Surroundings,
    id: RenderTaskId,
    child: RenderTaskId,
    k: int,
)
    requires
        stage.surfaces.wf(stage.graph),
        stage.surfaces.stack.len() > 1,
        stage.surfaces.top().establishes_sub_graph,
        stage.surfaces.top().resolve_source is Some,
        stage.surfaces.stack[stage.surfaces.stack.len() - 2].kind is Tiled,
        popped(stage, pic_index, around).graph.len() <= usize::MAX,
        has_task(stage.graph, id),
        0 <= k < stage.surfaces.stack.len() - 1,
    ensures
        ({
            let stack = stage.surfaces.stack;
            let graph = stage.graph;
            let top = stage.surfaces.top();
            let tiles = stack[stack.len() - 2].kind->tiles;
            let (target, rect) = top.resolve_source->0;
            let after = popped(stage, pic_index, around);
            let is_read = |x: RenderTaskId|
                exists|i: int|
                    0 <= i < tiles.len() && is_seen(graph, (#[trigger] tiles[i]).1, rect)
                        && seen_task(tiles[i].1, rect) == x;
            let is_above = exists|i: int|
                0 <= i < tiles.len() && is_seen(graph, (#[trigger] tiles[i]).1, rect)
                    && tiles[i].1.deferred_task_id == Some(id);
            &&& after.surfaces.stack.len() == stack.len() - 1
            &&& k < stack.len() - 2 ==> after.surfaces.stack[k] == stack[k]
            &&& k == stack.len() - 2 ==> {
                &&& after.surfaces.stack[k].establishes_sub_graph == stack[k].establishes_sub_graph
                &&& after.surfaces.stack[k].resolve_source == stack[k].resolve_source
                &&& after.surfaces.stack[k].extra_dependencies == stack[k].extra_dependencies
            }
            &&& after.surfaces.sources == stage.surfaces.sources
            &&& task(after.graph, id).location == task(graph, id).location
            &&& !is_read(id) && id != target && !is_above && id != top.kind->render_task_id
                ==> task(after.graph, id) == task(graph, id)
            &&& needs(after.graph, id, child) && !needs(graph, id, child) ==> {
                ||| id == target && is_read(child)
                ||| is_above && child == filtered_output(top.kind)
                ||| is_read(id) && exists|j: int|
                    0 <= j < around.sources.len() && (
                    #[trigger] around.sources[j]).producer_task_id == Some(child)
                ||| id == top.kind->render_task_id && top.extra_dependencies.contains(child)
            }
            &&& needs(graph, id, child) && child != filtered_output(top.kind) ==> needs(
                after.graph,
                id,
                child,
            )
        }),
{
    let stack = stage.surfaces.stack;
    let graph = stage.graph;
    let top = stage.surfaces.top();
    let tiles = stack[stack.len() - 2].kind->tiles;
    let sub = sub_graph(top);
    let rect = sub.resolve_rect;
    let target = sub.resolve_task;
    lemma_filter_merged(stage, pic_index, around);
    let s = splice_all(graph, stage.cmd_buffers, tiles, sub);
    let m = merged_tiles(graph, stage.cmd_buffers, tiles, sub, around);
    let after = popped(stage, pic_index, around);
    let ready = readied(s.graph, tiles, s.sources, around);
    let is_read = |x: RenderTaskId|
        exists|i: int|
            0 <= i < tiles.len() && is_seen(graph, (#[trigger] tiles[i]).1, rect) && seen_task(
                tiles[i].1,
                rect,
            ) == x;
    let is_above = exists|i: int|
        0 <= i < tiles.len() && is_seen(graph, (#[trigger] tiles[i]).1, rect)
            && tiles[i].1.deferred_task_id == Some(id);
    lemma_all_spliced(graph, stage.cmd_buffers, tiles, sub);
    lemma_spliced_others(graph, stage.cmd_buffers, tiles, sub, id, child);
    lemma_merge_steps(graph, stage.cmd_buffers, tiles, sub, around, id, child);
    lemma_edges_to_needs(
        m.graph,
        top.kind->render_task_id,
        top.extra_dependencies,
        id,
        child,
    );
    if id != top.kind->render_task_id {
        assert(id.index != top.kind->render_task_id.index);
    }
    let t = task(s.graph, id);
    assert forall|x: RenderTaskId| s.sources.contains(x) implies is_read(x) by {
        lemma_read_of_tile(graph, tiles, rect, x);
        let i = choose|i: int|
            0 <= i < tiles.len() && reads_tile(graph, (#[trigger] tiles[i]).1, rect) && x
                == opened(tiles[i].1, rect).current_task_id;
        assert(tiles[i].1.wf(graph));
        lemma_seen(graph, tiles[i].1, rect);
    }
    if s.affected.contains(id) {
        lemma_affected_of_tile(graph, stage.cmd_buffers, tiles, sub, id);
        let i = choose|i: int|
            #![trigger s.tiles[i]]
            0 <= i < tiles.len() && reads_tile(graph, tiles[i].1, rect)
                && s.tiles[i].1.deferred_task_id == Some(id);
        assert(tiles[i].1.wf(graph));
        lemma_seen(graph, tiles[i].1, rect);
        assert(!adds_task(graph, tiles[i].1, sub));
        assert(tiles[i].1.deferred_task_id == Some(id));
        assert(is_above);
    }
    assert forall|j: int| 0 <= j < s.sources.len() implies has_task(
        s.graph,
        #[trigger] s.sources[j],
    ) by {
        assert(has_task(graph, s.sources[j]));
    }
    if let Some(tile) = first_mapped(tiles) {
        lemma_initialized_needs(
            s.graph,
            s.sources,
            tile.slice_index,
            around.sources,
            around.projections,
            id,
            child,
        );
        lemma_initialized_kept(
            s.graph,
            s.sources,
            tile.slice_index,
            around.sources,
            around.projections,
        );
        let u = task(ready, id);
        let producers = producers_behind(
            tile.slice_index,
            around.sources,
            around.projections,
            id,
        );
        if producers.contains(child) {
            lemma_order_in_range(around.sources);
            lemma_producers_of_sources(
                around.sources,
                sources_by_slice(around.sources),
                tile.slice_index,
                around.projections[id].wanted_device_rect,
                around.projections[id].sources,
                child,
            );
        }
    }
    if needs(graph, id, child) && child != sub.output {
        assert(needs(s.graph, id, child));
    }
}

} // verus!
