//! Splicing a sub-graph into the surface that it reads.
//!
//! A sub-graph reads back what has been drawn on its parent, and its output is
//! drawn on the parent afterwards. So
//!
//! - a task that writes to the same place takes up where the parent's task
//!   stops,
//! - the parent's task is copied to the resolve target within the sub-graph,
//! - the resolve target depends on the parent's task, and
//! - the new task depends on the output of the sub-graph.

use vstd::prelude::*;

use crate::command_buffer::{
    lemma_filter_none, lemma_filter_take, tiles_wf, CommandBufferIndex, CommandBufferList,
};
use crate::filter_chain::{order_readers_after, readers_ordered};
use crate::geometry::PictureRect;
use crate::growth::{
    grows, keeps_work, lemma_edge_grows, lemma_grows_trans, lemma_keeps_refl, lemma_push_grows,
    lemma_slots_wf, lemma_tile_kept, lemma_update_grows, lemma_work_trans,
};
use crate::render_task_graph::{
    graph_wf, has_task, is_picture, task, with_edge, Graph, RenderTask, RenderTaskGraphBuilder,
    RenderTaskId, RenderTaskKind, RenderTaskLocation, TaskKindView, TaskView,
};
use crate::tile::{same_slots, SurfaceTileDescriptor, TileKey, TileMap, TileView, Tiles};

verus! {

/// The task that takes up where `id` stops: it draws other commands to the same
/// place, after `id`.
pub open spec fn continuation(
    graph: Graph,
    id: RenderTaskId,
    commands: CommandBufferIndex,
) -> TaskView {
    TaskView {
        location: RenderTaskLocation::Existing {
            parent_task_id: id,
            size: task(graph, id).location.extent(),
        },
        kind: TaskKindView::Picture(task(graph, id).picture().continued(commands)),
        children: seq![id],
    }
}

/// The tile, ready for a sub-graph to read `rect`: where a deferred output covers
/// a part of that, the sub-graph has to see it.
pub open spec fn opened(tile: TileView, rect: PictureRect) -> TileView {
    if tile.output_overlaps(rect) {
        tile.flushed()
    } else {
        tile
    }
}

/// Whether a sub-graph that reads `rect` reads the tile: it is drawn there, and
/// not straight into a surface that outlives the frame.
pub open spec fn reads_tile(graph: Graph, tile: TileView, rect: PictureRect) -> bool {
    &&& tile.dirty_rect.overlaps(rect)
    &&& !(task(graph, opened(tile, rect).current_task_id).location is Static)
}

/// Whether a sub-graph can read `rect`: every tile that is drawn there is drawn to
/// a place that a tile can have.
pub open spec fn readable(graph: Graph, tiles: Tiles, rect: PictureRect) -> bool {
    forall|i: int|
        0 <= i < tiles.len() && (#[trigger] tiles[i]).1.dirty_rect.overlaps(rect) ==> {
            let location = task(graph, opened(tiles[i].1, rect).current_task_id).location;
            location is Unallocated || location is Existing || location is Static
        }
}

/// The tasks that a sub-graph which reads `rect` reads, tile by tile.
pub open spec fn read_tasks(graph: Graph, tiles: Tiles, rect: PictureRect) -> Seq<RenderTaskId>
    decreases tiles.len(),
{
    if tiles.len() == 0 {
        Seq::empty()
    } else {
        let earlier = read_tasks(graph, tiles.drop_last(), rect);
        if reads_tile(graph, tiles.last().1, rect) {
            earlier.push(opened(tiles.last().1, rect).current_task_id)
        } else {
            earlier
        }
    }
}

/// The tasks other than `child`.
pub open spec fn other_than(child: RenderTaskId) -> spec_fn(RenderTaskId) -> bool {
    |id: RenderTaskId| id != child
}

/// The graph in which `parent` does not need `child`.
pub open spec fn without_child(graph: Graph, parent: RenderTaskId, child: RenderTaskId) -> Graph {
    graph.update(
        parent.index as int,
        TaskView {
            children: task(graph, parent).children.filter(other_than(child)),
            ..task(graph, parent)
        },
    )
}

/// A sub-graph, as the surface that it reads sees it.
pub struct SubGraph {
    /// The task that the surface is copied to.
    pub resolve_task: RenderTaskId,
    /// The part of the surface that is read.
    pub resolve_rect: PictureRect,
    /// The output of the sub-graph.
    pub output: RenderTaskId,
}

/// The tile after a sub-graph has been spliced in, where `next` is the next task
/// of the graph: what comes from the sub-graph is drawn by the deferred task of
/// the tile, which is the next task if there is none yet.
pub open spec fn spliced_tile(
    graph: Graph,
    tile: TileView,
    sub: SubGraph,
    next: RenderTaskId,
) -> TileView {
    let ready = opened(tile, sub.resolve_rect);
    if !tile.dirty_rect.overlaps(sub.resolve_rect) {
        tile
    } else if !reads_tile(graph, tile, sub.resolve_rect) {
        ready
    } else if ready.deferred_task_id is Some {
        ready.with_output(sub.resolve_rect)
    } else {
        TileView { deferred_task_id: Some(next), ..ready }.with_output(sub.resolve_rect)
    }
}

/// The graph after a sub-graph has been spliced into a tile. The task that the
/// sub-graph reads must not wait for its output; the resolve target waits for
/// that task; and a task takes up where it stops, unless the tile has one that
/// does.
pub open spec fn spliced_graph(
    graph: Graph,
    tile: TileView,
    sub: SubGraph,
    commands: CommandBufferIndex,
) -> Graph {
    let ready = opened(tile, sub.resolve_rect);
    let read = ready.current_task_id;
    let ordered = with_edge(without_child(graph, read, sub.output), sub.resolve_task, read);
    if !reads_tile(graph, tile, sub.resolve_rect) {
        graph
    } else if ready.deferred_task_id is Some {
        ordered
    } else {
        ordered.push(continuation(ordered, read, commands))
    }
}

/// What splicing a sub-graph into tiles makes of them and of the frame.
#[verifier::ext_equal]
pub struct Splice {
    /// The tasks of the frame.
    pub graph: Graph,
    /// The command buffers of the frame.
    pub cmd_buffers: Seq<Seq<u32>>,
    /// The tiles.
    pub tiles: Tiles,
    /// The tasks that the sub-graph reads.
    pub sources: Seq<RenderTaskId>,
    /// The tasks that draw the output of the sub-graph.
    pub affected: Seq<RenderTaskId>,
}

/// What splicing a sub-graph into one more tile makes of them.
pub open spec fn splice_one(s: Splice, key: TileKey, tile: TileView, sub: SubGraph) -> Splice {
    let next = RenderTaskId { index: s.graph.len() as usize };
    let commands = CommandBufferIndex(s.cmd_buffers.len() as usize);
    let after = spliced_tile(s.graph, tile, sub, next);
    let ready = opened(tile, sub.resolve_rect);
    let read = reads_tile(s.graph, tile, sub.resolve_rect);
    Splice {
        graph: spliced_graph(s.graph, tile, sub, commands),
        cmd_buffers: if read && ready.deferred_task_id is None {
            s.cmd_buffers.push(Seq::empty())
        } else {
            s.cmd_buffers
        },
        tiles: s.tiles.push((key, after)),
        sources: if read {
            s.sources.push(ready.current_task_id)
        } else {
            s.sources
        },
        affected: if read {
            s.affected.push(after.final_task())
        } else {
            s.affected
        },
    }
}

/// What splicing a sub-graph into every tile, in turn, makes of them.
pub open spec fn splice_all(
    graph: Graph,
    cmd_buffers: Seq<Seq<u32>>,
    tiles: Tiles,
    sub: SubGraph,
) -> Splice
    decreases tiles.len(),
{
    if tiles.len() == 0 {
        Splice {
            graph,
            cmd_buffers,
            tiles: Seq::empty(),
            sources: Seq::empty(),
            affected: Seq::empty(),
        }
    } else {
        splice_one(
            splice_all(graph, cmd_buffers, tiles.drop_last(), sub),
            tiles.last().0,
            tiles.last().1,
            sub,
        )
    }
}

/// The children of a task that are kept when one is left out are its children.
pub proof fn lemma_without_child_grows(graph: Graph, parent: RenderTaskId, child: RenderTaskId)
    requires
        graph_wf(graph),
        has_task(graph, parent),
    ensures
        grows(graph, without_child(graph, parent, child)),
        without_child(graph, parent, child).len() == graph.len(),
{
    let keep = other_than(child);
    let children = task(graph, parent).children;
    let changed = TaskView { children: children.filter(keep), ..task(graph, parent) };
    assert(graph[parent.index as int].sizable());
    assert forall|k: int| 0 <= k < changed.children.len() implies has_task(
        graph,
        #[trigger] changed.children[k],
    ) by {
        let kept = children.filter(keep);
        assert(kept.contains(kept[k]));
        children.lemma_filter_contains_rev(keep, kept[k]);
        let j = choose|j: int| 0 <= j < children.len() && children[j] == changed.children[k];
        assert(graph[parent.index as int].children[j] == changed.children[k]);
    }
    lemma_update_grows(graph, parent, changed);
}

/// Takes a task out of what another one depends on.
fn remove_children(
    rg_builder: &mut RenderTaskGraphBuilder,
    parent: RenderTaskId,
    child: RenderTaskId,
)
    requires
        has_task(old(rg_builder)@, parent),
    ensures
        final(rg_builder)@ == without_child(old(rg_builder)@, parent, child),
{
    let ghost children = task(rg_builder@, parent).children;
    let ghost keep = other_than(child);
    let parent_task = rg_builder.get_task_mut(parent);
    let mut kept: Vec<RenderTaskId> = Vec::new();
    let mut i: usize = 0;
    proof {
        lemma_filter_none(children, keep);
    }
    while i < parent_task.children.len()
        invariant
            i <= parent_task.children@.len(),
            parent_task.children@ == children,
            keep == other_than(child),
            kept@ == children.take(i as int).filter(keep),
        decreases parent_task.children@.len() - i,
    {
        let id = parent_task.children[i];
        proof {
            lemma_filter_take(children, i as int, keep);
        }
        if id != child {
            kept.push(id);
        }
        i = i + 1;
    }
    assert(children.take(children.len() as int) =~= children);
    parent_task.children = kept;
}

/// Adds the task that takes up where `id` stops.
fn continue_task(
    rg_builder: &mut RenderTaskGraphBuilder,
    cmd_buffers: &mut CommandBufferList,
    id: RenderTaskId,
) -> (next: RenderTaskId)
    requires
        graph_wf(old(rg_builder)@),
        is_picture(old(rg_builder)@, id),
    ensures
        next.index == old(rg_builder)@.len(),
        final(rg_builder)@ == old(rg_builder)@.push(
            continuation(
                old(rg_builder)@,
                id,
                CommandBufferIndex(old(cmd_buffers)@.len() as usize),
            ),
        ),
        final(cmd_buffers)@ == old(cmd_buffers)@.push(Seq::empty()),
        grows(old(rg_builder)@, final(rg_builder)@),
        keeps_work(old(rg_builder)@, final(rg_builder)@),
{
    let ghost graph = rg_builder@;
    assert(graph[id.index as int].sizable());
    let cmd_buffer_index = cmd_buffers.create_cmd_buffer();
    let ghost commands = CommandBufferIndex(old(cmd_buffers)@.len() as usize);
    assert(cmd_buffer_index == commands);
    let parent_task = rg_builder.get_task(id);
    let size = parent_task.location.size();
    match &parent_task.kind {
        RenderTaskKind::Picture(pic_task) => {
            let pic_task = pic_task.duplicate(cmd_buffer_index);
            let next = rg_builder.add(
                RenderTask::new(
                    RenderTaskLocation::Existing { parent_task_id: id, size },
                    RenderTaskKind::Picture(pic_task),
                ),
            );
            // The place is used again, so the parent's task has to come first.
            rg_builder.add_dependency(next, id);
            proof {
                let added = continuation(graph, id, commands);
                assert(Seq::<RenderTaskId>::empty().push(id) =~= seq![id]);
                assert(rg_builder@ =~= graph.push(added));
                assert(added.children[0] == id);
                lemma_push_grows(graph, added);
            }
            next
        },
        _ => {
            assert(false);
            id
        },
    }
}

/// Splices a sub-graph into a tile. Adds the task that is read, and the one that
/// draws the output, to their lists.
fn splice_tile(
    tile: &mut SurfaceTileDescriptor,
    rg_builder: &mut RenderTaskGraphBuilder,
    cmd_buffers: &mut CommandBufferList,
    sub: &SubGraph,
    src_task_ids: &mut Vec<RenderTaskId>,
    affected_task_ids: &mut Vec<RenderTaskId>,
)
    requires
        graph_wf(old(rg_builder)@),
        old(tile)@.wf(old(rg_builder)@),
        is_picture(old(rg_builder)@, sub.resolve_task),
    ensures
        final(tile)@ == spliced_tile(
            old(rg_builder)@,
            old(tile)@,
            *sub,
            RenderTaskId { index: old(rg_builder)@.len() as usize },
        ),
        final(rg_builder)@ == spliced_graph(
            old(rg_builder)@,
            old(tile)@,
            *sub,
            CommandBufferIndex(old(cmd_buffers)@.len() as usize),
        ),
        final(cmd_buffers)@ == (if reads_tile(old(rg_builder)@, old(tile)@, sub.resolve_rect)
            && opened(old(tile)@, sub.resolve_rect).deferred_task_id is None {
            old(cmd_buffers)@.push(Seq::empty())
        } else {
            old(cmd_buffers)@
        }),
        final(src_task_ids)@ == (if reads_tile(
            old(rg_builder)@,
            old(tile)@,
            sub.resolve_rect,
        ) {
            old(src_task_ids)@.push(opened(old(tile)@, sub.resolve_rect).current_task_id)
        } else {
            old(src_task_ids)@
        }),
        final(affected_task_ids)@ == (if reads_tile(
            old(rg_builder)@,
            old(tile)@,
            sub.resolve_rect,
        ) {
            old(affected_task_ids)@.push(final(tile)@.final_task())
        } else {
            old(affected_task_ids)@
        }),
        grows(old(rg_builder)@, final(rg_builder)@),
        keeps_work(old(rg_builder)@, final(rg_builder)@),
        final(tile)@.wf(final(rg_builder)@),
        final(tile)@.composite_task_id == old(tile)@.composite_task_id,
        reads_tile(old(rg_builder)@, old(tile)@, sub.resolve_rect) ==> is_picture(
            final(rg_builder)@,
            final(tile)@.final_task(),
        ),
{
    let ghost graph = rg_builder@;
    let ghost tile0 = tile@;
    proof {
        lemma_keeps_refl(graph);
    }
    if !tile.dirty_rect.intersects(&sub.resolve_rect) {
        return ;
    }
    if tile.deferred_output_intersects(&sub.resolve_rect) {
        tile.flush_deferred_backdrops();
    }
    let parent_task_id = tile.current_task_id;
    let ghost ready = tile@;
    assert(ready == opened(tile0, sub.resolve_rect));
    assert(is_picture(graph, parent_task_id));
    let is_static: bool = match rg_builder.get_task(parent_task_id).location {
        RenderTaskLocation::Static { .. } => true,
        _ => false,
    };
    if is_static {
        return ;
    }
    remove_children(rg_builder, parent_task_id, sub.output);
    let ghost pruned = rg_builder@;
    src_task_ids.push(parent_task_id);
    proof {
        lemma_without_child_grows(graph, parent_task_id, sub.output);
        lemma_edge_grows(pruned, sub.resolve_task, parent_task_id);
    }
    rg_builder.add_dependency(sub.resolve_task, parent_task_id);
    let ghost ordered = rg_builder@;
    proof {
        lemma_grows_trans(graph, pruned, ordered);
        assert(keeps_work(graph, pruned));
        assert(keeps_work(pruned, ordered));
        lemma_work_trans(graph, pruned, ordered);
    }
    match tile.deferred_task_id {
        Some(task_id) => {
            tile.add_deferred_output_rect(sub.resolve_rect);
            affected_task_ids.push(task_id);
        },
        None => {
            assert(is_picture(ordered, parent_task_id));
            let task_id = continue_task(rg_builder, cmd_buffers, parent_task_id);
            tile.deferred_task_id = Some(task_id);
            tile.add_deferred_output_rect(sub.resolve_rect);
            affected_task_ids.push(task_id);
            proof {
                lemma_grows_trans(graph, ordered, rg_builder@);
                lemma_work_trans(graph, ordered, rg_builder@);
            }
        },
    }
    proof {
        let after = rg_builder@;
        let a = task(after, tile@.current_task_id);
        let b = task(after, tile@.deferred_task_id->0);
        let c = task(after, tile@.composite_task_id->0);
        let d = task(graph, tile0.deferred_task_id->0);
    }
}

/// Splices a sub-graph into the tiles of the surface that it reads. Lists the
/// tasks that are read, and those that draw the output.
pub fn splice_tiles(
    tiles: &mut TileMap,
    rg_builder: &mut RenderTaskGraphBuilder,
    cmd_buffers: &mut CommandBufferList,
    sub: &SubGraph,
) -> (r: (Vec<RenderTaskId>, Vec<RenderTaskId>))
    requires
        graph_wf(old(rg_builder)@),
        tiles_wf(old(tiles)@, old(rg_builder)@),
        is_picture(old(rg_builder)@, sub.resolve_task),
    ensures
        splice_all(old(rg_builder)@, old(cmd_buffers)@, old(tiles)@, *sub) == (Splice {
            graph: final(rg_builder)@,
            cmd_buffers: final(cmd_buffers)@,
            tiles: final(tiles)@,
            sources: r.0@,
            affected: r.1@,
        }),
        r.0@ == read_tasks(old(rg_builder)@, old(tiles)@, sub.resolve_rect),
        forall|k: int| 0 <= k < r.0@.len() ==> is_picture(old(rg_builder)@, #[trigger] r.0@[k]),
        forall|k: int| 0 <= k < r.1@.len() ==> has_task(final(rg_builder)@, #[trigger] r.1@[k]),
        grows(old(rg_builder)@, final(rg_builder)@),
        keeps_work(old(rg_builder)@, final(rg_builder)@),
        tiles_wf(final(tiles)@, final(rg_builder)@),
        same_slots(old(tiles)@, final(tiles)@),
{
    let ghost graph = rg_builder@;
    let ghost buffers = cmd_buffers@;
    let ghost tiles0 = tiles@;
    let mut src_task_ids: Vec<RenderTaskId> = Vec::new();
    let mut affected_task_ids: Vec<RenderTaskId> = Vec::new();
    let mut n: usize = 0;
    proof {
        lemma_keeps_refl(graph);
        assert(tiles0.take(0) =~= Seq::<(TileKey, TileView)>::empty());
        assert(tiles@.take(0) =~= Seq::<(TileKey, TileView)>::empty());
    }
    while n < tiles.len()
        invariant
            n <= tiles0.len(),
            tiles@.len() == tiles0.len(),
            graph_wf(graph),
            tiles_wf(tiles0, graph),
            is_picture(graph, sub.resolve_task),
            grows(graph, rg_builder@),
            keeps_work(graph, rg_builder@),
            splice_all(graph, buffers, tiles0.take(n as int), *sub) == (Splice {
                graph: rg_builder@,
                cmd_buffers: cmd_buffers@,
                tiles: tiles@.take(n as int),
                sources: src_task_ids@,
                affected: affected_task_ids@,
            }),
            src_task_ids@ == read_tasks(graph, tiles0.take(n as int), sub.resolve_rect),
            forall|k: int|
                0 <= k < src_task_ids@.len() ==> is_picture(graph, #[trigger] src_task_ids@[k]),
            forall|k: int|
                0 <= k < affected_task_ids@.len() ==> has_task(
                    rg_builder@,
                    #[trigger] affected_task_ids@[k],
                ),
            forall|i: int| n <= i < tiles0.len() ==> #[trigger] tiles@[i] == tiles0[i],
            forall|i: int|
                #![trigger tiles@[i]]
                0 <= i < n ==> tiles@[i].1.wf(rg_builder@) && tiles@[i].0 == tiles0[i].0
                    && tiles@[i].1.composite_task_id == tiles0[i].1.composite_task_id,
        decreases tiles0.len() - n,
    {
        let ghost before = rg_builder@;
        let ghost tiles_before = tiles@;
        let ghost tile0 = tiles0[n as int].1;
        proof {
            assert(tiles@[n as int] == tiles0[n as int]);
            assert(tile0.wf(graph));
            lemma_tile_kept(tile0, graph, before);
            let t = task(before, sub.resolve_task);
            let c = task(before, opened(tile0, sub.resolve_rect).current_task_id);
        }
        splice_tile(
            tiles.tile_at_mut(n),
            rg_builder,
            cmd_buffers,
            sub,
            &mut src_task_ids,
            &mut affected_task_ids,
        );
        proof {
            let after = rg_builder@;
            lemma_grows_trans(graph, before, after);
            lemma_work_trans(graph, before, after);
            assert(tiles0.take(n + 1).drop_last() =~= tiles0.take(n as int));
            assert(tiles0.take(n + 1).last() == tiles0[n as int]);
            assert(tiles@.take(n + 1) =~= tiles_before.take(n as int).push(tiles@[n as int]));
            assert forall|i: int|
                #![trigger tiles@[i]]
                0 <= i < n implies tiles@[i].1.wf(after) by {
                assert(tiles@[i] == tiles_before[i]);
                lemma_tile_kept(tiles_before[i].1, before, after);
            }
        }
        n = n + 1;
    }
    proof {
        assert(tiles0.take(tiles0.len() as int) =~= tiles0);
        assert(tiles@.take(tiles@.len() as int) =~= tiles@);
        lemma_slots_wf(tiles0, tiles@, graph, rg_builder@);
    }
    (src_task_ids, affected_task_ids)
}

/// Whether a sub-graph can read `rect`.
pub fn is_readable(
    tiles: &TileMap,
    rg_builder: &RenderTaskGraphBuilder,
    rect: &PictureRect,
) -> (r: bool)
    requires
        tiles_wf(tiles@, rg_builder@),
    ensures
        r == readable(rg_builder@, tiles@, *rect),
{
    let mut i: usize = 0;
    while i < tiles.len()
        invariant
            i <= tiles@.len(),
            tiles_wf(tiles@, rg_builder@),
            forall|j: int|
                0 <= j < i && (#[trigger] tiles@[j]).1.dirty_rect.overlaps(*rect) ==> {
                    let location = task(
                        rg_builder@,
                        opened(tiles@[j].1, *rect).current_task_id,
                    ).location;
                    location is Unallocated || location is Existing || location is Static
                },
        decreases tiles@.len() - i,
    {
        let tile = tiles.tile_at(i);
        assert(tile@ == tiles@[i as int].1 && tile@.wf(rg_builder@));
        if tile.dirty_rect.intersects(rect) {
            let read = if tile.deferred_output_intersects(rect) {
                tile.final_task_id()
            } else {
                tile.current_task_id
            };
            assert(read == opened(tile@, *rect).current_task_id);
            match rg_builder.get_task(read).location {
                RenderTaskLocation::Unallocated { .. } => {},
                RenderTaskLocation::Existing { .. } => {},
                RenderTaskLocation::Static { .. } => {},
                _ => return false,
            }
        }
        i = i + 1;
    }
    true
}

/// Lists the tasks that a sub-graph which reads `rect` reads.
pub fn list_read_tasks(
    tiles: &TileMap,
    rg_builder: &RenderTaskGraphBuilder,
    rect: &PictureRect,
) -> (r: Vec<RenderTaskId>)
    requires
        tiles_wf(tiles@, rg_builder@),
    ensures
        r@ == read_tasks(rg_builder@, tiles@, *rect),
        forall|k: int| 0 <= k < r@.len() ==> has_task(rg_builder@, #[trigger] r@[k]),
{
    let mut r: Vec<RenderTaskId> = Vec::new();
    let mut i: usize = 0;
    assert(tiles@.take(0) =~= Seq::<(TileKey, TileView)>::empty());
    while i < tiles.len()
        invariant
            i <= tiles@.len(),
            tiles_wf(tiles@, rg_builder@),
            r@ == read_tasks(rg_builder@, tiles@.take(i as int), *rect),
            forall|k: int| 0 <= k < r@.len() ==> has_task(rg_builder@, #[trigger] r@[k]),
        decreases tiles@.len() - i,
    {
        let tile = tiles.tile_at(i);
        proof {
            assert(tiles@.take(i + 1).drop_last() =~= tiles@.take(i as int));
            assert(tiles@.take(i + 1).last() == tiles@[i as int]);
            assert(tile@.wf(rg_builder@));
        }
        if tile.dirty_rect.intersects(rect) {
            let read = if tile.deferred_output_intersects(rect) {
                tile.final_task_id()
            } else {
                tile.current_task_id
            };
            assert(read == opened(tile@, *rect).current_task_id);
            let is_static: bool = match rg_builder.get_task(read).location {
                RenderTaskLocation::Static { .. } => true,
                _ => false,
            };
            if !is_static {
                r.push(read);
            }
        }
        i = i + 1;
    }
    assert(tiles@.take(tiles@.len() as int) =~= tiles@);
    r
}

/// A simple surface after a sub-graph has been spliced into it.
pub struct SimpleSplice {
    /// The tasks of the frame.
    pub graph: Graph,
    /// The task that commands are added to now.
    pub next: RenderTaskId,
}

/// What splicing a sub-graph into a simple surface makes of the graph: the
/// resolve target waits for the surface's task; a task takes up where that one
/// stops; and what filters the surface waits for the new task.
pub open spec fn spliced_simple(
    graph: Graph,
    commands: CommandBufferIndex,
    render_task: RenderTaskId,
    root_task: Option<RenderTaskId>,
    sub: SubGraph,
) -> SimpleSplice {
    let next = RenderTaskId { index: graph.len() as usize };
    let ordered = with_edge(graph, sub.resolve_task, render_task);
    let continued = ordered.push(continuation(ordered, render_task, commands));
    SimpleSplice {
        graph: match root_task {
            Some(root) => readers_ordered(continued, root, render_task, next),
            None => continued,
        },
        next,
    }
}

/// The readers of a chain may be ordered after a task.
proof fn lemma_readers_grow(
    graph: Graph,
    root: RenderTaskId,
    src: RenderTaskId,
    dep: RenderTaskId,
)
    requires
        graph_wf(graph),
        has_task(graph, dep),
    ensures
        grows(graph, readers_ordered(graph, root, src, dep)),
        keeps_work(graph, readers_ordered(graph, root, src, dep)),
{
    let after = readers_ordered(graph, root, src, dep);
    assert forall|i: int, k: int|
        #![trigger after[i].children[k]]
        0 <= i < after.len() && 0 <= k < after[i].children.len() implies has_task(
        after,
        after[i].children[k],
    ) by {
        if k < graph[i].children.len() {
            assert(after[i].children[k] == graph[i].children[k]);
            assert(has_task(graph, graph[i].children[k]));
        }
    }
    assert forall|i: int| 0 <= i < after.len() implies (#[trigger] after[i]).sizable() by {
        assert(graph[i].sizable());
    }
    assert forall|id: RenderTaskId|
        #![trigger task(after, id)]
        #![trigger task(graph, id)]
        has_task(graph, id) implies task(after, id).location == task(graph, id).location && task(
        after,
        id,
    ).kind == task(graph, id).kind by {
        assert(after[id.index as int].kind == graph[id.index as int].kind);
    }
}

/// Splices a sub-graph into a simple surface. Gives the task that commands are
/// added to now.
pub fn splice_simple(
    rg_builder: &mut RenderTaskGraphBuilder,
    cmd_buffers: &mut CommandBufferList,
    parent_task_id: RenderTaskId,
    parent_root_task_id: Option<RenderTaskId>,
    sub: &SubGraph,
) -> (next: RenderTaskId)
    requires
        graph_wf(old(rg_builder)@),
        is_picture(old(rg_builder)@, parent_task_id),
        is_picture(old(rg_builder)@, sub.resolve_task),
        parent_root_task_id matches Some(root) ==> has_task(old(rg_builder)@, root),
    ensures
        spliced_simple(
            old(rg_builder)@,
            CommandBufferIndex(old(cmd_buffers)@.len() as usize),
            parent_task_id,
            parent_root_task_id,
            *sub,
        ) == (SimpleSplice { graph: final(rg_builder)@, next }),
        final(cmd_buffers)@ == old(cmd_buffers)@.push(Seq::empty()),
        grows(old(rg_builder)@, final(rg_builder)@),
        keeps_work(old(rg_builder)@, final(rg_builder)@),
        is_picture(final(rg_builder)@, next),
{
    let ghost graph = rg_builder@;
    proof {
        lemma_edge_grows(graph, sub.resolve_task, parent_task_id);
    }
    // The surface as it is comes before the resolve target.
    rg_builder.add_dependency(sub.resolve_task, parent_task_id);
    let ghost ordered = rg_builder@;
    proof {
        assert(keeps_work(graph, ordered));
        let t = task(ordered, parent_task_id);
        assert(is_picture(ordered, parent_task_id));
    }
    let next = continue_task(rg_builder, cmd_buffers, parent_task_id);
    let ghost continued = rg_builder@;
    proof {
        lemma_grows_trans(graph, ordered, continued);
        lemma_work_trans(graph, ordered, continued);
        assert(task(continued, next).kind is Picture);
    }
    // What filters the surface reads the place that the new task draws to. It
    // has to run after that, or what is drawn there would be missing.
    if let Some(root_task_id) = parent_root_task_id {
        order_readers_after(rg_builder, root_task_id, parent_task_id, next);
        proof {
            lemma_readers_grow(continued, root_task_id, parent_task_id, next);
            lemma_grows_trans(graph, continued, rg_builder@);
            lemma_work_trans(graph, continued, rg_builder@);
            let t = task(rg_builder@, next);
        }
    }
    next
}

} // verus!
