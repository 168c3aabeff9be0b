//! What finishing a surface hands to whom: said of tasks and what they need.

use vstd::prelude::*;

use crate::command_buffer::{surface_targets, tiles_wf, BuilderKindView};
use crate::deferral::lemma_settled_others;
use crate::dependency_laws::{law_extras_leave_others, lemma_edges_from_needs, lemma_edges_to_needs};
use crate::draw_laws::{draws_surface, lemma_drawing_tasks_draw};
use crate::finish::{drawing_tasks, lemma_drawing_tasks, settled, settled_tile, tiles_with_edges_to};
use crate::growth::lemma_work_trans;
use crate::merge::Surroundings;
use crate::merge_laws::{
    holding_tasks, law_composites_wait, law_extras_needed, lemma_edges_from_kept, lemma_held,
    needs,
};
use crate::render_task_graph::{
    graph_wf, has_task, is_picture, task, Graph, PictureTaskView, RenderTargetKind, RenderTaskId,
    RenderTaskLocation, TaskKindView, TaskView, TileCompositeTask,
};
use crate::surface::{handed_on, popped, PictureIndex, Stage};
use crate::tile::{TileView, Tiles};

verus! {

/// The task that holds all that is drawn on a tile.
pub open spec fn last_task(tile: TileView) -> RenderTaskId {
    match tile.deferred_task_id {
        Some(id) => id,
        None => tile.current_task_id,
    }
}

/// Whether the task that draws the deferred outputs of a tile fits the slot of the tile,
/// so that it can draw there itself: the slot outlives the frame, the task draws over
/// another one, and it is just as large as what is copied, from the same corner.
pub open spec fn fits_slot(graph: Graph, tile: TileView) -> bool {
    &&& tile.composite_task_id is Some
    &&& tile.deferred_task_id is Some
    &&& {
        let slot = task(graph, tile.composite_task_id->0);
        let drawn = task(graph, tile.deferred_task_id->0);
        let info = slot.kind->TileComposite_0;
        &&& slot.location is Static
        &&& drawn.location is Existing
        &&& info.sub_rect_offset.x == 0
        &&& info.sub_rect_offset.y == 0
        &&& drawn.location->Existing_size.width == info.scissor_rect.max.x
            - info.scissor_rect.min.x
        &&& drawn.location->Existing_size.height == info.scissor_rect.max.y
            - info.scissor_rect.min.y
    }
}

/// Whether the task of a slot copies what `id` holds into it, and is as it was otherwise.
pub open spec fn copies_into_slot(before: TaskView, after: TaskView, id: RenderTaskId) -> bool {
    &&& after.kind matches TaskKindView::TileComposite(info) && info == (TileCompositeTask {
        task_id: Some(id),
        ..before.kind->TileComposite_0
    })
    &&& after.location == before.location
    &&& after.children == before.children.push(id)
}

/// Whether the task of a slot does nothing but wait for `id`.
pub open spec fn leaves_slot_to(before: TaskView, after: TaskView, id: RenderTaskId) -> bool {
    &&& after.kind == (TaskKindView::Cached { target_kind: RenderTargetKind::Color })
    &&& after.location == before.location
    &&& after.children == before.children.push(id)
}

/// Whether a task that drew over another one draws into a slot: first it copies the other
/// one as it is, and it keeps to what the slot's task would have copied.
pub open spec fn draws_into_slot(
    before: TaskView,
    after: TaskView,
    slot: TaskView,
    id: RenderTaskId,
) -> bool {
    let info = slot.kind->TileComposite_0;
    &&& after.location == (RenderTaskLocation::Static {
        surface: slot.location->Static_surface,
        rect: info.scissor_rect,
    })
    &&& after.kind is Picture
    &&& after.kind->Picture_0 == (PictureTaskView {
        scissor_rect: Some(info.scissor_rect),
        valid_rect: Some(info.valid_rect),
        resolve_op: after.kind->Picture_0.resolve_op,
        ..before.kind->Picture_0
    })
    &&& after.kind->Picture_0.resolve_op matches Some(op) && {
        &&& op.src_task_ids.len() == 1
        &&& op.src_task_ids[0] == before.location->Existing_parent_task_id
        &&& op.sources.len() == 0
        &&& op.dest_task_id == id
        &&& op.dest_to_src_raster.scale_x.bits == 0x3f80_0000
        &&& op.dest_to_src_raster.scale_y.bits == 0x3f80_0000
        &&& op.dest_to_src_raster.offset_x.bits == 0
        &&& op.dest_to_src_raster.offset_y.bits == 0
    }
}

/// The tiles without the last are well formed.
proof fn lemma_shorter_wf(tiles: Tiles, graph: Graph)
    requires
        tiles_wf(tiles, graph),
        tiles.len() > 0,
    ensures
        tiles_wf(tiles.drop_last(), graph),
{
    let shorter = tiles.drop_last();
    assert forall|i: int| 0 <= i < shorter.len() implies (#[trigger] shorter[i]).1.wf(graph)
        && shorter[i].0.sub_slice_index.in_range() by {
        assert(shorter[i] == tiles[i]);
    }
    assert forall|i: int, j: int|
        #![trigger shorter[i], shorter[j]]
        0 <= i < j < shorter.len() implies shorter[i].0 != shorter[j].0 && (
    shorter[i].1.composite_task_id is Some ==> shorter[i].1.composite_task_id
        != shorter[j].1.composite_task_id) by {
        assert(tiles[i].0 != tiles[j].0);
    }
}

/// The task that composites a tile is not changed when other tiles are handed over.
proof fn lemma_slot_of_others(graph: Graph, tiles: Tiles, c: RenderTaskId)
    requires
        tiles_wf(tiles, graph),
        has_task(graph, c),
        task(graph, c).kind is TileComposite,
        forall|a: int|
            0 <= a < tiles.len() ==> (#[trigger] tiles[a]).1.composite_task_id != Some(c),
    ensures
        settled(graph, tiles).len() == graph.len(),
        task(settled(graph, tiles), c) == task(graph, c),
{
    assert forall|a: int|
        #![trigger tiles[a]]
        0 <= a < tiles.len() implies {
        &&& tiles[a].1.composite_task_id matches Some(d) ==> has_task(graph, d) && d != c
        &&& tiles[a].1.deferred_task_id matches Some(d) ==> has_task(graph, d) && d != c
    } by {
        assert(tiles[a].1.wf(graph));
    }
    lemma_settled_others(graph, tiles, c);
}

/// What handing tiles over does to the slot of one of them, and to the task that draws its
/// deferred outputs.
#[verifier::rlimit(40)]
proof fn lemma_slot_settled(graph: Graph, tiles: Tiles, i: int)
    requires
        graph_wf(graph),
        tiles_wf(tiles, graph),
        0 <= i < tiles.len(),
        tiles[i].1.composite_task_id is Some,
    ensures
        ({
            let tile = tiles[i].1;
            let c = tile.composite_task_id->0;
            let id = last_task(tile);
            let after = settled(graph, tiles);
            let alone = tile.deferred_task_id is Some ==> forall|b: int|
                0 <= b < tiles.len() && b != i ==> (#[trigger] tiles[b]).1.deferred_task_id
                    != tile.deferred_task_id;
            &&& after.len() == graph.len()
            &&& copies_into_slot(task(graph, c), task(after, c), id) || leaves_slot_to(
                task(graph, c),
                task(after, c),
                id,
            )
            &&& alone ==> {
                &&& fits_slot(graph, tile) ==> leaves_slot_to(task(graph, c), task(after, c), id)
                    && draws_into_slot(task(graph, id), task(after, id), task(graph, c), id)
                    && task(after, id).children == task(graph, id).children
                &&& !fits_slot(graph, tile) ==> copies_into_slot(
                    task(graph, c),
                    task(after, c),
                    id,
                )
                &&& !fits_slot(graph, tile) && tile.deferred_task_id is Some ==> task(after, id)
                    == task(graph, id)
            }
        }),
    decreases tiles.len(),
{
    let tile = tiles[i].1;
    let c = tile.composite_task_id->0;
    let id = last_task(tile);
    let shorter = tiles.drop_last();
    let n = shorter.len() as int;
    let last = tiles[n].1;
    let before = settled(graph, shorter);
    let after = settled(graph, tiles);
    lemma_shorter_wf(tiles, graph);
    assert(tile.wf(graph));
    assert(last.wf(graph));
    assert(graph[c.index as int].sizable());
    law_composites_wait(graph, shorter);
    assert(after == settled_tile(before, last));
    let alone = tile.deferred_task_id is Some ==> forall|b: int|
        0 <= b < tiles.len() && b != i ==> (#[trigger] tiles[b]).1.deferred_task_id
            != tile.deferred_task_id;
    assert(c != id) by {
        assert(is_picture(graph, id));
    }
    assert(c.index != id.index);
    if i < n {
        assert(shorter[i] == tiles[i]);
        lemma_slot_settled(graph, shorter, i);
        if alone && tile.deferred_task_id is Some {
            assert forall|b: int| 0 <= b < shorter.len() && b != i implies (
            #[trigger] shorter[b]).1.deferred_task_id != tile.deferred_task_id by {
                assert(shorter[b] == tiles[b]);
            }
        }
        assert(tiles[i].1.composite_task_id != tiles[n].1.composite_task_id);
        assert(last.composite_task_id matches Some(d) ==> d.index != c.index);
        assert(last.deferred_task_id matches Some(d) ==> d.index != c.index);
        assert(task(after, c) == task(before, c));
        if alone && tile.deferred_task_id is Some {
            assert(tiles[n].1.deferred_task_id != tile.deferred_task_id);
            assert(last.deferred_task_id matches Some(d) ==> d.index != id.index);
            assert(last.composite_task_id matches Some(d) ==> d.index != id.index);
            assert(task(after, id) == task(before, id));
        }
    } else {
        assert forall|a: int| 0 <= a < shorter.len() implies (
        #[trigger] shorter[a]).1.composite_task_id != Some(c) by {
            assert(shorter[a] == tiles[a]);
            assert(tiles[a].1.composite_task_id != tiles[i].1.composite_task_id
                || tiles[a].1.composite_task_id is None);
        }
        lemma_slot_of_others(graph, shorter, c);
        if alone && tile.deferred_task_id is Some {
            assert forall|a: int|
                #![trigger shorter[a]]
                0 <= a < shorter.len() implies {
                &&& shorter[a].1.composite_task_id matches Some(d) ==> has_task(graph, d) && d
                    != id
                &&& shorter[a].1.deferred_task_id matches Some(d) ==> has_task(graph, d) && d
                    != id
            } by {
                assert(shorter[a] == tiles[a]);
                assert(tiles[a].1.wf(graph));
            }
            lemma_settled_others(graph, shorter, id);
        }
        let info = task(graph, c).kind->TileComposite_0;
        assert(info.scissor_rect.sizable());
        assert(task(after, c).children =~= task(graph, c).children.push(id));
    }
}

/// Finishing a tiled surface hands every tile to the task of its slot. Unless the task that
/// draws the deferred outputs draws into the slot itself, the task of the slot copies what
/// the last task of the tile holds. It waits for that task in either case.
pub proof fn law_finished_tile_reaches_its_slot(
    stage: Stage,
    pic_index: PictureIndex,
    around: Surroundings,
    i: int,
)
    requires
        stage.surfaces.wf(stage.graph),
        stage.surfaces.stack.len() > 0,
        stage.surfaces.top().kind is Tiled,
        0 <= i < stage.surfaces.top().kind->tiles.len(),
        stage.surfaces.top().kind->tiles[i].1.composite_task_id is Some,
    ensures
        ({
            let tiles = stage.surfaces.top().kind->tiles;
            let tile = tiles[i].1;
            let c = tile.composite_task_id->0;
            let id = last_task(tile);
            let graph = stage.graph;
            let after = popped(stage, pic_index, around).graph;
            let alone = tile.deferred_task_id is Some ==> forall|b: int|
                0 <= b < tiles.len() && b != i ==> (#[trigger] tiles[b]).1.deferred_task_id
                    != tile.deferred_task_id;
            &&& copies_into_slot(task(graph, c), task(after, c), id) || leaves_slot_to(
                task(graph, c),
                task(after, c),
                id,
            )
            &&& alone && fits_slot(graph, tile) ==> {
                &&& leaves_slot_to(task(graph, c), task(after, c), id)
                &&& draws_into_slot(task(graph, id), task(after, id), task(graph, c), id)
            }
            &&& alone && !fits_slot(graph, tile) ==> {
                &&& copies_into_slot(task(graph, c), task(after, c), id)
                &&& tile.deferred_task_id is Some ==> task(after, id).location == task(
                    graph,
                    id,
                ).location && task(after, id).kind == task(graph, id).kind
            }
        }),
{
    let stack = stage.surfaces.stack;
    let top = stage.surfaces.top();
    let tiles = top.kind->tiles;
    let tile = tiles[i].1;
    let c = tile.composite_task_id->0;
    let id = last_task(tile);
    let graph = stage.graph;
    let handed = handed_on(stage, pic_index, around).graph;
    let after = popped(stage, pic_index, around).graph;
    assert(stack[stack.len() - 1].wf(graph));
    assert(handed == settled(graph, tiles));
    assert(tile.wf(graph));
    lemma_slot_settled(graph, tiles, i);
    lemma_held(top.kind, graph, handed);
    law_extras_needed(handed, top.kind, top.extra_dependencies);
    let holders = holding_tasks(top.kind);
    assert(!holders.contains(c)) by {
        if holders.contains(c) {
            let k = choose|k: int| 0 <= k < holders.len() && holders[k] == c;
            assert(tiles[k].1.wf(graph));
            assert(tiles[k].1.final_task() == c);
        }
    }
    law_extras_leave_others(handed, top.kind, top.extra_dependencies, c);
    let t = task(after, id);
    assert(is_picture(graph, id));
}

/// Finishing a tiled surface leaves the surfaces below, the outputs of sub-graphs and the
/// commands as they are. Every last task of a tile needs all that was added to the surface,
/// and no task stops needing anything. A task that neither is the slot of a tile nor the
/// last task of one stays as it is. Only slots come to need anything besides, and only slots
/// and the tasks of deferred outputs to draw anything else or to another place.
pub proof fn law_finished_tiles_change_nothing_else(
    stage: Stage,
    pic_index: PictureIndex,
    around: Surroundings,
    id: RenderTaskId,
)
    requires
        stage.surfaces.wf(stage.graph),
        stage.surfaces.stack.len() > 0,
        stage.surfaces.top().kind is Tiled,
        has_task(stage.graph, id),
    ensures
        ({
            let top = stage.surfaces.top();
            let tiles = top.kind->tiles;
            let after = popped(stage, pic_index, around);
            let is_slot = exists|i: int|
                0 <= i < tiles.len() && (#[trigger] tiles[i]).1.composite_task_id == Some(id);
            let is_last = exists|i: int| 0 <= i < tiles.len() && last_task((#[trigger] tiles[i]).1)
                == id;
            let is_deferred = exists|i: int|
                0 <= i < tiles.len() && (#[trigger] tiles[i]).1.deferred_task_id == Some(id);
            &&& after.surfaces.stack == stage.surfaces.stack.drop_last()
            &&& after.surfaces.outputs == stage.surfaces.outputs
            &&& after.surfaces.sources == stage.surfaces.sources
            &&& after.cmd_buffers == stage.cmd_buffers
            &&& after.graph.len() == stage.graph.len()
            &&& !is_slot && !is_last ==> task(after.graph, id) == task(stage.graph, id)
            &&& is_last ==> forall|k: int|
                0 <= k < top.extra_dependencies.len() ==> needs(
                    after.graph,
                    id,
                    #[trigger] top.extra_dependencies[k],
                )
            &&& forall|child: RenderTaskId|
                needs(stage.graph, id, child) ==> #[trigger] needs(after.graph, id, child)
            &&& !is_slot ==> forall|child: RenderTaskId| #[trigger]
                needs(after.graph, id, child) ==> needs(stage.graph, id, child) || (is_last
                    && top.extra_dependencies.contains(child))
            &&& !is_slot && !is_deferred ==> task(after.graph, id).location == task(
                stage.graph,
                id,
            ).location && task(after.graph, id).kind == task(stage.graph, id).kind
        }),
{
    let stack = stage.surfaces.stack;
    let top = stage.surfaces.top();
    let tiles = top.kind->tiles;
    let graph = stage.graph;
    let handed = handed_on(stage, pic_index, around).graph;
    let after = popped(stage, pic_index, around);
    assert(stack[stack.len() - 1].wf(graph));
    law_composites_wait(graph, tiles);
    lemma_held(top.kind, graph, handed);
    law_extras_needed(handed, top.kind, top.extra_dependencies);
    let holders = holding_tasks(top.kind);
    let is_slot = exists|i: int|
        0 <= i < tiles.len() && (#[trigger] tiles[i]).1.composite_task_id == Some(id);
    let is_last = exists|i: int| 0 <= i < tiles.len() && last_task((#[trigger] tiles[i]).1) == id;
    if is_last {
        let i = choose|i: int| 0 <= i < tiles.len() && last_task((#[trigger] tiles[i]).1) == id;
        assert(holders[i] == id);
    } else {
        assert(!holders.contains(id)) by {
            if holders.contains(id) {
                let k = choose|k: int| 0 <= k < holders.len() && holders[k] == id;
                assert(last_task(tiles[k].1) == id);
            }
        }
        law_extras_leave_others(handed, top.kind, top.extra_dependencies, id);
        if !is_slot {
            assert forall|a: int|
                #![trigger tiles[a]]
                0 <= a < tiles.len() implies {
                &&& tiles[a].1.composite_task_id matches Some(d) ==> has_task(graph, d) && d
                    != id
                &&& tiles[a].1.deferred_task_id matches Some(d) ==> has_task(graph, d) && d
                    != id
            } by {
                assert(tiles[a].1.wf(graph));
                assert(last_task(tiles[a].1) != id);
            }
            lemma_settled_others(graph, tiles, id);
        }
    }
    assert forall|child: RenderTaskId| needs(graph, id, child) implies #[trigger] needs(
        after.graph,
        id,
        child,
    ) by {
        assert(needs(handed, id, child));
    }
    if !is_slot {
        lemma_settled_children(graph, tiles, id);
        assert forall|child: RenderTaskId| #[trigger] needs(after.graph, id, child) implies needs(
            graph,
            id,
            child,
        ) || (is_last && top.extra_dependencies.contains(child)) by {
            lemma_extras_of_tiles(handed, tiles, top.extra_dependencies, id, child);
        }
        let is_deferred = exists|i: int|
            0 <= i < tiles.len() && (#[trigger] tiles[i]).1.deferred_task_id == Some(id);
        if !is_deferred {
            assert forall|a: int|
                #![trigger tiles[a]]
                0 <= a < tiles.len() implies {
                &&& tiles[a].1.composite_task_id matches Some(d) ==> has_task(graph, d) && d
                    != id
                &&& tiles[a].1.deferred_task_id matches Some(d) ==> has_task(graph, d) && d
                    != id
            } by {
                assert(tiles[a].1.wf(graph));
            }
            lemma_settled_others(graph, tiles, id);
            assert(task(after.graph, id).kind == task(handed, id).kind);
        }
    }
}

/// Handing tiles over changes what a task needs only where it composites one of them.
proof fn lemma_settled_children(graph: Graph, tiles: Tiles, id: RenderTaskId)
    requires
        tiles_wf(tiles, graph),
        has_task(graph, id),
        forall|a: int|
            0 <= a < tiles.len() ==> (#[trigger] tiles[a]).1.composite_task_id != Some(id),
    ensures
        settled(graph, tiles).len() == graph.len(),
        task(settled(graph, tiles), id).children == task(graph, id).children,
    decreases tiles.len(),
{
    if tiles.len() > 0 {
        let shorter = tiles.drop_last();
        lemma_shorter_wf(tiles, graph);
        assert forall|a: int| 0 <= a < shorter.len() implies (
        #[trigger] shorter[a]).1.composite_task_id != Some(id) by {
            assert(shorter[a] == tiles[a]);
        }
        lemma_settled_children(graph, shorter, id);
        let before = settled(graph, shorter);
        let tile = tiles[tiles.len() - 1].1;
        assert(tile.wf(graph));
        if let Some(c) = tile.composite_task_id {
            assert(c.index != id.index);
            assert(has_task(before, c));
            if let Some(d) = tile.deferred_task_id {
                if d != id {
                    assert(d.index != id.index);
                }
            }
        }
    }
}

/// What a task needs once what holds tiles needs more.
proof fn lemma_extras_of_tiles(
    graph: Graph,
    tiles: Tiles,
    children: Seq<RenderTaskId>,
    id: RenderTaskId,
    child: RenderTaskId,
)
    requires
        has_task(graph, id),
        forall|i: int|
            0 <= i < tiles.len() ==> has_task(graph, last_task((#[trigger] tiles[i]).1)),
    ensures
        tiles_with_edges_to(graph, tiles, children).len() == graph.len(),
        needs(tiles_with_edges_to(graph, tiles, children), id, child) <==> needs(graph, id, child)
            || (children.contains(child) && exists|i: int|
            0 <= i < tiles.len() && last_task((#[trigger] tiles[i]).1) == id),
    decreases tiles.len(),
{
    if tiles.len() > 0 {
        let shorter = tiles.drop_last();
        let n = shorter.len() as int;
        assert forall|i: int| 0 <= i < shorter.len() implies has_task(
            graph,
            last_task((#[trigger] shorter[i]).1),
        ) by {
            assert(shorter[i] == tiles[i]);
        }
        lemma_extras_of_tiles(graph, shorter, children, id, child);
        let before = tiles_with_edges_to(graph, shorter, children);
        assert(tiles[n] == tiles.last());
        lemma_edges_to_needs(before, last_task(tiles[n].1), children, id, child);
        if exists|i: int| 0 <= i < shorter.len() && last_task((#[trigger] shorter[i]).1) == id {
            let i = choose|i: int|
                0 <= i < shorter.len() && last_task((#[trigger] shorter[i]).1) == id;
            assert(last_task(tiles[i].1) == id);
        }
        if exists|i: int| 0 <= i < tiles.len() && last_task((#[trigger] tiles[i]).1) == id {
            let i = choose|i: int| 0 <= i < tiles.len() && last_task((#[trigger] tiles[i]).1) == id;
            if i < n {
                assert(shorter[i] == tiles[i]);
            }
        }
    }
}

/// The output of a surface that is drawn by a task of its own: that of the chain which
/// filters it, if there is one, and else its own.
pub open spec fn filtered_output(kind: BuilderKindView) -> RenderTaskId {
    if kind->root_task_id is Some {
        (kind->root_task_id)->0
    } else {
        kind->render_task_id
    }
}

/// Finishing a surface that is drawn by a task of its own, and reads nothing back, makes
/// every task that commands for the surface below go to need its output: that of the chain
/// which filters it, if there is one. Its own task needs what was added to it. Nothing else
/// changes, neither in the graph nor around it.
pub proof fn law_finished_surface_is_needed_below(
    stage: Stage,
    pic_index: PictureIndex,
    around: Surroundings,
    id: RenderTaskId,
    child: RenderTaskId,
)
    requires
        stage.surfaces.wf(stage.graph),
        stage.surfaces.stack.len() > 1,
        stage.surfaces.top().kind is Simple,
        stage.surfaces.top().establishes_sub_graph ==> stage.surfaces.top().resolve_source is None,
        has_task(stage.graph, id),
    ensures
        ({
            let stack = stage.surfaces.stack;
            let top = stage.surfaces.top();
            let after = popped(stage, pic_index, around);
            &&& after.surfaces.stack == stack.drop_last()
            &&& after.surfaces.outputs == stage.surfaces.outputs
            &&& after.surfaces.sources == stage.surfaces.sources
            &&& after.cmd_buffers == stage.cmd_buffers
            &&& after.graph.len() == stage.graph.len()
            &&& task(after.graph, id).location == task(stage.graph, id).location
            &&& task(after.graph, id).kind == task(stage.graph, id).kind
            &&& needs(after.graph, id, child) <==> {
                ||| needs(stage.graph, id, child)
                ||| draws_surface(stack[stack.len() - 2].kind, id) && child == filtered_output(
                    top.kind,
                )
                ||| id == top.kind->render_task_id && top.extra_dependencies.contains(child)
            }
        }),
{
    let graph = stage.graph;
    let stack = stage.surfaces.stack;
    let top = stage.surfaces.top();
    let below = stack.drop_last();
    let parent = stack[stack.len() - 2];
    let handed = handed_on(stage, pic_index, around);
    let after = popped(stage, pic_index, around);
    let output = filtered_output(top.kind);
    assert(below.last() == parent);
    assert(stack[stack.len() - 1].wf(graph));
    assert(parent.wf(graph));
    lemma_drawing_tasks(parent.kind, graph);
    lemma_edges_from_kept(graph, drawing_tasks(parent.kind), output);
    lemma_edges_from_needs(graph, drawing_tasks(parent.kind), output, id, child);
    lemma_drawing_tasks_draw(parent.kind, id);
    assert(handed.surfaces.stack =~= below);
    lemma_edges_to_needs(
        handed.graph,
        top.kind->render_task_id,
        top.extra_dependencies,
        id,
        child,
    );
    lemma_held(top.kind, graph, handed.graph);
    law_extras_needed(handed.graph, top.kind, top.extra_dependencies);
    lemma_work_trans(graph, handed.graph, after.graph);
}

/// Finishing a surface that is not drawn takes it off and changes nothing else.
pub proof fn law_finished_nothing_changes_nothing(
    stage: Stage,
    pic_index: PictureIndex,
    around: Surroundings,
)
    requires
        stage.surfaces.wf(stage.graph),
        stage.surfaces.stack.len() > 0,
        stage.surfaces.top().kind is Invalid,
    ensures
        ({
            let after = popped(stage, pic_index, around);
            &&& after.surfaces.stack == stage.surfaces.stack.drop_last()
            &&& after.surfaces.outputs == stage.surfaces.outputs
            &&& after.surfaces.sources == stage.surfaces.sources
            &&& after.cmd_buffers == stage.cmd_buffers
            &&& after.graph == stage.graph
        }),
{
    let stack = stage.surfaces.stack;
    assert(stack[stack.len() - 1].wf(stage.graph));
}

/// After a surface has been finished, commands go to what is then the current one.
pub proof fn law_commands_go_to_the_surface_below(
    stage: Stage,
    pic_index: PictureIndex,
    around: Surroundings,
)
    ensures
        ({
            let after = popped(stage, pic_index, around);
            &&& after.surfaces.stack.len() > 0 ==> after.surfaces.targets
                == surface_targets(
                after.graph,
                after.surfaces.stack.last().kind,
            )
            &&& after.surfaces.stack.len() == 0 ==> forall|s: int|
                0 <= s < after.surfaces.targets.len() ==> (
                #[trigger] after.surfaces.targets[s]).len() == 0
        }),
{
}

} // verus!
