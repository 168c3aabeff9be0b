//! The tasks that draw the deferred outputs of tiles, over all surfaces that are
//! being built.

use vstd::prelude::*;

use crate::command_buffer::{BuilderKindView, BuilderView, CommandBufferIndex};
use crate::finish::{composite_tasks, drawing_tasks, lemma_drawing_tasks, settled, settled_tile};
use crate::geometry::PictureRect;
use crate::growth::{composites_avoid, keeps_work, lemma_work_trans};
use crate::merge::{merged_tiles, sub_graph, Surroundings};
use crate::merge_laws::{
    adds_task, goes_on, keeps_drawing, keeps_needs, law_composites_wait, law_extras_needed,
    law_sub_graph_in_simple, lemma_after_splice, lemma_all_spliced, lemma_edge_kept,
    lemma_edges_from_kept, lemma_held, lemma_merged_len, lemma_merged_simple_len,
    lemma_work_is_drawing, needs,
};
use crate::render_task_graph::{
    has_task, is_picture, task, with_edge, with_edges_from, Graph, RenderTaskId,
};
use crate::routing::{
    goes_on_top, lemma_targeted_in_graph, moved_off_tiles, moves_on_top, routed, routed_tile,
    targeted_tasks, tile_place, with_child_on_targets, without_last,
};
use crate::splice::{opened, read_tasks, reads_tile, splice_all, SubGraph};
use crate::surface::{
    handed_on, keys_known, popped, with_top_tiles, PictureIndex, Stage, SurfaceBuilderView,
};
use crate::tile::{has_key, TileKey, TileView, Tiles};

verus! {

/// When the task that draws the deferred outputs of a tile becomes the one below, no
/// outputs are deferred.
pub proof fn law_deferral_flushed(tile: TileView, graph: Graph)
    requires
        tile.deferral_placed(graph),
    ensures
        tile.flushed().deferral_wf(graph),
        tile.flushed().deferred_task_id is None,
{
}

/// One more deferred output changes none of the tasks, where there is one that draws
/// it.
pub proof fn law_deferral_with_output(tile: TileView, graph: Graph, rect: PictureRect)
    requires
        tile.deferral_placed(graph),
        tile.deferred_task_id is Some,
    ensures
        tile.with_output(rect).deferral_placed(graph),
        tile.deferral_wf(graph) ==> tile.with_output(rect).deferral_wf(graph),
{
    if !tile.output_covers(rect) {
        assert(tile.with_output(rect).deferred_output_rects.last() == rect);
    }
}

/// Whether the stack has a surface with such a tile.
pub open spec fn has_tile(stack: Seq<BuilderView>, i: int, a: int) -> bool {
    0 <= i < stack.len() && 0 <= a < stack[i].kind.tiles().len()
}

/// A tile of a surface of the stack.
pub open spec fn tile_in(stack: Seq<BuilderView>, i: int, a: int) -> TileView {
    stack[i].kind.tiles()[a].1
}

/// Whether the deferred outputs of every tile of the stack are drawn to where they have
/// to be, by a task that draws those of no other tile.
pub open spec fn deferrals_placed(stack: Seq<BuilderView>, graph: Graph) -> bool {
    &&& forall|i: int, a: int, j: int, b: int|
        #![trigger tile_in(stack, i, a), tile_in(stack, j, b)]
        has_tile(stack, i, a) && has_tile(stack, j, b) && (i != j || a != b) && tile_in(
            stack,
            i,
            a,
        ).deferred_task_id is Some ==> tile_in(stack, i, a).deferred_task_id != tile_in(
            stack,
            j,
            b,
        ).deferred_task_id
    &&& forall|i: int, a: int|
        has_tile(stack, i, a) ==> (#[trigger] tile_in(stack, i, a)).deferral_placed(graph)
}

/// Whether that holds, and the task that draws deferred outputs waits for the one below
/// it, for every tile of the stack.
pub open spec fn deferrals_wf(stack: Seq<BuilderView>, graph: Graph) -> bool {
    &&& deferrals_placed(stack, graph)
    &&& forall|i: int, a: int|
        has_tile(stack, i, a) ==> (#[trigger] tile_in(stack, i, a)).deferral_wf(graph)
}

/// Whether no tile of the stack has a task below that draws deferred outputs of a tile.
pub open spec fn deferrals_separate(stack: Seq<BuilderView>) -> bool {
    forall|i: int, a: int, j: int, b: int|
        #![trigger tile_in(stack, i, a), tile_in(stack, j, b)]
        has_tile(stack, i, a) && has_tile(stack, j, b) ==> tile_in(stack, i, a).deferred_task_id
            != Some(tile_in(stack, j, b).current_task_id)
}

/// Whether everything said of deferred outputs still holds after a step, where it held
/// before.
pub open spec fn carries_deferrals(
    before: Seq<BuilderView>,
    before_graph: Graph,
    after: Seq<BuilderView>,
    after_graph: Graph,
) -> bool {
    &&& deferrals_placed(before, before_graph) ==> deferrals_placed(after, after_graph)
    &&& deferrals_wf(before, before_graph) ==> deferrals_wf(after, after_graph)
    &&& deferrals_placed(before, before_graph) && deferrals_separate(before)
        ==> deferrals_separate(after)
}

/// Whether no outputs of the tiles are deferred yet.
pub open spec fn starts_undeferred(kind: BuilderKindView) -> bool {
    forall|b: int|
        #![trigger kind.tiles()[b]]
        0 <= b < kind.tiles().len() ==> {
            &&& kind.tiles()[b].1.deferred_task_id is None
            &&& kind.tiles()[b].1.deferred_output_rects.len() == 0
        }
}

/// Whether none of the tasks that draw the tiles draws deferred outputs of a tile of the
/// stack.
pub open spec fn starts_separate(stack: Seq<BuilderView>, kind: BuilderKindView) -> bool {
    forall|i: int, a: int, b: int|
        #![trigger tile_in(stack, i, a), kind.tiles()[b]]
        has_tile(stack, i, a) && 0 <= b < kind.tiles().len() ==> tile_in(
            stack,
            i,
            a,
        ).deferred_task_id != Some(kind.tiles()[b].1.current_task_id)
}

/// Whether a command that needs `child` moves off a task that draws deferred outputs of
/// another tile, where `child` is the task below those.
pub open spec fn moves_off_deferred(
    stack: Seq<BuilderView>,
    graph: Graph,
    targets: Seq<CommandBufferIndex>,
    child: RenderTaskId,
) -> bool {
    exists|i: int, a: int, b: int|
        #![trigger tile_in(stack, i, a), tile_in(stack, stack.len() - 1, b)]
        has_tile(stack, i, a) && has_tile(stack, stack.len() - 1, b) && tile_in(
            stack,
            i,
            a,
        ).current_task_id == child && tile_in(stack, i, a).deferred_task_id == Some(
            tile_in(stack, stack.len() - 1, b).current_task_id,
        ) && moves_on_top(graph, tile_in(stack, stack.len() - 1, b), targets)
}

/// Whether a sub-graph reads a task that draws deferred outputs of another tile, and its
/// output is the task below those.
pub open spec fn reads_deferred(stack: Seq<BuilderView>, graph: Graph, sub: SubGraph) -> bool {
    exists|i: int, a: int, b: int|
        #![trigger tile_in(stack, i, a), tile_in(stack, stack.len() - 1, b)]
        has_tile(stack, i, a) && has_tile(stack, stack.len() - 1, b) && tile_in(
            stack,
            i,
            a,
        ).current_task_id == sub.output && reads_tile(
            graph,
            tile_in(stack, stack.len() - 1, b),
            sub.resolve_rect,
        ) && tile_in(stack, i, a).deferred_task_id == Some(
            opened(tile_in(stack, stack.len() - 1, b), sub.resolve_rect).current_task_id,
        ) && tile_in(stack, i, a).deferred_task_id != tile_in(
            stack,
            stack.len() - 1,
            b,
        ).deferred_task_id
}

/// Whether the current surface is the root of a sub-graph that does so.
pub open spec fn pop_reads_deferred(stack: Seq<BuilderView>, graph: Graph) -> bool {
    &&& stack.last().establishes_sub_graph
    &&& stack.last().resolve_source is Some
    &&& reads_deferred(stack.drop_last(), graph, sub_graph(stack.last()))
}

/// Where no tile has a task below that draws deferred outputs, no such task is read or
/// moved off.
pub proof fn law_separate_deferrals_stay(
    stack: Seq<BuilderView>,
    graph: Graph,
    targets: Seq<CommandBufferIndex>,
    child: RenderTaskId,
    sub: SubGraph,
)
    requires
        deferrals_separate(stack),
    ensures
        !moves_off_deferred(stack, graph, targets, child),
        !reads_deferred(stack, graph, sub),
{
}

/// Deferred outputs stay drawn to where they have to be while the tasks stay where they
/// are, and those that wait for the task below go on to.
proof fn lemma_deferrals_kept(stack: Seq<BuilderView>, before: Graph, after: Graph)
    requires
        deferrals_placed(stack, before),
        forall|i: int, a: int|
            has_tile(stack, i, a) && (#[trigger] tile_in(
                stack,
                i,
                a,
            )).deferred_task_id is Some ==> {
                let tile = tile_in(stack, i, a);
                let id = tile.deferred_task_id->0;
                &&& is_picture(after, id)
                &&& has_task(after, tile.current_task_id)
                &&& task(after, id).location == task(before, id).location
                &&& task(after, tile.current_task_id).location.extent() == task(
                    before,
                    tile.current_task_id,
                ).location.extent()
            },
    ensures
        deferrals_placed(stack, after),
        (forall|i: int, a: int|
            has_tile(stack, i, a) && (#[trigger] tile_in(
                stack,
                i,
                a,
            )).deferred_task_id is Some ==> needs(
                after,
                tile_in(stack, i, a).deferred_task_id->0,
                tile_in(stack, i, a).current_task_id,
            )) ==> deferrals_wf(stack, after),
{
    assert forall|i: int, a: int| has_tile(stack, i, a) implies (#[trigger] tile_in(
        stack,
        i,
        a,
    )).deferral_placed(after) by {
        assert(tile_in(stack, i, a).deferral_placed(before));
    }
}

/// Everything said of deferred outputs still holds where every task draws as before and
/// keeps what it needs.
pub proof fn law_deferrals_kept(stack: Seq<BuilderView>, before: Graph, after: Graph)
    requires
        keeps_drawing(before, after),
        keeps_needs(before, after),
    ensures
        carries_deferrals(stack, before, stack, after),
{
    if deferrals_placed(stack, before) {
        assert forall|i: int, a: int|
            has_tile(stack, i, a) && (#[trigger] tile_in(
                stack,
                i,
                a,
            )).deferred_task_id is Some implies {
            let tile = tile_in(stack, i, a);
            let id = tile.deferred_task_id->0;
            &&& is_picture(after, id)
            &&& has_task(after, tile.current_task_id)
            &&& task(after, id).location == task(before, id).location
            &&& task(after, tile.current_task_id).location.extent() == task(
                before,
                tile.current_task_id,
            ).location.extent()
        } by {
            let tile = tile_in(stack, i, a);
            assert(tile.deferral_placed(before));
            let t = task(after, tile.deferred_task_id->0);
            let u = task(after, tile.current_task_id);
        }
        lemma_deferrals_kept(stack, before, after);
    }
    if deferrals_wf(stack, before) {
        assert forall|i: int, a: int|
            has_tile(stack, i, a) && (#[trigger] tile_in(
                stack,
                i,
                a,
            )).deferred_task_id is Some implies needs(
            after,
            tile_in(stack, i, a).deferred_task_id->0,
            tile_in(stack, i, a).current_task_id,
        ) by {
            let tile = tile_in(stack, i, a);
            assert(tile.deferral_wf(before));
            assert(needs(before, tile.deferred_task_id->0, tile.current_task_id));
        }
    }
}

/// Everything said of deferred outputs still holds when a surface without any is
/// started.
pub proof fn law_deferrals_pushed(stack: Seq<BuilderView>, builder: BuilderView, graph: Graph)
    requires
        starts_undeferred(builder.kind),
    ensures
        deferrals_placed(stack, graph) ==> deferrals_placed(stack.push(builder), graph),
        deferrals_wf(stack, graph) ==> deferrals_wf(stack.push(builder), graph),
        deferrals_separate(stack) && starts_separate(stack, builder.kind) ==> deferrals_separate(
            stack.push(builder),
        ),
{
    let after = stack.push(builder);
    let n = stack.len() as int;
    let tiles = builder.kind.tiles();
    assert forall|i: int, a: int|
        #![trigger tile_in(after, i, a)]
        has_tile(after, i, a) implies (i < n ==> tile_in(after, i, a) == tile_in(stack, i, a)
        && has_tile(stack, i, a)) && (i == n ==> tile_in(after, i, a) == tiles[a].1
        && tiles[a].1.deferred_task_id is None && tiles[a].1.deferral_wf(graph)) by {
        if i < n {
            assert(after[i] == stack[i]);
        } else {
            assert(after[n] == builder);
            assert(tiles[a].1.deferred_task_id is None);
        }
    }
    if deferrals_placed(stack, graph) {
        assert forall|i: int, a: int| has_tile(after, i, a) implies (#[trigger] tile_in(
            after,
            i,
            a,
        )).deferral_placed(graph) by {
            if i < n {
                assert(tile_in(stack, i, a).deferral_placed(graph));
            }
        }
        assert forall|i: int, a: int, j: int, b: int|
            #![trigger tile_in(after, i, a), tile_in(after, j, b)]
            has_tile(after, i, a) && has_tile(after, j, b) && (i != j || a != b) && tile_in(
                after,
                i,
                a,
            ).deferred_task_id is Some implies tile_in(after, i, a).deferred_task_id != tile_in(
            after,
            j,
            b,
        ).deferred_task_id by {
            let x = tile_in(stack, i, a);
            let y = tile_in(stack, j, b);
        }
    }
    if deferrals_wf(stack, graph) {
        assert forall|i: int, a: int| has_tile(after, i, a) implies (#[trigger] tile_in(
            after,
            i,
            a,
        )).deferral_wf(graph) by {
            if i < n {
                assert(tile_in(stack, i, a).deferral_wf(graph));
            }
        }
    }
    if deferrals_separate(stack) && starts_separate(stack, builder.kind) {
        assert forall|i: int, a: int, j: int, b: int|
            #![trigger tile_in(after, i, a), tile_in(after, j, b)]
            has_tile(after, i, a) && has_tile(after, j, b) implies tile_in(
            after,
            i,
            a,
        ).deferred_task_id != Some(tile_in(after, j, b).current_task_id) by {
            let x = tile_in(stack, i, a);
            if j < n {
                let y = tile_in(stack, j, b);
            } else {
                let y = tiles[b];
            }
        }
    }
}

/// Everything said of deferred outputs still holds where every tile that is left is
/// drawn by the tasks that drew it.
proof fn lemma_deferrals_matched(
    before: Seq<BuilderView>,
    after: Seq<BuilderView>,
    graph: Graph,
)
    requires
        forall|i: int, a: int|
            #![trigger tile_in(after, i, a)]
            has_tile(after, i, a) ==> {
                let tile = tile_in(after, i, a);
                let old_tile = tile_in(before, i, a);
                &&& has_tile(before, i, a)
                &&& tile.current_task_id == old_tile.current_task_id
                &&& tile.deferred_task_id == old_tile.deferred_task_id
                &&& old_tile.deferral_placed(graph) ==> tile.deferral_placed(graph)
            },
    ensures
        carries_deferrals(before, graph, after, graph),
{
    if deferrals_placed(before, graph) {
        assert forall|i: int, a: int| has_tile(after, i, a) implies (#[trigger] tile_in(
            after,
            i,
            a,
        )).deferral_placed(graph) by {
            assert(tile_in(before, i, a).deferral_placed(graph));
        }
        assert forall|i: int, a: int, j: int, b: int|
            #![trigger tile_in(after, i, a), tile_in(after, j, b)]
            has_tile(after, i, a) && has_tile(after, j, b) && (i != j || a != b) && tile_in(
                after,
                i,
                a,
            ).deferred_task_id is Some implies tile_in(after, i, a).deferred_task_id != tile_in(
            after,
            j,
            b,
        ).deferred_task_id by {
            let x = tile_in(before, i, a);
            let y = tile_in(before, j, b);
        }
    }
    if deferrals_wf(before, graph) {
        assert forall|i: int, a: int| has_tile(after, i, a) implies (#[trigger] tile_in(
            after,
            i,
            a,
        )).deferral_wf(graph) by {
            assert(tile_in(before, i, a).deferral_wf(graph));
        }
    }
    if deferrals_separate(before) {
        assert forall|i: int, a: int, j: int, b: int|
            #![trigger tile_in(after, i, a), tile_in(after, j, b)]
            has_tile(after, i, a) && has_tile(after, j, b) implies tile_in(
            after,
            i,
            a,
        ).deferred_task_id != Some(tile_in(after, j, b).current_task_id) by {
            let x = tile_in(before, i, a);
            let y = tile_in(before, j, b);
        }
    }
}

/// Everything said of deferred outputs still holds when the topmost surface is taken
/// away.
pub proof fn law_deferrals_below(stack: Seq<BuilderView>, graph: Graph)
    requires
        stack.len() > 0,
    ensures
        carries_deferrals(stack, graph, stack.drop_last(), graph),
{
    let below = stack.drop_last();
    assert forall|i: int, a: int|
        #![trigger tile_in(below, i, a)]
        has_tile(below, i, a) implies has_tile(stack, i, a) && tile_in(below, i, a) == tile_in(
        stack,
        i,
        a,
    ) by {
        assert(below[i] == stack[i]);
    }
    lemma_deferrals_matched(stack, below, graph);
}

/// Surfaces with the same tiles have the same deferred outputs.
pub proof fn law_deferrals_same_tiles(
    before: Seq<BuilderView>,
    after: Seq<BuilderView>,
    graph: Graph,
)
    requires
        after.len() == before.len(),
        forall|i: int|
            0 <= i < after.len() ==> (#[trigger] after[i]).kind.tiles() == before[i].kind.tiles(),
    ensures
        carries_deferrals(before, graph, after, graph),
{
    assert forall|i: int, a: int|
        #![trigger tile_in(after, i, a)]
        has_tile(after, i, a) implies has_tile(before, i, a) && tile_in(after, i, a) == tile_in(
        before,
        i,
        a,
    ) by {
        assert(after[i].kind.tiles() == before[i].kind.tiles());
    }
    lemma_deferrals_matched(before, after, graph);
}

/// Drawing a primitive on tiles leaves their tasks as they are, and defers outputs
/// only to where there are some.
proof fn lemma_routed_tiles(
    graph: Graph,
    tiles: Tiles,
    keys: Seq<TileKey>,
    rect: PictureRect,
    is_backdrop_render: bool,
)
    requires
        forall|k: int| 0 <= k < keys.len() ==> has_key(tiles, #[trigger] keys[k]),
    ensures
        ({
            let after = routed(graph, tiles, keys, rect, is_backdrop_render).tiles;
            &&& after.len() == tiles.len()
            &&& forall|a: int|
                #![trigger after[a]]
                0 <= a < after.len() ==> {
                    &&& after[a].0 == tiles[a].0
                    &&& after[a].1.current_task_id == tiles[a].1.current_task_id
                    &&& after[a].1.deferred_task_id == tiles[a].1.deferred_task_id
                    &&& tiles[a].1.deferral_placed(graph) ==> after[a].1.deferral_placed(graph)
                }
        }),
    decreases keys.len(),
{
    if keys.len() > 0 {
        let shorter = keys.drop_last();
        assert forall|k: int| 0 <= k < shorter.len() implies has_key(
            tiles,
            #[trigger] shorter[k],
        ) by {
            assert(shorter[k] == keys[k]);
        }
        lemma_routed_tiles(graph, tiles, shorter, rect, is_backdrop_render);
        let before = routed(graph, tiles, shorter, rect, is_backdrop_render).tiles;
        let key = keys[keys.len() - 1];
        assert(has_key(tiles, key));
        let j = choose|j: int| 0 <= j < tiles.len() && #[trigger] tiles[j].0 == key;
        assert(before[j].0 == key);
        let i = tile_place(before, key);
        let tile = before[i].1;
        assert(tile.deferral_placed(graph) ==> routed_tile(
            tile,
            rect,
            is_backdrop_render,
        ).deferral_placed(graph)) by {
            if tile.deferral_placed(graph) && goes_on_top(tile, rect, is_backdrop_render) {
                law_deferral_with_output(tile, graph, rect);
            }
        }
    }
}

/// Everything said of deferred outputs still holds when a primitive is drawn on tiles of
/// the topmost surface.
pub proof fn law_deferrals_routed(
    surfaces: SurfaceBuilderView,
    graph: Graph,
    keys: Seq<TileKey>,
    rect: PictureRect,
    is_backdrop_render: bool,
)
    requires
        surfaces.stack.len() > 0,
        keys_known(surfaces.stack, keys),
    ensures
        carries_deferrals(
            surfaces.stack,
            graph,
            with_top_tiles(
                surfaces,
                routed(
                    graph,
                    surfaces.top().kind.tiles(),
                    keys,
                    rect,
                    is_backdrop_render,
                ).tiles,
            ).stack,
            graph,
        ),
{
    let stack = surfaces.stack;
    let tiles = surfaces.top().kind.tiles();
    let after = with_top_tiles(
        surfaces,
        routed(graph, tiles, keys, rect, is_backdrop_render).tiles,
    ).stack;
    lemma_routed_tiles(graph, tiles, keys, rect, is_backdrop_render);
    assert forall|i: int, a: int|
        #![trigger tile_in(after, i, a)]
        has_tile(after, i, a) implies {
        let tile = tile_in(after, i, a);
        let old_tile = tile_in(stack, i, a);
        &&& has_tile(stack, i, a)
        &&& tile.current_task_id == old_tile.current_task_id
        &&& tile.deferred_task_id == old_tile.deferred_task_id
        &&& old_tile.deferral_placed(graph) ==> tile.deferral_placed(graph)
    } by {
        assert(has_tile(stack, i, a));
        if i == stack.len() - 1 {
            assert(after[i].kind.tiles()[a].1 == tile_in(after, i, a));
        }
    }
    lemma_deferrals_matched(stack, after, graph);
}

/// Moving a command on top of deferred outputs changes only what tasks need.
pub proof fn lemma_moved_off_work(
    graph: Graph,
    tiles: Tiles,
    targets: Seq<CommandBufferIndex>,
    child: RenderTaskId,
)
    requires
        forall|a: int|
            0 <= a < tiles.len() ==> has_task(graph, (#[trigger] tiles[a]).1.current_task_id),
    ensures
        moved_off_tiles(graph, tiles, targets, child).len() == graph.len(),
        keeps_work(graph, moved_off_tiles(graph, tiles, targets, child)),
    decreases tiles.len(),
{
    if tiles.len() > 0 {
        let shorter = tiles.drop_last();
        assert forall|a: int| 0 <= a < shorter.len() implies has_task(
            graph,
            (#[trigger] shorter[a]).1.current_task_id,
        ) by {
            assert(shorter[a] == tiles[a]);
        }
        lemma_moved_off_work(graph, shorter, targets, child);
        assert(tiles[tiles.len() - 1] == tiles.last());
        let before = moved_off_tiles(graph, shorter, targets, child);
        let after = moved_off_tiles(graph, tiles, targets, child);
        assert(keeps_work(before, after));
        lemma_work_trans(graph, before, after);
    }
}

/// Taking out a mention of one task takes out none of another.
proof fn lemma_without_last_keeps(
    list: Seq<RenderTaskId>,
    child: RenderTaskId,
    other: RenderTaskId,
)
    requires
        list.contains(other),
        other != child,
    ensures
        without_last(list, child).contains(other),
    decreases list.len(),
{
    let k = choose|k: int| 0 <= k < list.len() && list[k] == other;
    let shorter = list.drop_last();
    if list.last() == child {
        assert(shorter[k] == other);
    } else if k < shorter.len() {
        assert(shorter[k] == other);
        lemma_without_last_keeps(shorter, child, other);
        let left = without_last(shorter, child);
        let j = choose|j: int| 0 <= j < left.len() && left[j] == other;
        assert(without_last(list, child)[j] == other);
    } else {
        assert(without_last(list, child).last() == other);
    }
}

/// Moving a command on top of deferred outputs takes nothing but what the command needs
/// from the tasks below them.
pub proof fn lemma_moved_off_needs(
    graph: Graph,
    tiles: Tiles,
    targets: Seq<CommandBufferIndex>,
    child: RenderTaskId,
    id: RenderTaskId,
    needed: RenderTaskId,
)
    requires
        forall|a: int| 0 <= a < tiles.len() ==> (#[trigger] tiles[a]).1.wf(graph),
        has_task(graph, id),
        needs(graph, id, needed),
        child == needed ==> forall|a: int|
            0 <= a < tiles.len() && (#[trigger] tiles[a]).1.current_task_id == id
                ==> !moves_on_top(graph, tiles[a].1, targets),
    ensures
        needs(moved_off_tiles(graph, tiles, targets, child), id, needed),
    decreases tiles.len(),
{
    if tiles.len() > 0 {
        let shorter = tiles.drop_last();
        let tile = tiles[tiles.len() - 1].1;
        assert forall|a: int| 0 <= a < shorter.len() implies (#[trigger] shorter[a]).1.wf(
            graph,
        ) && (child == needed && shorter[a].1.current_task_id == id ==> !moves_on_top(
            graph,
            shorter[a].1,
            targets,
        )) by {
            assert(shorter[a] == tiles[a]);
        }
        lemma_moved_off_needs(graph, shorter, targets, child, id, needed);
        lemma_moved_off_work(graph, shorter, targets, child);
        assert(tile.wf(graph));
        let before = moved_off_tiles(graph, shorter, targets, child);
        let c = task(before, tile.current_task_id);
        let d = task(before, tile.deferred_task_id->0);
        assert(moves_on_top(before, tile, targets) == moves_on_top(graph, tile, targets));
        if tile.current_task_id != id {
            assert(tile.current_task_id.index != id.index);
        } else if moves_on_top(graph, tile, targets) {
            lemma_without_last_keeps(task(before, id).children, child, needed);
        }
    }
}

/// Everything said of deferred outputs still holds when tasks of the topmost surface
/// come to need another one. A task that draws deferred outputs stops waiting for the
/// one below only where that is what moves off it.
pub proof fn law_deferrals_with_child_on_targets(
    surfaces: SurfaceBuilderView,
    graph: Graph,
    targets: Seq<CommandBufferIndex>,
    child: RenderTaskId,
)
    requires
        surfaces.wf(graph),
        surfaces.stack.len() > 0,
    ensures
        ({
            let stack = surfaces.stack;
            let after = with_child_on_targets(graph, surfaces.top().kind, targets, child);
            &&& deferrals_placed(stack, graph) ==> deferrals_placed(stack, after)
            &&& deferrals_wf(stack, graph) && !moves_off_deferred(stack, graph, targets, child)
                ==> deferrals_wf(stack, after)
        }),
{
    let stack = surfaces.stack;
    let n = stack.len() - 1;
    assert(stack[n].wf(graph));
    match stack[n].kind {
        BuilderKindView::Tiled { tiles } => {
            let moved = moved_off_tiles(graph, tiles, targets, child);
            assert forall|a: int| 0 <= a < tiles.len() implies has_task(
                graph,
                (#[trigger] tiles[a]).1.current_task_id,
            ) by {
                assert(tiles[a].1.wf(graph));
            }
            lemma_moved_off_work(graph, tiles, targets, child);
            lemma_targeted_in_graph(graph, tiles, targets);
            let parents = targeted_tasks(graph, tiles, targets);
            lemma_edges_from_kept(moved, parents, child);
            let after = with_edges_from(moved, parents, child);
            lemma_work_is_drawing(moved, after);
            law_deferrals_kept(stack, moved, after);
            if deferrals_placed(stack, graph) {
                assert forall|i: int, a: int|
                    has_tile(stack, i, a) && (#[trigger] tile_in(
                        stack,
                        i,
                        a,
                    )).deferred_task_id is Some implies {
                    let tile = tile_in(stack, i, a);
                    let id = tile.deferred_task_id->0;
                    &&& is_picture(moved, id)
                    &&& has_task(moved, tile.current_task_id)
                    &&& task(moved, id).location == task(graph, id).location
                    &&& task(moved, tile.current_task_id).location.extent() == task(
                        graph,
                        tile.current_task_id,
                    ).location.extent()
                } by {
                    let tile = tile_in(stack, i, a);
                    assert(tile.deferral_placed(graph));
                    let t = task(moved, tile.deferred_task_id->0);
                    let u = task(moved, tile.current_task_id);
                }
                lemma_deferrals_kept(stack, graph, moved);
            }
            if deferrals_wf(stack, graph) && !moves_off_deferred(stack, graph, targets, child) {
                assert forall|i: int, a: int|
                    has_tile(stack, i, a) && (#[trigger] tile_in(
                        stack,
                        i,
                        a,
                    )).deferred_task_id is Some implies needs(
                    moved,
                    tile_in(stack, i, a).deferred_task_id->0,
                    tile_in(stack, i, a).current_task_id,
                ) by {
                    let tile = tile_in(stack, i, a);
                    let id = tile.deferred_task_id->0;
                    assert(tile.deferral_wf(graph));
                    assert(needs(graph, id, tile.current_task_id));
                    if child == tile.current_task_id {
                        assert forall|b: int|
                            0 <= b < tiles.len() && (#[trigger] tiles[b]).1.current_task_id
                                == id implies !moves_on_top(graph, tiles[b].1, targets) by {
                            assert(has_tile(stack, n, b));
                            assert(tile_in(stack, n, b) == tiles[b].1);
                        }
                    }
                    lemma_moved_off_needs(
                        graph,
                        tiles,
                        targets,
                        child,
                        id,
                        tile.current_task_id,
                    );
                }
            }
        },
        BuilderKindView::Simple { render_task_id, .. } => {
            lemma_edge_kept(graph, render_task_id, child);
            let after = with_edge(graph, render_task_id, child);
            lemma_work_is_drawing(graph, after);
            law_deferrals_kept(stack, graph, after);
        },
        BuilderKindView::Invalid => {},
    }
}

/// Handing tiles to the tasks that composite them concerns those tasks, and the
/// tasks that draw the deferred outputs of the tiles.
pub proof fn lemma_settled_others(graph: Graph, tiles: Tiles, id: RenderTaskId)
    requires
        has_task(graph, id),
        forall|a: int|
            #![trigger tiles[a]]
            0 <= a < tiles.len() ==> {
                &&& tiles[a].1.composite_task_id matches Some(c) ==> has_task(graph, c) && c != id
                &&& tiles[a].1.deferred_task_id matches Some(d) ==> has_task(graph, d) && d != id
            },
    ensures
        settled(graph, tiles).len() == graph.len(),
        task(settled(graph, tiles), id) == task(graph, id),
    decreases tiles.len(),
{
    if tiles.len() > 0 {
        let shorter = tiles.drop_last();
        assert forall|a: int|
            #![trigger shorter[a]]
            0 <= a < shorter.len() implies {
            &&& shorter[a].1.composite_task_id matches Some(c) ==> has_task(graph, c) && c != id
            &&& shorter[a].1.deferred_task_id matches Some(d) ==> has_task(graph, d) && d != id
        } by {
            assert(shorter[a] == tiles[a]);
        }
        lemma_settled_others(graph, shorter, id);
        let tile = tiles[tiles.len() - 1].1;
        let before = settled(graph, shorter);
        assert(settled(graph, tiles) == settled_tile(before, tile));
        if let Some(c) = tile.composite_task_id {
            assert(c.index != id.index);
            if let Some(d) = tile.deferred_task_id {
                assert(d.index != id.index);
            }
        }
    }
}

/// Handing tiles to the tasks that composite them leaves every task as large as it was.
proof fn lemma_settled_extent(graph: Graph, tiles: Tiles, id: RenderTaskId)
    requires
        has_task(graph, id),
        forall|a: int|
            #![trigger tiles[a]]
            0 <= a < tiles.len() ==> {
                &&& tiles[a].1.composite_task_id matches Some(c) ==> has_task(graph, c)
                &&& tiles[a].1.deferred_task_id matches Some(d) ==> has_task(graph, d)
            },
    ensures
        settled(graph, tiles).len() == graph.len(),
        task(settled(graph, tiles), id).location.extent() == task(graph, id).location.extent(),
    decreases tiles.len(),
{
    if tiles.len() > 0 {
        let shorter = tiles.drop_last();
        assert forall|a: int|
            #![trigger shorter[a]]
            0 <= a < shorter.len() implies {
            &&& shorter[a].1.composite_task_id matches Some(c) ==> has_task(graph, c)
            &&& shorter[a].1.deferred_task_id matches Some(d) ==> has_task(graph, d)
        } by {
            assert(shorter[a] == tiles[a]);
        }
        lemma_settled_extent(graph, shorter, id);
        let tile = tiles[tiles.len() - 1].1;
        let before = settled(graph, shorter);
        assert(settled(graph, tiles) == settled_tile(before, tile));
    }
}

/// Everything said of deferred outputs still holds of the surfaces below when tiles are
/// handed to the tasks that composite them.
proof fn lemma_deferrals_settled(surfaces: SurfaceBuilderView, graph: Graph)
    requires
        surfaces.wf(graph),
        surfaces.stack.len() > 0,
        surfaces.top().kind is Tiled,
    ensures
        carries_deferrals(
            surfaces.stack,
            graph,
            surfaces.stack.drop_last(),
            settled(graph, surfaces.top().kind.tiles()),
        ),
{
    let stack = surfaces.stack;
    let below = stack.drop_last();
    let n = stack.len() - 1;
    let tiles = stack[n].kind.tiles();
    let after = settled(graph, tiles);
    law_deferrals_below(stack, graph);
    assert(stack[n].wf(graph));
    law_composites_wait(graph, tiles);
    if deferrals_placed(stack, graph) {
        assert forall|i: int, a: int|
            has_tile(below, i, a) && (#[trigger] tile_in(
                below,
                i,
                a,
            )).deferred_task_id is Some implies {
            let tile = tile_in(below, i, a);
            let id = tile.deferred_task_id->0;
            &&& is_picture(after, id)
            &&& has_task(after, tile.current_task_id)
            &&& task(after, id).location == task(graph, id).location
            &&& task(after, tile.current_task_id).location.extent() == task(
                graph,
                tile.current_task_id,
            ).location.extent()
        } by {
            let tile = tile_in(below, i, a);
            let id = tile.deferred_task_id->0;
            assert(tile.deferral_placed(graph));
            assert(has_tile(stack, i, a) && tile_in(stack, i, a) == tile);
            assert forall|b: int|
                #![trigger tiles[b]]
                0 <= b < tiles.len() implies {
                &&& tiles[b].1.composite_task_id matches Some(c) ==> has_task(graph, c) && c != id
                &&& tiles[b].1.deferred_task_id matches Some(d) ==> has_task(graph, d) && d != id
            } by {
                assert(tiles[b].1.wf(graph));
                assert(has_tile(stack, n, b));
                assert(tile_in(stack, n, b) == tiles[b].1);
            }
            lemma_settled_others(graph, tiles, id);
            lemma_settled_extent(graph, tiles, tile.current_task_id);
        }
        lemma_deferrals_kept(below, graph, after);
    }
    if deferrals_wf(stack, graph) {
        assert forall|i: int, a: int|
            has_tile(below, i, a) && (#[trigger] tile_in(
                below,
                i,
                a,
            )).deferred_task_id is Some implies needs(
            after,
            tile_in(below, i, a).deferred_task_id->0,
            tile_in(below, i, a).current_task_id,
        ) by {
            let tile = tile_in(below, i, a);
            assert(tile.deferral_wf(graph));
            assert(needs(graph, tile.deferred_task_id->0, tile.current_task_id));
        }
    }
}

/// What is read of tiles is a task of one of them.
pub proof fn lemma_read_of_tile(graph: Graph, tiles: Tiles, rect: PictureRect, id: RenderTaskId)
    requires
        read_tasks(graph, tiles, rect).contains(id),
    ensures
        exists|a: int|
            0 <= a < tiles.len() && reads_tile(graph, (#[trigger] tiles[a]).1, rect) && id
                == opened(tiles[a].1, rect).current_task_id,
    decreases tiles.len(),
{
    if tiles.len() > 0 {
        let shorter = tiles.drop_last();
        let earlier = read_tasks(graph, shorter, rect);
        let all = read_tasks(graph, tiles, rect);
        let k = choose|k: int| 0 <= k < all.len() && all[k] == id;
        if k < earlier.len() {
            assert(earlier[k] == id);
            lemma_read_of_tile(graph, shorter, rect, id);
            let a = choose|a: int|
                0 <= a < shorter.len() && reads_tile(graph, (#[trigger] shorter[a]).1, rect) && id
                    == opened(shorter[a].1, rect).current_task_id;
            assert(tiles[a] == shorter[a]);
        } else {
            assert(tiles[tiles.len() - 1] == tiles.last());
        }
    }
}

/// What becomes of the tasks of a tile when a sub-graph is spliced in: they stay,
/// the one that drew the deferred outputs becomes the one below, or a new one draws
/// deferred outputs.
spec fn moves_on(graph: Graph, before: TileView, after: TileView) -> bool {
    ||| {
        &&& after.current_task_id == before.current_task_id
        &&& after.deferred_task_id == before.deferred_task_id
    }
    ||| {
        &&& after.deferred_task_id is None
        &&& before.deferred_task_id == Some(after.current_task_id)
    }
    ||| {
        &&& after.deferred_task_id is Some
        &&& !has_task(graph, after.deferred_task_id->0)
        &&& after.current_task_id == before.current_task_id || before.deferred_task_id == Some(
            after.current_task_id,
        )
    }
}

/// Everything said of deferred outputs still holds when a sub-graph is merged into the
/// tiles of a surface. A task that draws deferred outputs stops waiting for the one below
/// only where the sub-graph reads it and that is its output.
#[verifier::rlimit(60)]
proof fn lemma_deferrals_merged(
    surfaces: SurfaceBuilderView,
    graph: Graph,
    cmd_buffers: Seq<Seq<u32>>,
    sub: SubGraph,
    around: Surroundings,
)
    requires
        surfaces.wf(graph),
        surfaces.stack.len() > 0,
        surfaces.top().kind is Tiled,
        deferrals_placed(surfaces.stack, graph),
        is_picture(graph, sub.resolve_task),
        merged_tiles(
            graph,
            cmd_buffers,
            surfaces.top().kind.tiles(),
            sub,
            around,
        ).graph.len() <= usize::MAX,
    ensures
        ({
            let m = merged_tiles(graph, cmd_buffers, surfaces.top().kind.tiles(), sub, around);
            let after = with_top_tiles(surfaces, m.kind.tiles()).stack;
            &&& deferrals_placed(after, m.graph)
            &&& deferrals_wf(surfaces.stack, graph) && !reads_deferred(surfaces.stack, graph, sub)
                ==> deferrals_wf(after, m.graph)
            &&& deferrals_separate(surfaces.stack) ==> deferrals_separate(after)
        }),
{
    let stack = surfaces.stack;
    let n = stack.len() - 1;
    let tiles = stack[n].kind.tiles();
    let rect = sub.resolve_rect;
    let s = splice_all(graph, cmd_buffers, tiles, sub);
    let m = merged_tiles(graph, cmd_buffers, tiles, sub, around);
    let after = with_top_tiles(surfaces, m.kind.tiles()).stack;
    assert(stack[n].wf(graph));
    lemma_all_spliced(graph, cmd_buffers, tiles, sub);
    lemma_after_splice(graph, cmd_buffers, tiles, sub, around);
    assert(s.tiles == m.kind.tiles());
    assert forall|i: int, a: int|
        #![trigger tile_in(after, i, a)]
        has_tile(after, i, a) implies has_tile(stack, i, a) && moves_on(
        graph,
        tile_in(stack, i, a),
        tile_in(after, i, a),
    ) && (i == n && adds_task(graph, tiles[a].1, sub) || tile_in(after, i, a).deferred_task_id
        == tile_in(stack, i, a).deferred_task_id || tile_in(after, i, a).deferred_task_id
        is None) && has_task(graph, tile_in(after, i, a).current_task_id) && (tile_in(
        stack,
        i,
        a,
    ).deferred_task_id matches Some(d) ==> has_task(graph, d)) by {
        assert(stack[i].wf(graph));
        assert(stack[i].kind.tiles()[a].1.wf(graph));
        if i == n {
            assert(after[i].kind.tiles()[a] == s.tiles[a]);
            let tile = tiles[a].1;
            assert(tile.wf(graph));
            assert(tile_in(after, i, a) == s.tiles[a].1);
            assert(tile_in(stack, i, a) == tile);
        } else {
            assert(after[i] == stack[i]);
        }
    }
    assert forall|i: int, a: int, j: int, b: int|
        #![trigger tile_in(after, i, a), tile_in(after, j, b)]
        has_tile(after, i, a) && has_tile(after, j, b) && (i != j || a != b) && tile_in(
            after,
            i,
            a,
        ).deferred_task_id is Some implies tile_in(after, i, a).deferred_task_id != tile_in(
        after,
        j,
        b,
    ).deferred_task_id by {
        let x = tile_in(stack, i, a);
        let y = tile_in(stack, j, b);
        let x1 = tile_in(after, i, a);
        let y1 = tile_in(after, j, b);
        if !has_task(graph, x1.deferred_task_id->0) && y1.deferred_task_id is Some && !has_task(
            graph,
            y1.deferred_task_id->0,
        ) {
            assert(i == n && adds_task(graph, tiles[a].1, sub));
            assert(x1 == s.tiles[a].1);
            assert(j == n && adds_task(graph, tiles[b].1, sub));
            assert(y1 == s.tiles[b].1);
            if a < b {
                assert(s.tiles[a].1.deferred_task_id != s.tiles[b].1.deferred_task_id);
            } else {
                assert(s.tiles[b].1.deferred_task_id != s.tiles[a].1.deferred_task_id);
            }
        }
    }
    assert forall|i: int, a: int| has_tile(after, i, a) implies (#[trigger] tile_in(
        after,
        i,
        a,
    )).deferral_placed(m.graph) by {
        let x = tile_in(stack, i, a);
        let x1 = tile_in(after, i, a);
        assert(x.deferral_placed(graph));
        if i == n {
            assert(x1 == s.tiles[a].1);
            assert(x == tiles[a].1);
        } else {
            assert(x1 == x);
        }
        if let Some(id) = x1.deferred_task_id {
            let c = x1.current_task_id;
            if !has_task(graph, id) {
                assert(goes_on(s.graph, x1));
            }
            let t = task(s.graph, id);
            let u = task(s.graph, c);
            let t1 = task(m.graph, id);
            let u1 = task(m.graph, c);
            if i == n && reads_tile(graph, tiles[a].1, rect) {
                assert(x1.output_covers(rect));
            }
        }
    }
    if deferrals_separate(stack) {
        assert forall|i: int, a: int, j: int, b: int|
            #![trigger tile_in(after, i, a), tile_in(after, j, b)]
            has_tile(after, i, a) && has_tile(after, j, b) implies tile_in(
            after,
            i,
            a,
        ).deferred_task_id != Some(tile_in(after, j, b).current_task_id) by {
            let x = tile_in(stack, i, a);
            let y = tile_in(stack, j, b);
            let x1 = tile_in(after, i, a);
            let y1 = tile_in(after, j, b);
            if i == j && a == b {
                assert(x1.deferral_placed(m.graph));
            }
        }
    }
    if deferrals_wf(stack, graph) && !reads_deferred(stack, graph, sub) {
        assert forall|i: int, a: int| has_tile(after, i, a) implies (#[trigger] tile_in(
            after,
            i,
            a,
        )).deferral_wf(m.graph) by {
            let x = tile_in(stack, i, a);
            let x1 = tile_in(after, i, a);
            assert(x.deferral_wf(graph));
            assert(x1.deferral_placed(m.graph));
            if let Some(id) = x1.deferred_task_id {
                let c = x1.current_task_id;
                if has_task(graph, id) {
                    assert(x.deferred_task_id == Some(id) && x.current_task_id == c);
                    if s.sources.contains(id) && c == sub.output {
                        lemma_read_of_tile(graph, tiles, rect, id);
                        let b = choose|b: int|
                            0 <= b < tiles.len() && reads_tile(
                                graph,
                                (#[trigger] tiles[b]).1,
                                rect,
                            ) && id == opened(tiles[b].1, rect).current_task_id;
                        assert(has_tile(stack, n, b) && has_tile(after, n, b));
                        assert(tile_in(stack, n, b) == tiles[b].1);
                        assert(tile_in(after, n, b) == s.tiles[b].1);
                        assert(tile_in(after, n, b).current_task_id == id);
                        if i == n && a == b {
                            assert(x1.deferred_task_id != Some(x1.current_task_id));
                        }
                        assert(false);
                    }
                    assert(needs(graph, id, c));
                    let t = task(s.graph, id);
                    assert(needs(s.graph, id, c));
                } else {
                    if i == n {
                        assert(x1 == s.tiles[a].1);
                    }
                    assert(goes_on(s.graph, x1));
                }
                assert(needs(s.graph, id, c));
                assert(needs(m.graph, id, c));
            }
        }
    }
}

/// Everything said of deferred outputs still holds when the current surface has been
/// handed to what uses it.
proof fn lemma_deferrals_handed_on(
    stage: Stage,
    pic_index: PictureIndex,
    around: Surroundings,
)
    requires
        stage.surfaces.wf(stage.graph),
        stage.surfaces.stack.len() > 0,
        stage.surfaces.top().kind is Simple ==> stage.surfaces.stack.len() > 1,
        handed_on(stage, pic_index, around).graph.len() <= usize::MAX,
        deferrals_placed(stage.surfaces.stack, stage.graph),
    ensures
        ({
            let stack = stage.surfaces.stack;
            let handed = handed_on(stage, pic_index, around);
            &&& deferrals_placed(handed.surfaces.stack, handed.graph)
            &&& deferrals_wf(stack, stage.graph) && !pop_reads_deferred(stack, stage.graph)
                ==> deferrals_wf(handed.surfaces.stack, handed.graph)
            &&& deferrals_separate(stack) ==> deferrals_separate(handed.surfaces.stack)
        }),
{
    let graph = stage.graph;
    let stack = stage.surfaces.stack;
    let top = stage.surfaces.top();
    let below = stack.drop_last();
    let handed = handed_on(stage, pic_index, around);
    let under = SurfaceBuilderView { stack: below, ..stage.surfaces };
    assert(stack[stack.len() - 1].wf(graph));
    law_deferrals_below(stack, graph);
    if top.kind is Tiled {
        lemma_deferrals_settled(stage.surfaces, graph);
    } else if top.kind is Simple {
        let n = below.len() - 1;
        let parent = below[n];
        assert(parent == stack[n]);
        assert(parent.wf(graph));
        assert(under.wf(graph)) by {
            assert forall|i: int| 0 <= i < below.len() implies (#[trigger] below[i]).wf(graph) by {
                assert(below[i] == stack[i]);
            }
            assert forall|i: int, j: int|
                #![trigger below[i], below[j]]
                0 <= i < j < below.len() implies composites_avoid(
                below[i].kind.tiles(),
                composite_tasks(below[j].kind.tiles()),
            ) by {
                assert(below[i] == stack[i] && below[j] == stack[j]);
            }
        }
        if !top.establishes_sub_graph || top.resolve_source is None {
            let output = top.kind.output_task();
            lemma_drawing_tasks(parent.kind, graph);
            lemma_edges_from_kept(graph, drawing_tasks(parent.kind), output);
            lemma_work_is_drawing(graph, handed.graph);
            law_deferrals_same_tiles(below, handed.surfaces.stack, graph);
            law_deferrals_kept(handed.surfaces.stack, graph, handed.graph);
        } else {
            let sub = sub_graph(top);
            match parent.kind {
                BuilderKindView::Tiled { tiles } => {
                    lemma_deferrals_merged(under, graph, stage.cmd_buffers, sub, around);
                    let m = merged_tiles(graph, stage.cmd_buffers, tiles, sub, around);
                    assert(handed.surfaces.stack =~= with_top_tiles(under, m.kind.tiles()).stack);
                },
                BuilderKindView::Simple { render_task_id, root_task_id, .. } => {
                    let commands = CommandBufferIndex(stage.cmd_buffers.len() as usize);
                    lemma_merged_simple_len(
                        graph,
                        commands,
                        render_task_id,
                        root_task_id,
                        sub,
                        around.relations,
                    );
                    law_sub_graph_in_simple(
                        graph,
                        commands,
                        render_task_id,
                        root_task_id,
                        sub,
                        around.relations,
                    );
                    law_deferrals_same_tiles(below, handed.surfaces.stack, graph);
                    law_deferrals_kept(handed.surfaces.stack, graph, handed.graph);
                },
                BuilderKindView::Invalid => {
                    law_deferrals_same_tiles(below, handed.surfaces.stack, graph);
                },
            }
        }
    }
}

/// Handing a surface on takes no task away.
pub proof fn lemma_handed_on_len(stage: Stage, pic_index: PictureIndex, around: Surroundings)
    requires
        stage.surfaces.wf(stage.graph),
        stage.surfaces.stack.len() > 0,
        stage.surfaces.top().kind is Simple ==> stage.surfaces.stack.len() > 1,
    ensures
        stage.graph.len() <= handed_on(stage, pic_index, around).graph.len(),
{
    let graph = stage.graph;
    let stack = stage.surfaces.stack;
    let top = stage.surfaces.top();
    let below = stack.drop_last();
    assert(stack[stack.len() - 1].wf(graph));
    if top.kind is Tiled {
        law_composites_wait(graph, top.kind.tiles());
    } else if top.kind is Simple {
        assert(below.last() == stack[stack.len() - 2]);
        assert(below.last().wf(graph));
        if top.establishes_sub_graph && top.resolve_source is Some {
            lemma_merged_len(graph, stage.cmd_buffers, below.last().kind, top, around);
        } else {
            lemma_drawing_tasks(below.last().kind, graph);
            lemma_edges_from_kept(
                graph,
                drawing_tasks(below.last().kind),
                top.kind.output_task(),
            );
        }
    }
}

/// Everything said of deferred outputs still holds when the current surface is finished.
/// A task that draws deferred outputs stops waiting for the one below only where a
/// sub-graph reads it and has that as its output.
pub proof fn law_deferrals_popped(
    stage: Stage,
    pic_index: PictureIndex,
    around: Surroundings,
)
    requires
        stage.surfaces.wf(stage.graph),
        stage.surfaces.stack.len() > 0,
        stage.surfaces.top().kind is Simple ==> stage.surfaces.stack.len() > 1,
        popped(stage, pic_index, around).graph.len() <= usize::MAX,
        deferrals_placed(stage.surfaces.stack, stage.graph),
    ensures
        ({
            let stack = stage.surfaces.stack;
            let after = popped(stage, pic_index, around);
            &&& deferrals_placed(after.surfaces.stack, after.graph)
            &&& deferrals_wf(stack, stage.graph) && !pop_reads_deferred(stack, stage.graph)
                ==> deferrals_wf(after.surfaces.stack, after.graph)
            &&& deferrals_separate(stack) ==> deferrals_separate(after.surfaces.stack)
        }),
{
    let top = stage.surfaces.top();
    let stack = stage.surfaces.stack;
    let handed = handed_on(stage, pic_index, around);
    let after = popped(stage, pic_index, around);
    assert(stack[stack.len() - 1].wf(stage.graph));
    lemma_handed_on_len(stage, pic_index, around);
    lemma_held(top.kind, stage.graph, handed.graph);
    law_extras_needed(handed.graph, top.kind, top.extra_dependencies);
    lemma_deferrals_handed_on(stage, pic_index, around);
    lemma_work_is_drawing(handed.graph, after.graph);
    law_deferrals_kept(handed.surfaces.stack, handed.graph, after.graph);
}

} // verus!
