//! What tasks come to need over more than one step.

use vstd::prelude::*;

use crate::command_buffer::{tiles_wf, BuilderKindView, BuilderView, CommandBufferIndex};
use crate::deferral::{lemma_handed_on_len, lemma_moved_off_work};
use crate::finish::{drawing_tasks, is_held, lemma_drawing_tasks, with_extras};
use crate::growth::{keeps_work, lemma_work_trans};
use crate::merge::{merged_simple, sub_graph, Surroundings};
use crate::merge_laws::{
    holding_tasks, law_extras_needed, law_sub_graph_in_simple, lemma_edges_from_kept, lemma_held,
    needs,
};
use crate::render_task_graph::{
    has_task, task, with_edge, with_edges_from, with_edges_to, Graph, RenderTaskId,
};
use crate::resolve::Relations;
use crate::routing::{
    is_target, lemma_targeted_in_graph, moved_off_tiles, moves_on_top, targeted_tasks,
    with_child_on_targets, without_last,
};
use crate::splice::{continuation, spliced_simple, SubGraph};
use crate::surface::{handed_on, popped, with_extra, PictureIndex, Stage};
use crate::tile::Tiles;

verus! {

/// Whether every task draws one of the tiles, and either below its deferred outputs or
/// on top of them.
pub open spec fn tiles_apart(tiles: Tiles) -> bool {
    forall|a: int, b: int|
        #![trigger tiles[a], tiles[b]]
        0 <= a < tiles.len() && 0 <= b < tiles.len() ==> {
            &&& a != b ==> tiles[a].1.current_task_id != tiles[b].1.current_task_id
            &&& tiles[a].1.deferred_task_id is Some ==> {
                &&& tiles[a].1.deferred_task_id != Some(tiles[b].1.current_task_id)
                &&& a != b ==> tiles[a].1.deferred_task_id != tiles[b].1.deferred_task_id
            }
        }
}

/// What is last added to a list is what is taken out of it.
proof fn lemma_without_added(list: Seq<RenderTaskId>, child: RenderTaskId)
    ensures
        without_last(list.push(child), child) == list,
{
    assert(list.push(child).drop_last() =~= list);
}

/// How often a list mentions a task.
pub open spec fn mentions(list: Seq<RenderTaskId>, id: RenderTaskId) -> nat
    decreases list.len(),
{
    if list.len() == 0 {
        0
    } else {
        mentions(list.drop_last(), id) + if list.last() == id {
            1nat
        } else {
            0
        }
    }
}

/// For how many tiles that a task draws a command moves on top of the deferred
/// outputs.
pub open spec fn moved_mentions(
    graph: Graph,
    tiles: Tiles,
    targets: Seq<CommandBufferIndex>,
    id: RenderTaskId,
) -> nat
    decreases tiles.len(),
{
    if tiles.len() == 0 {
        0
    } else {
        moved_mentions(graph, tiles.drop_last(), targets, id) + if tiles.last().1.current_task_id
            == id && moves_on_top(graph, tiles.last().1, targets) {
            1nat
        } else {
            0
        }
    }
}

/// How many tiles have their deferred outputs drawn by a task.
pub open spec fn deferred_mentions(tiles: Tiles, id: RenderTaskId) -> nat
    decreases tiles.len(),
{
    if tiles.len() == 0 {
        0
    } else {
        deferred_mentions(tiles.drop_last(), id) + if tiles.last().1.deferred_task_id == Some(id) {
            1nat
        } else {
            0
        }
    }
}

/// The list with `child` added to its end a number of times.
pub open spec fn followed_by(
    list: Seq<RenderTaskId>,
    child: RenderTaskId,
    times: nat,
) -> Seq<RenderTaskId> {
    list + Seq::new(times, |i: int| child)
}

/// What stands at one place only is mentioned once.
pub proof fn lemma_mentioned_once(list: Seq<RenderTaskId>, id: RenderTaskId, a: int)
    requires
        forall|k: int| 0 <= k < list.len() && k != a ==> #[trigger] list[k] != id,
        0 <= a < list.len() ==> list[a] == id,
    ensures
        mentions(list, id) == if 0 <= a < list.len() {
            1nat
        } else {
            0
        },
    decreases list.len(),
{
    if list.len() > 0 {
        let shorter = list.drop_last();
        assert forall|k: int| 0 <= k < shorter.len() && k != a implies #[trigger] shorter[k]
            != id by {
            assert(list[k] == shorter[k]);
        }
        lemma_mentioned_once(shorter, id, a);
        assert(list[list.len() - 1] == list.last());
    }
}

/// One more addition.
pub proof fn lemma_followed_once_more(list: Seq<RenderTaskId>, child: RenderTaskId, times: nat)
    ensures
        followed_by(list, child, times + 1) == followed_by(list, child, times).push(child),
        followed_by(list, child, 0) == list,
{
    assert(followed_by(list, child, times + 1) =~= followed_by(list, child, times).push(child));
    assert(followed_by(list, child, 0) =~= list);
}

/// What a task needs after all tasks of a list have come to need another one.
pub proof fn lemma_edges_from_mentions(
    graph: Graph,
    parents: Seq<RenderTaskId>,
    child: RenderTaskId,
    id: RenderTaskId,
)
    requires
        forall|k: int| 0 <= k < parents.len() ==> has_task(graph, #[trigger] parents[k]),
        has_task(graph, id),
    ensures
        task(with_edges_from(graph, parents, child), id).children == followed_by(
            task(graph, id).children,
            child,
            mentions(parents, id),
        ),
    decreases parents.len(),
{
    let list = task(graph, id).children;
    lemma_followed_once_more(list, child, 0);
    if parents.len() > 0 {
        let shorter = parents.drop_last();
        let last = parents[parents.len() - 1];
        assert forall|k: int| 0 <= k < shorter.len() implies has_task(
            graph,
            #[trigger] shorter[k],
        ) by {
            assert(shorter[k] == parents[k]);
        }
        lemma_edges_from_mentions(graph, shorter, child, id);
        lemma_edges_from_kept(graph, shorter, child);
        lemma_followed_once_more(list, child, mentions(shorter, id));
        if id != last {
            assert(id.index != last.index);
        }
    }
}

/// What a task needs after a command has moved on top of deferred outputs, where the
/// task below needed `child` last.
proof fn lemma_moved_off_mentions(
    graph: Graph,
    tiles: Tiles,
    targets: Seq<CommandBufferIndex>,
    child: RenderTaskId,
    id: RenderTaskId,
    list: Seq<RenderTaskId>,
    times: nat,
)
    requires
        forall|b: int| 0 <= b < tiles.len() ==> (#[trigger] tiles[b]).1.wf(graph),
        has_task(graph, id),
        task(graph, id).children == followed_by(list, child, times),
        moved_mentions(graph, tiles, targets, id) <= times,
    ensures
        task(moved_off_tiles(graph, tiles, targets, child), id).children == followed_by(
            list,
            child,
            (times - moved_mentions(graph, tiles, targets, id)) as nat,
        ),
    decreases tiles.len(),
{
    if tiles.len() > 0 {
        let shorter = tiles.drop_last();
        let tile = tiles[tiles.len() - 1].1;
        assert forall|b: int| 0 <= b < shorter.len() implies (#[trigger] shorter[b]).1.wf(
            graph,
        ) by {
            assert(shorter[b] == tiles[b]);
        }
        assert(tile.wf(graph));
        lemma_moved_off_mentions(graph, shorter, targets, child, id, list, times);
        lemma_moved_off_work(graph, shorter, targets, child);
        let before = moved_off_tiles(graph, shorter, targets, child);
        let c = task(before, tile.current_task_id);
        let d = task(before, tile.deferred_task_id->0);
        assert(moves_on_top(before, tile, targets) == moves_on_top(graph, tile, targets));
        if tile.current_task_id != id {
            assert(tile.current_task_id.index != id.index);
        } else if moves_on_top(graph, tile, targets) {
            let left = (times - moved_mentions(graph, tiles, targets, id)) as nat;
            lemma_followed_once_more(list, child, left);
            lemma_without_added(followed_by(list, child, left), child);
        }
    }
}

/// The tiles that a task draws, and those of them where a command moves on top.
proof fn lemma_moved_mentions(
    graph: Graph,
    tiles: Tiles,
    targets: Seq<CommandBufferIndex>,
    id: RenderTaskId,
)
    ensures
        ({
            let drawn = mentions(drawing_tasks(BuilderKindView::Tiled { tiles }), id);
            let moved = moved_mentions(graph, tiles, targets, id);
            &&& moved <= drawn
            &&& moved == drawn <==> forall|b: int|
                0 <= b < tiles.len() && (#[trigger] tiles[b]).1.current_task_id == id
                    ==> moves_on_top(graph, tiles[b].1, targets)
            &&& drawn == 0 <==> forall|b: int|
                0 <= b < tiles.len() ==> (#[trigger] tiles[b]).1.current_task_id != id
            &&& is_target(graph, id, targets) ==> moved == 0
        }),
    decreases tiles.len(),
{
    let all = drawing_tasks(BuilderKindView::Tiled { tiles });
    if tiles.len() > 0 {
        let shorter = tiles.drop_last();
        let n = shorter.len() as int;
        lemma_moved_mentions(graph, shorter, targets, id);
        assert(all.drop_last() =~= drawing_tasks(BuilderKindView::Tiled { tiles: shorter }));
        assert(all.last() == tiles[n].1.current_task_id);
        assert forall|b: int| 0 <= b < n implies #[trigger] tiles[b] == shorter[b] by {}
        if forall|b: int|
            0 <= b < tiles.len() && (#[trigger] tiles[b]).1.current_task_id == id ==> moves_on_top(
                graph,
                tiles[b].1,
                targets,
            ) {
            assert forall|b: int|
                0 <= b < shorter.len() && (#[trigger] shorter[b]).1.current_task_id
                    == id implies moves_on_top(graph, shorter[b].1, targets) by {
                assert(tiles[b] == shorter[b]);
            }
            assert(tiles[n].1.current_task_id == id ==> moves_on_top(graph, tiles[n].1, targets));
        }
        if forall|b: int| 0 <= b < tiles.len() ==> (#[trigger] tiles[b]).1.current_task_id != id {
            assert forall|b: int| 0 <= b < shorter.len() implies (
            #[trigger] shorter[b]).1.current_task_id != id by {
                assert(tiles[b] == shorter[b]);
            }
            assert(tiles[n].1.current_task_id != id);
        }
    }
}

/// The tiles that have their deferred outputs drawn by a task.
proof fn lemma_deferred_mentions(tiles: Tiles, id: RenderTaskId, a: int)
    ensures
        deferred_mentions(tiles, id) == 0 <==> forall|b: int|
            0 <= b < tiles.len() ==> (#[trigger] tiles[b]).1.deferred_task_id != Some(id),
        0 <= a < tiles.len() && tiles[a].1.deferred_task_id == Some(id) ==> (deferred_mentions(
            tiles,
            id,
        ) == 1 <==> forall|b: int|
            0 <= b < tiles.len() && b != a ==> (#[trigger] tiles[b]).1.deferred_task_id != Some(
                id,
            )),
    decreases tiles.len(),
{
    if tiles.len() > 0 {
        let shorter = tiles.drop_last();
        let n = shorter.len() as int;
        lemma_deferred_mentions(shorter, id, a);
        assert(tiles[n] == tiles.last());
        assert forall|b: int| 0 <= b < n implies #[trigger] tiles[b] == shorter[b] by {}
        if forall|b: int|
            0 <= b < tiles.len() && b != a ==> (#[trigger] tiles[b]).1.deferred_task_id != Some(
                id,
            ) {
            assert forall|b: int| 0 <= b < shorter.len() && b != a implies (
            #[trigger] shorter[b]).1.deferred_task_id != Some(id) by {
                assert(tiles[b] == shorter[b]);
            }
            assert(n != a ==> tiles[n].1.deferred_task_id != Some(id));
        }
        if forall|b: int|
            0 <= b < tiles.len() ==> (#[trigger] tiles[b]).1.deferred_task_id != Some(id) {
            assert forall|b: int| 0 <= b < shorter.len() implies (
            #[trigger] shorter[b]).1.deferred_task_id != Some(id) by {
                assert(tiles[b] == shorter[b]);
            }
            assert(tiles[n].1.deferred_task_id != Some(id));
        }
        if 0 <= a < n && tiles[a].1.deferred_task_id == Some(id) {
            assert(shorter[a].1.deferred_task_id == Some(id));
            assert(deferred_mentions(shorter, id) != 0);
        }
    }
}

/// How often a task is listed among those that draw one of the buffers.
proof fn lemma_targeted_mentions(
    graph: Graph,
    tiles: Tiles,
    targets: Seq<CommandBufferIndex>,
    id: RenderTaskId,
)
    ensures
        mentions(targeted_tasks(graph, tiles, targets), id) == if is_target(graph, id, targets) {
            mentions(drawing_tasks(BuilderKindView::Tiled { tiles }), id) + deferred_mentions(
                tiles,
                id,
            )
        } else {
            0
        },
    decreases tiles.len(),
{
    if tiles.len() > 0 {
        let shorter = tiles.drop_last();
        let tile = tiles.last().1;
        let all = drawing_tasks(BuilderKindView::Tiled { tiles });
        lemma_targeted_mentions(graph, shorter, targets, id);
        assert(all.drop_last() =~= drawing_tasks(BuilderKindView::Tiled { tiles: shorter }));
        assert(all.last() == tile.current_task_id);
        let earlier = targeted_tasks(graph, shorter, targets);
        let with_current = if is_target(graph, tile.current_task_id, targets) {
            earlier.push(tile.current_task_id)
        } else {
            earlier
        };
        assert(earlier.push(tile.current_task_id).drop_last() =~= earlier);
        assert(with_current.push(tile.deferred_task_id->0).drop_last() =~= with_current);
        assert(mentions(with_current, id) == mentions(earlier, id) + if is_target(
            graph,
            tile.current_task_id,
            targets,
        ) && tile.current_task_id == id {
            1nat
        } else {
            0
        });
    }
}

/// The tasks of tiles that draw one of the buffers stay those while tasks work as
/// before.
proof fn lemma_targeted_same(
    before: Graph,
    after: Graph,
    tiles: Tiles,
    targets: Seq<CommandBufferIndex>,
    id: RenderTaskId,
)
    requires
        keeps_work(before, after),
        forall|b: int| 0 <= b < tiles.len() ==> (#[trigger] tiles[b]).1.wf(before),
    ensures
        targeted_tasks(after, tiles, targets) == targeted_tasks(before, tiles, targets),
        moved_mentions(after, tiles, targets, id) == moved_mentions(before, tiles, targets, id),
    decreases tiles.len(),
{
    if tiles.len() > 0 {
        let shorter = tiles.drop_last();
        let tile = tiles[tiles.len() - 1].1;
        assert forall|b: int| 0 <= b < shorter.len() implies (#[trigger] shorter[b]).1.wf(
            before,
        ) by {
            assert(shorter[b] == tiles[b]);
        }
        assert(tile.wf(before));
        lemma_targeted_same(before, after, shorter, targets, id);
        let c = task(after, tile.current_task_id);
        let d = task(after, tile.deferred_task_id->0);
    }
}

/// What every task needs after a child has first been added to the tasks that commands
/// for the tiles go to and, once the buffers are chosen, to the tasks that draw one of
/// them. Besides what it needed before, every task needs the child as often as it draws
/// a tile, less the tiles where the command is only drawn on top, and as often again as
/// it is among the chosen ones. Nothing else changes.
pub proof fn law_child_is_needed_where_it_is_drawn(
    graph: Graph,
    tiles: Tiles,
    targets: Seq<CommandBufferIndex>,
    child: RenderTaskId,
    id: RenderTaskId,
)
    requires
        tiles_wf(tiles, graph),
        has_task(graph, id),
    ensures
        ({
            let kind = BuilderKindView::Tiled { tiles };
            let added = with_edges_from(graph, drawing_tasks(kind), child);
            let after = with_child_on_targets(added, kind, targets, child);
            let drawn = mentions(drawing_tasks(kind), id);
            let moved = moved_mentions(graph, tiles, targets, id);
            &&& keeps_work(graph, after)
            &&& after.len() == graph.len()
            &&& moved <= drawn
            &&& task(after, id).children == followed_by(
                task(graph, id).children,
                child,
                (drawn - moved + mentions(targeted_tasks(graph, tiles, targets), id)) as nat,
            )
        }),
{
    let kind = BuilderKindView::Tiled { tiles };
    let parents = drawing_tasks(kind);
    let added = with_edges_from(graph, parents, child);
    let moved_graph = moved_off_tiles(added, tiles, targets, child);
    let owners = targeted_tasks(graph, tiles, targets);
    let after = with_child_on_targets(added, kind, targets, child);
    let list = task(graph, id).children;
    let drawn = mentions(parents, id);
    let moved = moved_mentions(graph, tiles, targets, id);
    lemma_drawing_tasks(kind, graph);
    lemma_edges_from_kept(graph, parents, child);
    lemma_edges_from_mentions(graph, parents, child, id);
    lemma_moved_mentions(graph, tiles, targets, id);
    lemma_targeted_same(graph, added, tiles, targets, id);
    assert forall|b: int| 0 <= b < tiles.len() implies (#[trigger] tiles[b]).1.wf(added) by {
        assert(tiles[b].1.wf(graph));
        let x = task(added, tiles[b].1.current_task_id);
        let y = task(added, tiles[b].1.deferred_task_id->0);
        let z = task(added, tiles[b].1.composite_task_id->0);
    }
    lemma_moved_off_mentions(added, tiles, targets, child, id, list, drawn);
    lemma_moved_off_work(added, tiles, targets, child);
    lemma_targeted_in_graph(added, tiles, targets);
    lemma_edges_from_mentions(moved_graph, owners, child, id);
    lemma_edges_from_kept(moved_graph, owners, child);
    let again = mentions(owners, id);
    assert(followed_by(followed_by(list, child, (drawn - moved) as nat), child, again)
        =~= followed_by(list, child, (drawn - moved + again) as nat));
    lemma_work_trans(graph, added, moved_graph);
    lemma_work_trans(graph, moved_graph, after);
}

/// A task that a command needs moves with the command, where that is only drawn on top
/// of the deferred outputs of a tile. The task below needs just what it needed before
/// the child was first added, exactly if the command moves in every tile that it draws.
/// The task on top needs the child once more, exactly if it draws nothing else.
pub proof fn law_child_moves_with_command(
    graph: Graph,
    tiles: Tiles,
    targets: Seq<CommandBufferIndex>,
    child: RenderTaskId,
    a: int,
)
    requires
        tiles_wf(tiles, graph),
        0 <= a < tiles.len(),
        moves_on_top(graph, tiles[a].1, targets),
    ensures
        ({
            let kind = BuilderKindView::Tiled { tiles };
            let added = with_edges_from(graph, drawing_tasks(kind), child);
            let after = with_child_on_targets(added, kind, targets, child);
            let c = tiles[a].1.current_task_id;
            let d = tiles[a].1.deferred_task_id->0;
            &&& task(after, c).children == task(graph, c).children <==> forall|b: int|
                0 <= b < tiles.len() && (#[trigger] tiles[b]).1.current_task_id == c
                    ==> moves_on_top(graph, tiles[b].1, targets)
            &&& task(after, d).children == task(graph, d).children.push(child) <==> forall|b: int|
                0 <= b < tiles.len() ==> (#[trigger] tiles[b]).1.current_task_id != d && (b != a
                    ==> tiles[b].1.deferred_task_id != Some(d))
        }),
{
    let c = tiles[a].1.current_task_id;
    let d = tiles[a].1.deferred_task_id->0;
    let kind = BuilderKindView::Tiled { tiles };
    let added = with_edges_from(graph, drawing_tasks(kind), child);
    let after = with_child_on_targets(added, kind, targets, child);
    assert(tiles[a].1.wf(graph));
    law_child_is_needed_where_it_is_drawn(graph, tiles, targets, child, c);
    lemma_targeted_mentions(graph, tiles, targets, c);
    lemma_moved_mentions(graph, tiles, targets, c);
    let below = task(graph, c).children;
    lemma_followed_once_more(below, child, 0);
    law_child_is_needed_where_it_is_drawn(graph, tiles, targets, child, d);
    lemma_targeted_mentions(graph, tiles, targets, d);
    lemma_moved_mentions(graph, tiles, targets, d);
    lemma_deferred_mentions(tiles, d, a);
    let above = task(graph, d).children;
    lemma_followed_once_more(above, child, 0);
    let times = mentions(drawing_tasks(kind), d) * 2 + deferred_mentions(tiles, d);
    assert(task(after, d).children == followed_by(above, child, times));
    assert(times == 1 <==> mentions(drawing_tasks(kind), d) == 0 && deferred_mentions(tiles, d)
        == 1) by {
        assert(deferred_mentions(tiles, d) != 0);
    }
    if task(after, d).children == above.push(child) {
        assert(followed_by(above, child, times).len() == above.len() + times);
    }
    if forall|b: int|
        0 <= b < tiles.len() ==> (#[trigger] tiles[b]).1.current_task_id != d && (b != a
            ==> tiles[b].1.deferred_task_id != Some(d)) {
        assert(mentions(drawing_tasks(kind), d) == 0);
        assert(deferred_mentions(tiles, d) == 1);
    }
    if times == 1 {
        assert forall|b: int| 0 <= b < tiles.len() implies (#[trigger] tiles[b]).1.current_task_id
            != d && (b != a ==> tiles[b].1.deferred_task_id != Some(d)) by {}
    }
}

/// A tile that draws none of the chosen buffers keeps the child that was first added to
/// it.
pub proof fn law_child_stays_without_targets(
    graph: Graph,
    tiles: Tiles,
    targets: Seq<CommandBufferIndex>,
    child: RenderTaskId,
    a: int,
)
    requires
        tiles_wf(tiles, graph),
        0 <= a < tiles.len(),
        !is_target(graph, tiles[a].1.current_task_id, targets),
        !moves_on_top(graph, tiles[a].1, targets),
    ensures
        ({
            let kind = BuilderKindView::Tiled { tiles };
            let added = with_edges_from(graph, drawing_tasks(kind), child);
            let after = with_child_on_targets(added, kind, targets, child);
            let c = tiles[a].1.current_task_id;
            exists|times: nat|
                times > 0 && task(after, c).children == #[trigger] followed_by(
                    task(graph, c).children,
                    child,
                    times,
                )
        }),
{
    let c = tiles[a].1.current_task_id;
    let kind = BuilderKindView::Tiled { tiles };
    assert(tiles[a].1.wf(graph));
    law_child_is_needed_where_it_is_drawn(graph, tiles, targets, child, c);
    lemma_targeted_mentions(graph, tiles, targets, c);
    lemma_moved_mentions(graph, tiles, targets, c);
    let times = (mentions(drawing_tasks(kind), c) - moved_mentions(
        graph,
        tiles,
        targets,
        c,
    )) as nat;
    assert(times > 0);
    let kept = followed_by(task(graph, c).children, child, times);
}

/// What the tasks of a tile need after both steps, where no task draws two of the tiles.
/// Where the command is only drawn on top of the deferred outputs of the tile, the task
/// below needs just what it needed before, and the one on top needs the child besides. A
/// tile without any of the buffers keeps what was added first.
pub proof fn law_child_of_tiles_apart(
    graph: Graph,
    tiles: Tiles,
    targets: Seq<CommandBufferIndex>,
    child: RenderTaskId,
    a: int,
)
    requires
        tiles_wf(tiles, graph),
        tiles_apart(tiles),
        0 <= a < tiles.len(),
    ensures
        ({
            let kind = BuilderKindView::Tiled { tiles };
            let added = with_edges_from(graph, drawing_tasks(kind), child);
            let after = with_child_on_targets(added, kind, targets, child);
            let tile = tiles[a].1;
            let c = tile.current_task_id;
            let needed = task(graph, c).children;
            &&& keeps_work(graph, after)
            &&& task(after, c).children == if is_target(graph, c, targets) {
                needed.push(child).push(child)
            } else if moves_on_top(graph, tile, targets) {
                needed
            } else {
                needed.push(child)
            }
            &&& tile.deferred_task_id matches Some(d) ==> task(after, d).children == if is_target(
                graph,
                d,
                targets,
            ) {
                task(graph, d).children.push(child)
            } else {
                task(graph, d).children
            }
        }),
{
    let kind = BuilderKindView::Tiled { tiles };
    let drawn = drawing_tasks(kind);
    let tile = tiles[a].1;
    let c = tile.current_task_id;
    let needed = task(graph, c).children;
    assert(tile.wf(graph));
    law_child_is_needed_where_it_is_drawn(graph, tiles, targets, child, c);
    assert(drawn[a] == c);
    assert forall|k: int| 0 <= k < drawn.len() && k != a implies #[trigger] drawn[k] != c by {
        assert(tiles[k].1.current_task_id != tiles[a].1.current_task_id);
    }
    lemma_mentioned_once(drawn, c, a);
    lemma_moved_mentions(graph, tiles, targets, c);
    assert(moved_mentions(graph, tiles, targets, c) == if moves_on_top(graph, tile, targets) {
        1nat
    } else {
        0
    }) by {
        if moves_on_top(graph, tile, targets) {
            assert forall|b: int|
                0 <= b < tiles.len() && (#[trigger] tiles[b]).1.current_task_id
                    == c implies moves_on_top(graph, tiles[b].1, targets) by {
                assert(drawn[b] == c);
            }
        }
    }
    lemma_targeted_mentions(graph, tiles, targets, c);
    assert forall|b: int| 0 <= b < tiles.len() implies (#[trigger] tiles[b]).1.deferred_task_id
        != Some(c) by {
        assert(tiles[a].1.current_task_id == c);
    }
    lemma_deferred_mentions(tiles, c, a);
    lemma_followed_once_more(needed, child, 0);
    lemma_followed_once_more(needed, child, 1);
    if let Some(d) = tile.deferred_task_id {
        let above = task(graph, d).children;
        law_child_is_needed_where_it_is_drawn(graph, tiles, targets, child, d);
        assert forall|b: int| 0 <= b < tiles.len() implies (#[trigger] tiles[b]).1.current_task_id
            != d && (b != a ==> tiles[b].1.deferred_task_id != Some(d)) by {
            assert(tiles[a].1.deferred_task_id == Some(d));
        }
        lemma_moved_mentions(graph, tiles, targets, d);
        lemma_targeted_mentions(graph, tiles, targets, d);
        lemma_deferred_mentions(tiles, d, a);
        lemma_followed_once_more(above, child, 0);
    }
}

/// What is added to a surface besides concerns the tasks that hold it only.
pub proof fn law_extras_leave_others(
    graph: Graph,
    kind: BuilderKindView,
    children: Seq<RenderTaskId>,
    id: RenderTaskId,
)
    requires
        is_held(graph, kind),
        has_task(graph, id),
        !holding_tasks(kind).contains(id),
    ensures
        task(with_extras(graph, kind, children), id) == task(graph, id),
    decreases kind.tiles().len(),
{
    match kind {
        BuilderKindView::Tiled { tiles } => {
            if tiles.len() > 0 {
                let shorter = tiles.drop_last();
                let less = BuilderKindView::Tiled { tiles: shorter };
                assert forall|i: int| 0 <= i < shorter.len() implies has_task(
                    graph,
                    (#[trigger] shorter[i]).1.final_task(),
                ) by {
                    assert(shorter[i] == tiles[i]);
                }
                if holding_tasks(less).contains(id) {
                    let i = choose|i: int|
                        0 <= i < holding_tasks(less).len() && holding_tasks(less)[i] == id;
                    assert(holding_tasks(kind)[i] == id);
                }
                law_extras_leave_others(graph, less, children, id);
                law_extras_needed(graph, less, children);
                let last = tiles[tiles.len() - 1].1.final_task();
                assert(holding_tasks(kind)[tiles.len() - 1] == last);
                assert(last.index != id.index);
            }
        },
        BuilderKindView::Simple { render_task_id, .. } => {
            assert(holding_tasks(kind)[0] == render_task_id);
            assert(render_task_id.index != id.index);
        },
        BuilderKindView::Invalid => {},
    }
}

/// When a surface is finished, the tasks that hold it by then need everything that has
/// been added to it besides. Every other task needs what it needs without that.
pub proof fn law_extras_wait_for_the_end(
    stage: Stage,
    pic_index: PictureIndex,
    around: Surroundings,
)
    requires
        stage.surfaces.wf(stage.graph),
        stage.surfaces.stack.len() > 0,
        stage.surfaces.top().kind is Simple ==> stage.surfaces.stack.len() > 1,
    ensures
        ({
            let top = stage.surfaces.top();
            let holders = holding_tasks(top.kind);
            let handed = handed_on(stage, pic_index, around);
            let after = popped(stage, pic_index, around);
            &&& forall|i: int, k: int|
                #![trigger holders[i], top.extra_dependencies[k]]
                0 <= i < holders.len() && 0 <= k < top.extra_dependencies.len() ==> needs(
                    after.graph,
                    holders[i],
                    top.extra_dependencies[k],
                )
            &&& forall|id: RenderTaskId|
                #![trigger task(after.graph, id)]
                has_task(handed.graph, id) && !holders.contains(id) ==> task(after.graph, id)
                    == task(handed.graph, id)
        }),
{
    let stack = stage.surfaces.stack;
    let top = stage.surfaces.top();
    let holders = holding_tasks(top.kind);
    let handed = handed_on(stage, pic_index, around);
    let after = popped(stage, pic_index, around);
    assert(stack[stack.len() - 1].wf(stage.graph));
    lemma_handed_on_len(stage, pic_index, around);
    lemma_held(top.kind, stage.graph, handed.graph);
    law_extras_needed(handed.graph, top.kind, top.extra_dependencies);
    assert forall|id: RenderTaskId|
        #![trigger task(after.graph, id)]
        has_task(handed.graph, id) && !holders.contains(id) implies task(after.graph, id) == task(
        handed.graph,
        id,
    ) by {
        law_extras_leave_others(handed.graph, top.kind, top.extra_dependencies, id);
    }
}

/// What a task needs after all tasks of a list have come to need another one.
pub proof fn lemma_edges_from_needs(
    graph: Graph,
    parents: Seq<RenderTaskId>,
    child: RenderTaskId,
    parent: RenderTaskId,
    id: RenderTaskId,
)
    requires
        forall|k: int| 0 <= k < parents.len() ==> has_task(graph, #[trigger] parents[k]),
        has_task(graph, parent),
    ensures
        needs(with_edges_from(graph, parents, child), parent, id) <==> needs(graph, parent, id) || (
        parents.contains(parent) && id == child),
    decreases parents.len(),
{
    if parents.len() > 0 {
        let shorter = parents.drop_last();
        let last = parents[parents.len() - 1];
        assert forall|k: int| 0 <= k < shorter.len() implies has_task(
            graph,
            #[trigger] shorter[k],
        ) by {
            assert(shorter[k] == parents[k]);
        }
        lemma_edges_from_needs(graph, shorter, child, parent, id);
        lemma_edges_from_kept(graph, shorter, child);
        let before = with_edges_from(graph, shorter, child);
        lemma_edges_to_needs(before, last, seq![child], parent, id);
        assert(task(before, last).children.push(child) =~= task(before, last).children + seq![
            child,
        ]);
        assert(with_edges_from(graph, parents, child) == with_edges_to(before, last, seq![child]));
        assert(seq![child][0] == child);
        if shorter.contains(parent) {
            let k = choose|k: int| 0 <= k < shorter.len() && shorter[k] == parent;
            assert(parents[k] == parent);
        }
        if parents.contains(parent) && parent != last {
            let k = choose|k: int| 0 <= k < parents.len() && parents[k] == parent;
            assert(shorter[k] == parent);
        }
    }
}

/// What a task needs after one task has come to need all of a list.
pub proof fn lemma_edges_to_needs(
    graph: Graph,
    changed: RenderTaskId,
    children: Seq<RenderTaskId>,
    parent: RenderTaskId,
    id: RenderTaskId,
)
    requires
        has_task(graph, changed),
        has_task(graph, parent),
    ensures
        needs(with_edges_to(graph, changed, children), parent, id) <==> needs(graph, parent, id)
            || (parent == changed && children.contains(id)),
{
    if parent != changed {
        assert(parent.index != changed.index);
    } else {
        let before = task(graph, parent).children;
        let all = before + children;
        assert(task(with_edges_to(graph, changed, children), parent).children == all);
        if before.contains(id) {
            let k = choose|k: int| 0 <= k < before.len() && before[k] == id;
            assert(all[k] == id);
        }
        if children.contains(id) {
            let k = choose|k: int| 0 <= k < children.len() && children[k] == id;
            assert(all[before.len() + k] == id);
        }
        if all.contains(id) {
            let k = choose|k: int| 0 <= k < all.len() && all[k] == id;
            if k < before.len() {
                assert(before[k] == id);
            } else {
                assert(children[k - before.len()] == id);
            }
        }
    }
}

/// The task that a sub-graph reads of a simple surface comes to need nothing, but may
/// wait for the one that takes over, and needs itself where it is the resolve target.
proof fn lemma_replaced_in_simple(
    graph: Graph,
    commands: CommandBufferIndex,
    render_task: RenderTaskId,
    root_task: Option<RenderTaskId>,
    sub: SubGraph,
    relations: Relations,
)
    requires
        has_task(graph, render_task),
        has_task(graph, sub.resolve_task),
        graph.len() < usize::MAX,
    ensures
        ({
            let m = merged_simple(graph, commands, render_task, root_task, sub, relations);
            forall|id: RenderTaskId|
                id != m.next ==> (#[trigger] needs(m.graph, render_task, id) <==> needs(
                    graph,
                    render_task,
                    id,
                ) || (render_task == sub.resolve_task && id == render_task))
        }),
{
    let m = merged_simple(graph, commands, render_task, root_task, sub, relations);
    let next = RenderTaskId { index: graph.len() as usize };
    let ordered = with_edge(graph, sub.resolve_task, render_task);
    let continued = ordered.push(continuation(ordered, render_task, commands));
    let spliced = spliced_simple(graph, commands, render_task, root_task, sub).graph;
    assert(task(continued, render_task) == task(ordered, render_task));
    assert(spliced.len() == graph.len() + 1);
    assert(task(m.graph, render_task).children == task(spliced, render_task).children);
    let before = task(ordered, render_task).children;
    let after = task(spliced, render_task).children;
    assert(after == before || after == before.push(next));
    assert forall|id: RenderTaskId| id != m.next implies (#[trigger] needs(
        m.graph,
        render_task,
        id,
    ) <==> needs(graph, render_task, id) || (render_task == sub.resolve_task && id
        == render_task)) by {
        lemma_edges_to_needs(graph, sub.resolve_task, seq![render_task], render_task, id);
        let old_children = task(graph, sub.resolve_task).children;
        assert(old_children.push(render_task) =~= old_children + seq![render_task]);
        assert(ordered == with_edges_to(graph, sub.resolve_task, seq![render_task]));
        assert(seq![render_task][0] == render_task);
        if before.contains(id) {
            let k = choose|k: int| 0 <= k < before.len() && before[k] == id;
            assert(after[k] == id);
        }
        if after.contains(id) {
            let k = choose|k: int| 0 <= k < after.len() && after[k] == id;
            assert(before[k] == id);
        }
    }
}

/// A task that is added to a surface besides goes to the task that holds the surface at
/// its end, not to the one that commands went to when it was added. Between the two, a
/// sub-graph that reads the surface makes another task take over. The task that has
/// taken over needs what was added, and is needed by the surface below, itself or
/// through what filters it. The task that was replaced comes to need none of that: it
/// may wait for the one that has taken over, and gains something else only where it has
/// another role as well. As the resolve target it needs itself, as the task of the
/// sub-graph what was added to that, and as a task of the surface below the output.
pub proof fn law_extra_goes_to_the_last_task(
    stack: Seq<BuilderView>,
    added: RenderTaskId,
    child: BuilderView,
    stage: Stage,
    pic_index: PictureIndex,
    around: Surroundings,
    end_pic_index: PictureIndex,
    end_around: Surroundings,
)
    requires
        stack.len() > 1,
        stack.last().kind is Simple,
        !stack.last().establishes_sub_graph,
        child.establishes_sub_graph,
        child.resolve_source is Some,
        stage.surfaces.stack == with_extra(stack, added).push(child),
        stage.surfaces.wf(stage.graph),
        stage.graph.len() < usize::MAX,
    ensures
        ({
            let replaced = stack.last().kind->render_task_id;
            let next = RenderTaskId { index: stage.graph.len() as usize };
            let output = match stack.last().kind->root_task_id {
                Some(root) => root,
                None => next,
            };
            let parents = drawing_tasks(stack[stack.len() - 2].kind);
            let merge = popped(stage, pic_index, around);
            let after = popped(merge, end_pic_index, end_around);
            &&& merge.surfaces.top().kind->render_task_id == next
            &&& needs(after.graph, next, added)
            &&& forall|k: int|
                0 <= k < parents.len() ==> needs(after.graph, #[trigger] parents[k], output)
            &&& forall|id: RenderTaskId|
                id != next ==> (#[trigger] needs(after.graph, replaced, id) <==> {
                    ||| needs(stage.graph, replaced, id)
                    ||| replaced == (child.resolve_source->0).0 && id == replaced
                    ||| replaced == child.kind->render_task_id
                        && child.extra_dependencies.contains(id)
                    ||| parents.contains(replaced) && id == output
                })
            &&& added != next
        }),
{
    let graph = stage.graph;
    let n = stack.len() - 1;
    let surface = with_extra(stack, added)[n];
    let under = stack[n - 1];
    let p = surface.kind->render_task_id;
    let root_task = surface.kind->root_task_id;
    let next = RenderTaskId { index: graph.len() as usize };
    let sub = sub_graph(child);
    let commands = CommandBufferIndex(stage.cmd_buffers.len() as usize);
    let full = stage.surfaces.stack;
    assert(full.last() == child);
    assert(full.drop_last() =~= with_extra(stack, added));
    assert(full[n] == surface && full[n + 1] == child && full[n - 1] == under);
    assert(child.wf(graph) && surface.wf(graph) && under.wf(graph));
    assert(surface.extra_dependencies.last() == added);
    let last: int = surface.extra_dependencies.len() - 1;
    assert(has_task(graph, surface.extra_dependencies[last]));
    law_sub_graph_in_simple(graph, commands, p, root_task, sub, around.relations);
    let m = merged_simple(graph, commands, p, root_task, sub, around.relations).graph;
    let handed = handed_on(stage, pic_index, around);
    assert(handed.graph == m);
    let merge = popped(stage, pic_index, around);
    lemma_held(child.kind, graph, m);
    law_extras_needed(m, child.kind, child.extra_dependencies);
    // The surface goes on with the next task, and keeps what was added to it.
    let going_on = merge.surfaces.top();
    assert(merge.surfaces.stack[n] == going_on);
    assert(going_on.extra_dependencies == surface.extra_dependencies);
    assert(going_on.kind->render_task_id == next);
    assert(merge.surfaces.stack.drop_last().last() == under);
    let after = popped(merge, end_pic_index, end_around);
    let end = handed_on(merge, end_pic_index, end_around);
    let parents = drawing_tasks(under.kind);
    let output = going_on.kind.output_task();
    lemma_drawing_tasks(under.kind, graph);
    lemma_edges_from_kept(merge.graph, parents, output);
    assert(is_held(end.graph, going_on.kind));
    law_extras_needed(end.graph, going_on.kind, going_on.extra_dependencies);
    assert(holding_tasks(going_on.kind)[0] == next);
    assert(needs(after.graph, holding_tasks(going_on.kind)[0], going_on.extra_dependencies[last]));
    assert(!holding_tasks(going_on.kind).contains(p));
    assert forall|k: int| 0 <= k < parents.len() implies needs(
        after.graph,
        #[trigger] parents[k],
        output,
    ) by {
        assert(needs(end.graph, parents[k], output));
    }
    law_extras_leave_others(end.graph, going_on.kind, going_on.extra_dependencies, p);
    lemma_replaced_in_simple(graph, commands, p, root_task, sub, around.relations);
    assert(task(after.graph, p) == task(end.graph, p));
    assert forall|id: RenderTaskId| id != next implies (#[trigger] needs(after.graph, p, id)
        <==> {
        ||| needs(graph, p, id)
        ||| p == sub.resolve_task && id == p
        ||| p == child.kind->render_task_id && child.extra_dependencies.contains(id)
        ||| parents.contains(p) && id == output
    }) by {
        lemma_edges_from_needs(merge.graph, parents, output, p, id);
        lemma_edges_to_needs(
            m,
            child.kind->render_task_id,
            child.extra_dependencies,
            p,
            id,
        );
        assert(needs(m, p, id) <==> needs(graph, p, id) || (p == sub.resolve_task && id == p));
    }
}

/// Whether a list mentions `child` at `k`, and not after that.
pub open spec fn is_last_mention(list: Seq<RenderTaskId>, child: RenderTaskId, k: int) -> bool {
    &&& 0 <= k < list.len()
    &&& list[k] == child
    &&& forall|j: int| k < j < list.len() ==> #[trigger] list[j] != child
}

/// Whether `after` is the list with the last mention of `child` taken out, if there is any.
pub open spec fn takes_out_last(
    before: Seq<RenderTaskId>,
    after: Seq<RenderTaskId>,
    child: RenderTaskId,
) -> bool {
    if before.contains(child) {
        exists|k: int| #[trigger] is_last_mention(before, child, k) && after == before.remove(k)
    } else {
        after == before
    }
}

/// Of the mentions of a task in a list, the last one is taken out, and nothing else.
pub proof fn law_last_mention_is_taken_out(list: Seq<RenderTaskId>, child: RenderTaskId)
    ensures
        takes_out_last(list, without_last(list, child), child),
    decreases list.len(),
{
    if list.len() > 0 {
        let shorter = list.drop_last();
        let n = shorter.len() as int;
        if list.last() == child {
            assert(list[n] == child);
            assert(is_last_mention(list, child, n));
            assert(shorter =~= list.remove(n));
        } else {
            law_last_mention_is_taken_out(shorter, child);
            if list.contains(child) {
                let j = choose|j: int| 0 <= j < list.len() && list[j] == child;
                assert(shorter[j] == child);
                let k = choose|k: int| #[trigger]
                    is_last_mention(shorter, child, k) && without_last(shorter, child)
                        == shorter.remove(k);
                assert forall|j: int| k < j < list.len() implies #[trigger] list[j] != child by {
                    if j < n {
                        assert(shorter[j] == list[j]);
                    }
                }
                assert(is_last_mention(list, child, k));
                assert(without_last(list, child) =~= list.remove(k));
            } else {
                assert(!shorter.contains(child)) by {
                    if shorter.contains(child) {
                        let j = choose|j: int| 0 <= j < shorter.len() && shorter[j] == child;
                        assert(list[j] == child);
                    }
                }
                assert(without_last(list, child) =~= list);
            }
        }
    }
}

/// Where at most one of the tiles is drawn by a task, moving a command on top takes out
/// what that task needs at most once.
proof fn lemma_moved_off_alone(
    graph: Graph,
    tiles: Tiles,
    targets: Seq<CommandBufferIndex>,
    child: RenderTaskId,
    id: RenderTaskId,
    i: int,
)
    requires
        forall|a: int| 0 <= a < tiles.len() ==> (#[trigger] tiles[a]).1.wf(graph),
        has_task(graph, id),
        forall|a: int|
            0 <= a < tiles.len() && (#[trigger] tiles[a]).1.current_task_id == id ==> a == i,
    ensures
        ({
            let list = task(graph, id).children;
            let moves = 0 <= i < tiles.len() && tiles[i].1.current_task_id == id && moves_on_top(
                graph,
                tiles[i].1,
                targets,
            );
            task(moved_off_tiles(graph, tiles, targets, child), id).children == if moves {
                without_last(list, child)
            } else {
                list
            }
        }),
    decreases tiles.len(),
{
    if tiles.len() > 0 {
        let shorter = tiles.drop_last();
        let n = shorter.len() as int;
        let tile = tiles[n].1;
        assert forall|a: int| 0 <= a < shorter.len() implies (#[trigger] shorter[a]).1.wf(graph)
            && (shorter[a].1.current_task_id == id ==> a == i) by {
            assert(shorter[a] == tiles[a]);
        }
        lemma_moved_off_alone(graph, shorter, targets, child, id, i);
        assert forall|a: int| 0 <= a < shorter.len() implies has_task(
            graph,
            (#[trigger] shorter[a]).1.current_task_id,
        ) by {
            assert(shorter[a].1.wf(graph));
        }
        lemma_moved_off_work(graph, shorter, targets, child);
        assert(tile.wf(graph));
        let before = moved_off_tiles(graph, shorter, targets, child);
        let c = task(before, tile.current_task_id);
        let d = task(before, tile.deferred_task_id->0);
        assert(moves_on_top(before, tile, targets) == moves_on_top(graph, tile, targets));
        if 0 <= i < n {
            assert(shorter[i] == tiles[i]);
        }
        if tile.current_task_id != id {
            assert(tile.current_task_id.index != id.index);
        }
    }
}

/// Once the buffers of a command are chosen, what the command needs is needed by each task
/// that draws one of them. Where it is only drawn on top of the deferred outputs of a tile,
/// the task below needs it once less, if it does at all: its last mention is taken out.
/// Otherwise that task keeps what it needs. This is where every task draws one of the tiles.
pub proof fn law_targets_need_the_child(
    graph: Graph,
    tiles: Tiles,
    targets: Seq<CommandBufferIndex>,
    child: RenderTaskId,
    i: int,
)
    requires
        tiles_wf(tiles, graph),
        tiles_apart(tiles),
        0 <= i < tiles.len(),
    ensures
        ({
            let after = with_child_on_targets(
                graph,
                BuilderKindView::Tiled { tiles },
                targets,
                child,
            );
            let c = tiles[i].1.current_task_id;
            let d = tiles[i].1.deferred_task_id->0;
            let below = targets.contains(task(graph, c).kind->Picture_0.cmd_buffer_index);
            let above = tiles[i].1.deferred_task_id is Some && targets.contains(
                task(graph, d).kind->Picture_0.cmd_buffer_index,
            );
            let needed = task(graph, c).children;
            &&& below ==> task(after, c).children == needed.push(child)
            &&& !below && above ==> takes_out_last(needed, task(after, c).children, child)
            &&& !below && !above ==> task(after, c).children == needed
            &&& tiles[i].1.deferred_task_id is Some ==> task(after, d).children == if above {
                task(graph, d).children.push(child)
            } else {
                task(graph, d).children
            }
        }),
{
    let kind = BuilderKindView::Tiled { tiles };
    let drawn = drawing_tasks(kind);
    let tile = tiles[i].1;
    let c = tile.current_task_id;
    let needed = task(graph, c).children;
    let moved = moved_off_tiles(graph, tiles, targets, child);
    let owners = targeted_tasks(graph, tiles, targets);
    assert forall|a: int| 0 <= a < tiles.len() implies (#[trigger] tiles[a]).1.wf(graph)
        && has_task(graph, tiles[a].1.current_task_id) && (tiles[a].1.current_task_id == c ==> a
        == i) by {
        assert(tiles[i].1.current_task_id == c);
    }
    lemma_moved_off_alone(graph, tiles, targets, child, c, i);
    lemma_moved_off_work(graph, tiles, targets, child);
    lemma_targeted_in_graph(graph, tiles, targets);
    lemma_edges_from_mentions(moved, owners, child, c);
    assert(drawn[i] == c);
    assert forall|k: int| 0 <= k < drawn.len() && k != i implies #[trigger] drawn[k] != c by {
        assert(tiles[k].1.current_task_id != tiles[i].1.current_task_id);
    }
    lemma_mentioned_once(drawn, c, i);
    lemma_targeted_mentions(graph, tiles, targets, c);
    assert forall|b: int| 0 <= b < tiles.len() implies (#[trigger] tiles[b]).1.deferred_task_id
        != Some(c) by {
        assert(tiles[i].1.current_task_id == c);
    }
    lemma_deferred_mentions(tiles, c, i);
    lemma_followed_once_more(task(moved, c).children, child, 0);
    law_last_mention_is_taken_out(needed, child);
    if let Some(d) = tile.deferred_task_id {
        assert(has_task(graph, d));
        assert forall|b: int| 0 <= b < tiles.len() implies (#[trigger] tiles[b]).1.current_task_id
            != d && (b != i ==> tiles[b].1.deferred_task_id != Some(d)) by {
            assert(tiles[i].1.deferred_task_id == Some(d));
        }
        lemma_moved_off_alone(graph, tiles, targets, child, d, -1);
        lemma_edges_from_mentions(moved, owners, child, d);
        assert forall|k: int| 0 <= k < drawn.len() implies #[trigger] drawn[k] != d by {
            assert(tiles[k].1.current_task_id != d);
        }
        lemma_mentioned_once(drawn, d, -1);
        lemma_targeted_mentions(graph, tiles, targets, d);
        lemma_deferred_mentions(tiles, d, i);
        lemma_followed_once_more(task(moved, d).children, child, 0);
    }
}

} // verus!
