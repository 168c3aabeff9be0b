//! Choosing the command buffers that a primitive is drawn from.

use vstd::prelude::*;

use crate::command_buffer::{
    tiles_wf, BuilderKindView, CommandBufferBuilderKind, CommandBufferIndex,
};
use crate::finish::add_dependencies;
use crate::geometry::PictureRect;
use crate::growth::{
    grows, keeps_work, lemma_edge_grows, lemma_edges_from_grows, lemma_grows_trans,
    lemma_keeps_refl, lemma_slots_wf, lemma_update_grows, lemma_work_trans,
};
use crate::render_task_graph::{
    graph_wf, has_task, is_picture, task, with_edge, with_edges_from, Graph, RenderTaskGraphBuilder,
    RenderTaskId, RenderTaskKind, TaskView,
};
use crate::tile::{has_key, same_slots, SubSliceIndex, TileKey, TileMap, TileView, Tiles};

verus! {

/// Whether and where a primitive is visible.
#[derive(Clone, Copy, Debug, PartialEq, Eq, Structural)]
pub enum DrawState {
    /// That has not been found out.
    Unset,
    /// It is not visible.
    Culled,
    /// It is visible in a sub-slice.
    Visible { sub_slice_index: SubSliceIndex },
    /// It draws nothing itself, and is handed on.
    PassThrough,
}

/// What is known of a primitive when it is drawn.
#[derive(Clone, Copy, Debug, PartialEq, Eq, Structural)]
pub struct PrimitiveDrawHeader {
    /// Whether and where it is visible.
    pub state: DrawState,
    /// What it covers of the picture.
    pub pic_coverage_rect: PictureRect,
}

/// The commands that a picture task draws.
pub open spec fn buffer_of(graph: Graph, id: RenderTaskId) -> CommandBufferIndex {
    task(graph, id).picture().cmd_buffer_index
}

/// The commands that a picture task draws.
pub fn task_buffer(rg_builder: &RenderTaskGraphBuilder, id: RenderTaskId) -> (r:
    CommandBufferIndex)
    requires
        is_picture(rg_builder@, id),
    ensures
        r == buffer_of(rg_builder@, id),
{
    match &rg_builder.get_task(id).kind {
        RenderTaskKind::Picture(info) => info.cmd_buffer_index,
        _ => {
            assert(false);
            CommandBufferIndex(0)
        },
    }
}

/// Whether a primitive that covers `rect` is drawn on top of the deferred outputs
/// of a tile: one that draws the output of a backdrop filter always is, and any
/// other one only where it covers a part of them.
pub open spec fn goes_on_top(tile: TileView, rect: PictureRect, is_backdrop_render: bool) -> bool {
    if is_backdrop_render {
        tile.deferred_task_id is Some
    } else {
        tile.output_overlaps(rect)
    }
}

/// The tile after a primitive that covers `rect` has been drawn on it. What is
/// drawn on top of the deferred outputs is one of them.
pub open spec fn routed_tile(
    tile: TileView,
    rect: PictureRect,
    is_backdrop_render: bool,
) -> TileView {
    if goes_on_top(tile, rect, is_backdrop_render) {
        tile.with_output(rect)
    } else {
        tile
    }
}

/// The task of a tile that draws a primitive which covers `rect`.
pub open spec fn routed_task(
    tile: TileView,
    rect: PictureRect,
    is_backdrop_render: bool,
) -> RenderTaskId {
    if goes_on_top(tile, rect, is_backdrop_render) {
        tile.deferred_task_id->0
    } else {
        tile.current_task_id
    }
}

/// The place of the tile with the key.
pub open spec fn tile_place(tiles: Tiles, key: TileKey) -> int {
    choose|i: int| 0 <= i < tiles.len() && #[trigger] tiles[i].0 == key
}

/// The tiles of a surface, and the buffers that a primitive is drawn from.
#[verifier::ext_equal]
pub struct Routing {
    pub tiles: Tiles,
    pub buffers: Seq<CommandBufferIndex>,
}

/// Drawing a primitive that covers `rect` on the tiles with the given keys, in
/// turn.
pub open spec fn routed(
    graph: Graph,
    tiles: Tiles,
    keys: Seq<TileKey>,
    rect: PictureRect,
    is_backdrop_render: bool,
) -> Routing
    decreases keys.len(),
{
    if keys.len() == 0 {
        Routing { tiles, buffers: Seq::empty() }
    } else {
        let before = routed(graph, tiles, keys.drop_last(), rect, is_backdrop_render);
        let i = tile_place(before.tiles, keys.last());
        let tile = before.tiles[i].1;
        Routing {
            tiles: before.tiles.update(
                i,
                (keys.last(), routed_tile(tile, rect, is_backdrop_render)),
            ),
            buffers: before.buffers.push(
                buffer_of(graph, routed_task(tile, rect, is_backdrop_render)),
            ),
        }
    }
}

/// Draws a primitive that covers `rect` on the tiles with the given keys. Gives
/// the buffers that it is drawn from.
pub fn route(
    tiles: &mut TileMap,
    rg_builder: &RenderTaskGraphBuilder,
    keys: &Vec<TileKey>,
    rect: &PictureRect,
    is_backdrop_render: bool,
) -> (targets: Vec<CommandBufferIndex>)
    requires
        tiles_wf(old(tiles)@, rg_builder@),
        forall|k: int| 0 <= k < keys@.len() ==> has_key(old(tiles)@, #[trigger] keys@[k]),
    ensures
        routed(rg_builder@, old(tiles)@, keys@, *rect, is_backdrop_render) == (Routing {
            tiles: final(tiles)@,
            buffers: targets@,
        }),
        targets@.len() == keys@.len(),
        tiles_wf(final(tiles)@, rg_builder@),
        same_slots(old(tiles)@, final(tiles)@),
{
    let ghost graph = rg_builder@;
    let ghost tiles0 = tiles@;
    let mut targets: Vec<CommandBufferIndex> = Vec::new();
    let mut n: usize = 0;
    assert(keys@.take(0) =~= Seq::<TileKey>::empty());
    while n < keys.len()
        invariant
            n <= keys@.len(),
            graph == rg_builder@,
            tiles_wf(tiles0, graph),
            tiles_wf(tiles@, graph),
            same_slots(tiles0, tiles@),
            forall|k: int| 0 <= k < keys@.len() ==> has_key(tiles0, #[trigger] keys@[k]),
            targets@.len() == n,
            routed(graph, tiles0, keys@.take(n as int), *rect, is_backdrop_render) == (Routing {
                tiles: tiles@,
                buffers: targets@,
            }),
        decreases keys@.len() - n,
    {
        let key = keys[n];
        let ghost before = tiles@;
        proof {
            assert(keys@.take(n + 1).drop_last() =~= keys@.take(n as int));
            assert(keys@.take(n + 1).last() == key);
            assert(has_key(tiles0, keys@[n as int]));
            let i0 = choose|i: int| 0 <= i < tiles0.len() && #[trigger] tiles0[i].0 == key;
            assert(before[i0].0 == key);
        }
        match tiles.find(key) {
            Some(i) => {
                assert(before[i as int].0 == key);
                assert(tile_place(before, key) == i);
                assert(before[i as int].1.wf(graph));
                let tile = tiles.tile_at_mut(i);
                let ghost tile0 = tile@;
                let on_top: bool = if is_backdrop_render {
                    tile.deferred_task_id.is_some()
                } else {
                    tile.deferred_output_intersects(rect)
                };
                assert(on_top == goes_on_top(tile0, *rect, is_backdrop_render));
                let deferred_task_id = tile.deferred_task_id;
                let mut task_id = tile.current_task_id;
                if on_top {
                    if let Some(id) = deferred_task_id {
                        task_id = id;
                    }
                    tile.add_deferred_output_rect(*rect);
                }
                assert(task_id == routed_task(tile0, *rect, is_backdrop_render));
                assert(tile@ == routed_tile(tile0, *rect, is_backdrop_render));
                assert(tile@.wf(graph));
                let ghost tile1 = tile@;
                assert(tile1.composite_task_id == tile0.composite_task_id);
                targets.push(task_buffer(rg_builder, task_id));
                proof {
                    assert(tiles@ == before.update(i as int, (key, tile1)));
                    assert(same_slots(before, tiles@));
                    lemma_slots_wf(before, tiles@, graph, graph);
                }
            },
            None => {
                assert(false);
            },
        }
        n = n + 1;
    }
    assert(keys@.take(keys@.len() as int) =~= keys@);
    targets
}

/// Whether a task draws one of the buffers.
pub open spec fn is_target(
    graph: Graph,
    id: RenderTaskId,
    targets: Seq<CommandBufferIndex>,
) -> bool {
    targets.contains(buffer_of(graph, id))
}

/// The tasks of the tiles that draw one of the buffers.
pub open spec fn targeted_tasks(
    graph: Graph,
    tiles: Tiles,
    targets: Seq<CommandBufferIndex>,
) -> Seq<RenderTaskId>
    decreases tiles.len(),
{
    if tiles.len() == 0 {
        Seq::empty()
    } else {
        let tile = tiles.last().1;
        let earlier = targeted_tasks(graph, tiles.drop_last(), targets);
        let with_current = if is_target(graph, tile.current_task_id, targets) {
            earlier.push(tile.current_task_id)
        } else {
            earlier
        };
        if tile.deferred_task_id is Some && is_target(graph, tile.deferred_task_id->0, targets) {
            with_current.push(tile.deferred_task_id->0)
        } else {
            with_current
        }
    }
}

/// The list without the last mention of `child`.
pub open spec fn without_last(list: Seq<RenderTaskId>, child: RenderTaskId) -> Seq<RenderTaskId>
    decreases list.len(),
{
    if list.len() == 0 {
        list
    } else if list.last() == child {
        list.drop_last()
    } else {
        without_last(list.drop_last(), child).push(list.last())
    }
}

/// Whether a command that goes to one of the buffers is only drawn on top of the
/// deferred outputs of the tile.
pub open spec fn moves_on_top(
    graph: Graph,
    tile: TileView,
    targets: Seq<CommandBufferIndex>,
) -> bool {
    &&& tile.deferred_task_id is Some
    &&& is_target(graph, tile.deferred_task_id->0, targets)
    &&& !is_target(graph, tile.current_task_id, targets)
}

/// The graph after a command that needs `child` has moved on top of the deferred
/// outputs of a tile: the task below them does not need it any more.
pub open spec fn moved_off_tile(
    graph: Graph,
    tile: TileView,
    targets: Seq<CommandBufferIndex>,
    child: RenderTaskId,
) -> Graph {
    if moves_on_top(graph, tile, targets) {
        graph.update(
            tile.current_task_id.index as int,
            TaskView {
                children: without_last(task(graph, tile.current_task_id).children, child),
                ..task(graph, tile.current_task_id)
            },
        )
    } else {
        graph
    }
}

/// The graph after that for every tile, in turn.
pub open spec fn moved_off_tiles(
    graph: Graph,
    tiles: Tiles,
    targets: Seq<CommandBufferIndex>,
    child: RenderTaskId,
) -> Graph
    decreases tiles.len(),
{
    if tiles.len() == 0 {
        graph
    } else {
        moved_off_tile(
            moved_off_tiles(graph, tiles.drop_last(), targets, child),
            tiles.last().1,
            targets,
            child,
        )
    }
}

/// The graph in which the tasks of a surface that draw one of the buffers need
/// `child`.
pub open spec fn with_child_on_targets(
    graph: Graph,
    kind: BuilderKindView,
    targets: Seq<CommandBufferIndex>,
    child: RenderTaskId,
) -> Graph {
    match kind {
        BuilderKindView::Tiled { tiles } => with_edges_from(
            moved_off_tiles(graph, tiles, targets, child),
            targeted_tasks(graph, tiles, targets),
            child,
        ),
        BuilderKindView::Simple { render_task_id, .. } => with_edge(graph, render_task_id, child),
        BuilderKindView::Invalid => graph,
    }
}

/// What is left of a list when a mention is taken out was in it.
pub proof fn lemma_without_last(list: Seq<RenderTaskId>, child: RenderTaskId, k: int)
    requires
        0 <= k < without_last(list, child).len(),
    ensures
        list.contains(without_last(list, child)[k]),
        without_last(list, child).len() <= list.len(),
    decreases list.len(),
{
    if list.len() > 0 {
        let shorter = list.drop_last();
        if list.last() == child {
            assert(list[k] == without_last(list, child)[k]);
        } else if k < without_last(shorter, child).len() {
            lemma_without_last(shorter, child, k);
            let j = choose|j: int|
                0 <= j < shorter.len() && shorter[j] == without_last(shorter, child)[k];
            assert(list[j] == without_last(list, child)[k]);
        } else {
            if without_last(shorter, child).len() > 0 {
                lemma_without_last(shorter, child, 0);
            }
            assert(list[list.len() - 1] == list.last());
        }
    }
}

/// A mention may be taken out of what a task needs.
proof fn lemma_moved_off_grows(
    graph: Graph,
    tile: TileView,
    targets: Seq<CommandBufferIndex>,
    child: RenderTaskId,
)
    requires
        graph_wf(graph),
        has_task(graph, tile.current_task_id),
    ensures
        grows(graph, moved_off_tile(graph, tile, targets, child)),
        keeps_work(graph, moved_off_tile(graph, tile, targets, child)),
        moved_off_tile(graph, tile, targets, child).len() == graph.len(),
{
    lemma_keeps_refl(graph);
    if moves_on_top(graph, tile, targets) {
        let id = tile.current_task_id;
        let children = task(graph, id).children;
        let changed = TaskView { children: without_last(children, child), ..task(graph, id) };
        assert(graph[id.index as int].sizable());
        assert forall|k: int| 0 <= k < changed.children.len() implies has_task(
            graph,
            #[trigger] changed.children[k],
        ) by {
            lemma_without_last(children, child, k);
            let j = choose|j: int| 0 <= j < children.len() && children[j] == changed.children[k];
            assert(graph[id.index as int].children[j] == changed.children[k]);
        }
        lemma_update_grows(graph, id, changed);
    }
}

/// The tasks of the tiles that draw one of the buffers are tasks of the graph.
pub proof fn lemma_targeted_in_graph(graph: Graph, tiles: Tiles, targets: Seq<CommandBufferIndex>)
    requires
        forall|i: int| 0 <= i < tiles.len() ==> (#[trigger] tiles[i]).1.wf(graph),
    ensures
        forall|k: int|
            0 <= k < targeted_tasks(graph, tiles, targets).len() ==> has_task(
                graph,
                #[trigger] targeted_tasks(graph, tiles, targets)[k],
            ),
    decreases tiles.len(),
{
    if tiles.len() > 0 {
        let shorter = tiles.drop_last();
        assert forall|i: int| 0 <= i < shorter.len() implies (#[trigger] shorter[i]).1.wf(
            graph,
        ) by {
            assert(shorter[i] == tiles[i]);
        }
        lemma_targeted_in_graph(graph, shorter, targets);
        assert(tiles[tiles.len() - 1].1.wf(graph));
        let earlier = targeted_tasks(graph, shorter, targets);
        let all = targeted_tasks(graph, tiles, targets);
        assert forall|k: int| 0 <= k < all.len() implies has_task(graph, #[trigger] all[k]) by {
            if k < earlier.len() {
                assert(all[k] == earlier[k]);
            }
        }
    }
}

/// Takes the last mention of `child` out of what a task needs.
fn remove_last_child(
    rg_builder: &mut RenderTaskGraphBuilder,
    parent: RenderTaskId,
    child: RenderTaskId,
)
    requires
        has_task(old(rg_builder)@, parent),
    ensures
        final(rg_builder)@ == old(rg_builder)@.update(
            parent.index as int,
            TaskView {
                children: without_last(task(old(rg_builder)@, parent).children, child),
                ..task(old(rg_builder)@, parent)
            },
        ),
{
    let ghost children = task(rg_builder@, parent).children;
    let current_task = rg_builder.get_task_mut(parent);
    let mut i: usize = current_task.children.len();
    proof {
        assert(children.take(i as int) =~= children);
        assert(children.skip(i as int) =~= Seq::<RenderTaskId>::empty());
        assert(without_last(children, child) =~= without_last(children.take(i as int), child)
            + children.skip(i as int));
    }
    while i > 0 && current_task.children[i - 1] != child
        invariant
            i <= children.len(),
            current_task.children@ == children,
            without_last(children, child) == without_last(children.take(i as int), child)
                + children.skip(i as int),
        decreases i,
    {
        proof {
            let upto = children.take(i as int);
            assert(upto.drop_last() =~= children.take(i - 1));
            assert(upto.last() == children[i - 1]);
            assert(without_last(upto, child) + children.skip(i as int) =~= without_last(
                children.take(i - 1),
                child,
            ) + children.skip(i - 1));
        }
        i = i - 1;
    }
    if i > 0 {
        let _removed = current_task.children.remove(i - 1);
        proof {
            let upto = children.take(i as int);
            assert(upto.last() == child);
            assert(upto.drop_last() =~= children.take(i - 1));
            assert(current_task.children@ =~= without_last(children, child));
        }
    } else {
        proof {
            assert(children.take(0) =~= Seq::<RenderTaskId>::empty());
            assert(current_task.children@ =~= without_last(children, child));
        }
    }
}

/// Whether a list of buffers holds one.
fn holds_buffer(targets: &[CommandBufferIndex], buffer: CommandBufferIndex) -> (r: bool)
    ensures
        r == targets@.contains(buffer),
{
    let mut i: usize = 0;
    while i < targets.len()
        invariant
            i <= targets@.len(),
            forall|k: int| 0 <= k < i ==> #[trigger] targets@[k] != buffer,
        decreases targets@.len() - i,
    {
        if targets[i] == buffer {
            assert(targets@[i as int] == buffer);
            return true;
        }
        i = i + 1;
    }
    false
}

/// Makes the tasks of tiles that draw one of the buffers need `child`.
fn add_child_to_tiles(
    tiles: &TileMap,
    targets: &[CommandBufferIndex],
    child: RenderTaskId,
    rg_builder: &mut RenderTaskGraphBuilder,
)
    requires
        graph_wf(old(rg_builder)@),
        tiles_wf(tiles@, old(rg_builder)@),
        has_task(old(rg_builder)@, child),
    ensures
        final(rg_builder)@ == with_child_on_targets(
            old(rg_builder)@,
            (BuilderKindView::Tiled { tiles: tiles@ }),
            targets@,
            child,
        ),
        grows(old(rg_builder)@, final(rg_builder)@),
{
    let ghost graph = rg_builder@;
    let mut task_ids: Vec<RenderTaskId> = Vec::new();
    let mut n: usize = 0;
    proof {
        lemma_keeps_refl(graph);
        assert(tiles@.take(0) =~= Seq::<(TileKey, TileView)>::empty());
    }
    while n < tiles.len()
        invariant
            n <= tiles@.len(),
            graph_wf(graph),
            tiles_wf(tiles@, graph),
            task_ids@ == targeted_tasks(graph, tiles@.take(n as int), targets@),
            rg_builder@ == moved_off_tiles(graph, tiles@.take(n as int), targets@, child),
            grows(graph, rg_builder@),
            keeps_work(graph, rg_builder@),
            rg_builder@.len() == graph.len(),
        decreases tiles@.len() - n,
    {
        let tile = tiles.tile_at(n);
        let ghost before = rg_builder@;
        proof {
            assert(tiles@.take(n + 1).drop_last() =~= tiles@.take(n as int));
            assert(tiles@.take(n + 1).last() == tiles@[n as int]);
            assert(tile@.wf(graph));
            let a = task(before, tile@.current_task_id);
            let b = task(before, tile@.deferred_task_id->0);
            lemma_moved_off_grows(before, tile@, targets@, child);
        }
        let current_is_target: bool = holds_buffer(
            targets,
            task_buffer(rg_builder, tile.current_task_id),
        );
        if current_is_target {
            task_ids.push(tile.current_task_id);
        }
        if let Some(task_id) = tile.deferred_task_id {
            if holds_buffer(targets, task_buffer(rg_builder, task_id)) {
                if !current_is_target {
                    // The choice of buffers can move a command after its child
                    // has been attached to the task below.
                    remove_last_child(rg_builder, tile.current_task_id, child);
                }
                task_ids.push(task_id);
            }
        }
        proof {
            assert(rg_builder@ == moved_off_tile(before, tile@, targets@, child));
            lemma_grows_trans(graph, before, rg_builder@);
            lemma_work_trans(graph, before, rg_builder@);
        }
        n = n + 1;
    }
    let ghost moved = rg_builder@;
    proof {
        assert(tiles@.take(tiles@.len() as int) =~= tiles@);
        lemma_targeted_in_graph(graph, tiles@, targets@);
        lemma_edges_from_grows(moved, task_ids@, child);
        lemma_grows_trans(graph, moved, with_edges_from(moved, task_ids@, child));
    }
    add_dependencies(rg_builder, &task_ids, child);
}

/// Makes the tasks of a surface that draw one of the buffers need `child`.
pub fn add_child_to_targets(
    kind: &CommandBufferBuilderKind,
    targets: &[CommandBufferIndex],
    child: RenderTaskId,
    rg_builder: &mut RenderTaskGraphBuilder,
)
    requires
        graph_wf(old(rg_builder)@),
        match kind@ {
            BuilderKindView::Tiled { tiles } => tiles_wf(tiles, old(rg_builder)@),
            BuilderKindView::Simple { render_task_id, .. } => has_task(
                old(rg_builder)@,
                render_task_id,
            ),
            BuilderKindView::Invalid => true,
        },
        has_task(old(rg_builder)@, child),
    ensures
        final(rg_builder)@ == with_child_on_targets(old(rg_builder)@, kind@, targets@, child),
        grows(old(rg_builder)@, final(rg_builder)@),
{
    proof {
        lemma_keeps_refl(rg_builder@);
    }
    match kind {
        CommandBufferBuilderKind::Tiled { tiles } => {
            add_child_to_tiles(tiles, targets, child, rg_builder);
        },
        CommandBufferBuilderKind::Simple { render_task_id, .. } => {
            proof {
                lemma_edge_grows(rg_builder@, *render_task_id, child);
            }
            rg_builder.add_dependency(*render_task_id, child);
        },
        CommandBufferBuilderKind::Invalid => {},
    }
}

} // verus!
