//! Where primitives and what they need go: said of tiles, buffers and rectangles one by
//! one.

use vstd::prelude::*;

use crate::backdrop::BackdropSource;
use crate::command_buffer::{
    surface_targets, target_buffers, target_keys, targets_for_rect, tile_target, tile_targets,
    tiles_wf, BuilderKindView, BuilderView, CommandBufferIndex, CommandTarget,
};
use crate::deferral::{lemma_moved_off_needs, lemma_moved_off_work};
use crate::dependency_laws::{
    law_child_of_tiles_apart, lemma_edges_from_mentions, lemma_edges_from_needs,
    lemma_mentioned_once, mentions, tiles_apart,
};
use crate::finish::{drawing_tasks, lemma_drawing_tasks};
use crate::geometry::PictureRect;
use crate::growth::{keeps_work, lemma_work_trans};
use crate::merge_laws::{lemma_edges_from_kept, needs};
use crate::render_task_graph::{
    has_task, task, with_edge, with_edges_from, with_edges_to, Graph, RenderTaskId,
};
use crate::routing::{
    goes_on_top, lemma_targeted_in_graph, lemma_without_last, moved_off_tiles, moves_on_top,
    routed, targeted_tasks, tile_place, with_child_on_targets, without_last, DrawState,
    PrimitiveDrawHeader,
};
use crate::surface::{
    drawn, nearest_sub_graph, prim_targets, pushed, recorded_output, started, with_clipping,
    with_extra, with_resolve_source, with_source, with_top_tiles, without_top, PictureIndex,
    PrimitiveDraw, SurfaceBuilderView,
};
use crate::surface_info::SurfaceInfo;
use crate::tile::{has_key, TileKey, TileView, Tiles, SUB_SLICE_COUNT};

verus! {

/// Whether one of the rectangles covers all of another.
pub open spec fn one_covers(rects: Seq<PictureRect>, rect: PictureRect) -> bool {
    exists|k: int| 0 <= k < rects.len() && (#[trigger] rects[k]).covers(rect)
}

/// Whether one of the rectangles overlaps another.
pub open spec fn one_overlaps(rects: Seq<PictureRect>, rect: PictureRect) -> bool {
    exists|k: int| 0 <= k < rects.len() && (#[trigger] rects[k]).overlaps(rect)
}

/// Whether `after` lists `rect` besides what `before` lists: it covers that and all that
/// was covered, by rectangles that were listed and by `rect` alone.
pub open spec fn lists_besides(
    before: Seq<PictureRect>,
    after: Seq<PictureRect>,
    rect: PictureRect,
) -> bool {
    &&& one_covers(after, rect)
    &&& forall|k: int| 0 <= k < before.len() ==> one_covers(after, #[trigger] before[k])
    &&& forall|k: int|
        0 <= k < after.len() ==> #[trigger] after[k] == rect || before.contains(after[k])
}

/// When the deferred outputs of a tile become what is below, commands go to the task that
/// draws them and no outputs are deferred. A tile without any stays as it is.
pub proof fn law_flush_goes_on_with_the_deferred_task(tile: TileView)
    ensures
        tile.deferred_task_id matches Some(id) ==> {
            &&& tile.flushed().current_task_id == id
            &&& tile.flushed().deferred_task_id is None
            &&& tile.flushed().deferred_output_rects.len() == 0
        },
        tile.deferred_task_id is None ==> tile.flushed() == tile,
        tile.flushed().composite_task_id == tile.composite_task_id,
        tile.flushed().dirty_rect == tile.dirty_rect,
        tile.flushed().slice_index == tile.slice_index,
        tile.flushed().pic_to_device == tile.pic_to_device,
{
}

/// The task that holds a tile is the one that draws the deferred outputs, if there is
/// one, and the one that commands go to otherwise.
pub proof fn law_final_task_is_the_last(tile: TileView)
    ensures
        tile.deferred_task_id is Some ==> tile.deferred_task_id == Some(tile.final_task()),
        tile.deferred_task_id is None ==> tile.current_task_id == tile.final_task(),
{
}

/// One more deferred output is listed besides those that are there, unless one covers it.
/// Whether outputs overlap a rectangle is told by each of them. The tasks of the tile stay
/// as they are.
pub proof fn law_deferred_outputs(tile: TileView, added: PictureRect, rect: PictureRect)
    ensures
        lists_besides(
            tile.deferred_output_rects,
            tile.with_output(added).deferred_output_rects,
            added,
        ),
        tile.with_output(added) == (TileView {
            deferred_output_rects: tile.with_output(added).deferred_output_rects,
            ..tile
        }),
        tile.output_overlaps(rect) <==> one_overlaps(tile.deferred_output_rects, rect),
{
    let before = tile.deferred_output_rects;
    let after = tile.with_output(added).deferred_output_rects;
    if tile.output_covers(added) {
        assert(one_covers(after, added));
        assert forall|k: int| 0 <= k < before.len() implies one_covers(
            after,
            #[trigger] before[k],
        ) by {
            assert(after[k].covers(before[k])) by {
                lemma_covers_itself(before[k]);
            }
        }
        assert forall|k: int| 0 <= k < after.len() implies #[trigger] after[k] == added
            || before.contains(after[k]) by {
            assert(before[k] == after[k]);
        }
    } else {
        let keep = |r: PictureRect| !added.covers(r);
        let kept = before.filter(keep);
        assert(after == kept.push(added));
        assert(after[kept.len() as int] == added);
        lemma_covers_itself(added);
        assert(one_covers(after, added));
        assert forall|k: int| 0 <= k < before.len() implies one_covers(
            after,
            #[trigger] before[k],
        ) by {
            if added.covers(before[k]) {
                assert(after[kept.len() as int].covers(before[k]));
            } else {
                before.lemma_filter_contains(keep, k);
                let j = choose|j: int| 0 <= j < kept.len() && kept[j] == before[k];
                assert(after[j] == before[k]);
                lemma_covers_itself(before[k]);
                assert(after[j].covers(before[k]));
            }
        }
        assert forall|k: int| 0 <= k < after.len() implies #[trigger] after[k] == added
            || before.contains(after[k]) by {
            if k < kept.len() {
                assert(after[k] == kept[k]);
                assert(kept.contains(kept[k]));
                before.lemma_filter_contains_rev(keep, kept[k]);
            }
        }
    }
}

/// A rectangle covers itself.
proof fn lemma_covers_itself(rect: PictureRect)
    ensures
        rect.covers(rect),
{
}

/// Whether a primitive that covers `rect` has to be drawn above the deferred outputs of a
/// tile: there are some, and it draws the output of a filter or overlaps one of them.
pub open spec fn belongs_on_top(
    tile: TileView,
    rect: PictureRect,
    is_backdrop_render: bool,
) -> bool {
    tile.deferred_task_id is Some && (is_backdrop_render || one_overlaps(
        tile.deferred_output_rects,
        rect,
    ))
}

/// The buffer of each tile that a primitive is drawn to is chosen for that tile alone: the
/// one of the task that draws its deferred outputs where the primitive belongs on top of
/// them, and otherwise the one of the task below. Where it goes on top it is listed among
/// the deferred outputs, and every other tile stays as it is.
pub proof fn law_each_tile_is_routed_alone(
    graph: Graph,
    tiles: Tiles,
    keys: Seq<TileKey>,
    rect: PictureRect,
    is_backdrop_render: bool,
    i: int,
)
    requires
        forall|a: int, b: int|
            #![trigger tiles[a], tiles[b]]
            0 <= a < b < tiles.len() ==> tiles[a].0 != tiles[b].0,
        forall|a: int|
            0 <= a < tiles.len() && (#[trigger] tiles[a]).1.deferred_task_id is None
                ==> tiles[a].1.deferred_output_rects.len() == 0,
        forall|a: int, b: int|
            #![trigger keys[a], keys[b]]
            0 <= a < b < keys.len() ==> keys[a] != keys[b],
        forall|k: int| 0 <= k < keys.len() ==> has_key(tiles, #[trigger] keys[k]),
        0 <= i < tiles.len(),
    ensures
        ({
            let r = routed(graph, tiles, keys, rect, is_backdrop_render);
            let tile = tiles[i].1;
            let on_top = belongs_on_top(tile, rect, is_backdrop_render);
            let drawn_by = if on_top {
                tile.deferred_task_id->0
            } else {
                tile.current_task_id
            };
            &&& r.buffers.len() == keys.len()
            &&& r.tiles.len() == tiles.len()
            &&& r.tiles[i].0 == tiles[i].0
            &&& forall|k: int|
                0 <= k < keys.len() && #[trigger] keys[k] == tiles[i].0 ==> r.buffers[k] == task(
                    graph,
                    drawn_by,
                ).kind->Picture_0.cmd_buffer_index
            &&& keys.contains(tiles[i].0) && on_top ==> {
                &&& lists_besides(
                    tile.deferred_output_rects,
                    r.tiles[i].1.deferred_output_rects,
                    rect,
                )
                &&& r.tiles[i].1 == (TileView {
                    deferred_output_rects: r.tiles[i].1.deferred_output_rects,
                    ..tile
                })
            }
            &&& !(keys.contains(tiles[i].0) && on_top) ==> r.tiles[i].1 == tile
        }),
    decreases keys.len(),
{
    let r = routed(graph, tiles, keys, rect, is_backdrop_render);
    if keys.len() > 0 {
        let shorter = keys.drop_last();
        let last = keys[keys.len() - 1];
        let before = routed(graph, tiles, shorter, rect, is_backdrop_render);
        assert forall|k: int| 0 <= k < shorter.len() implies has_key(
            tiles,
            #[trigger] shorter[k],
        ) by {
            assert(shorter[k] == keys[k]);
        }
        assert forall|a: int, b: int|
            #![trigger shorter[a], shorter[b]]
            0 <= a < b < shorter.len() implies shorter[a] != shorter[b] by {
            assert(keys[a] != keys[b]);
        }
        law_each_tile_is_routed_alone(graph, tiles, shorter, rect, is_backdrop_render, i);
        assert(has_key(tiles, last));
        let p = choose|p: int| 0 <= p < tiles.len() && #[trigger] tiles[p].0 == last;
        law_each_tile_is_routed_alone(graph, tiles, shorter, rect, is_backdrop_render, p);
        assert(before.tiles[p].0 == last);
        assert forall|a: int| 0 <= a < tiles.len() implies #[trigger] before.tiles[a].0
            == tiles[a].0 by {
            law_each_tile_is_routed_alone(graph, tiles, shorter, rect, is_backdrop_render, a);
        }
        assert(tile_place(before.tiles, last) == p) by {
            let q = tile_place(before.tiles, last);
            assert(before.tiles[q].0 == last);
            assert(tiles[q].0 == tiles[p].0);
        }
        assert(!shorter.contains(last)) by {
            if shorter.contains(last) {
                let k = choose|k: int| 0 <= k < shorter.len() && shorter[k] == last;
                assert(keys[k] == keys[keys.len() - 1]);
            }
        }
        assert(before.tiles[p].1 == tiles[p].1);
        let tile = tiles[p].1;
        assert(goes_on_top(tile, rect, is_backdrop_render) == belongs_on_top(
            tile,
            rect,
            is_backdrop_render,
        )) by {
            law_deferred_outputs(tile, rect, rect);
        }
        law_deferred_outputs(tile, rect, rect);
        assert(keys.contains(tiles[i].0) <==> shorter.contains(tiles[i].0) || tiles[i].0 == last)
            by {
            if shorter.contains(tiles[i].0) {
                let k = choose|k: int| 0 <= k < shorter.len() && shorter[k] == tiles[i].0;
                assert(keys[k] == tiles[i].0);
            }
            if keys.contains(tiles[i].0) && tiles[i].0 != last {
                let k = choose|k: int| 0 <= k < keys.len() && keys[k] == tiles[i].0;
                assert(shorter[k] == tiles[i].0);
            }
        }
        if i != p {
            assert(tiles[i].0 != tiles[p].0);
        }
        assert forall|k: int|
            0 <= k < keys.len() && #[trigger] keys[k] == tiles[i].0 implies r.buffers[k] == task(
            graph,
            if belongs_on_top(tiles[i].1, rect, is_backdrop_render) {
                tiles[i].1.deferred_task_id->0
            } else {
                tiles[i].1.current_task_id
            },
        ).kind->Picture_0.cmd_buffer_index by {
            if k < shorter.len() {
                assert(shorter[k] == keys[k]);
                assert(r.buffers[k] == before.buffers[k]);
            } else {
                assert(i == p);
            }
        }
    }
}

/// Whether `picked` lists exactly the tiles of a sub-slice that have to be drawn where a
/// primitive is, in their order.
pub open spec fn picks_tiles(
    picked: Seq<int>,
    tiles: Tiles,
    sub_slice: int,
    rect: PictureRect,
) -> bool {
    &&& forall|a: int, b: int|
        0 <= a < b < picked.len() ==> #[trigger] picked[a] < #[trigger] picked[b]
    &&& forall|i: int|
        #![trigger picked.contains(i)]
        picked.contains(i) <==> 0 <= i < tiles.len() && tiles[i].0.sub_slice_index.0 == sub_slice
            && tiles[i].1.dirty_rect.overlaps(rect)
}

/// Whether the targets are the tiles that are picked: the buffer is that of the task that
/// commands for the tile go to.
pub open spec fn targets_tiles(
    hits: Seq<CommandTarget>,
    picked: Seq<int>,
    graph: Graph,
    tiles: Tiles,
) -> bool {
    &&& hits.len() == picked.len()
    &&& target_buffers(hits).len() == picked.len()
    &&& target_keys(hits).len() == picked.len()
    &&& forall|j: int|
        #![trigger picked[j]]
        0 <= j < picked.len() ==> {
            let (key, tile) = tiles[picked[j]];
            let buffer = task(graph, tile.current_task_id).kind->Picture_0.cmd_buffer_index;
            &&& hits[j].dirty_rect == tile.dirty_rect
            &&& hits[j].cmd_buffer_index == buffer
            &&& hits[j].tile_key == Some(key)
            &&& target_buffers(hits)[j] == buffer
            &&& target_keys(hits)[j] == key
        }
}

/// The tiles of a sub-slice that have to be drawn where a primitive is.
spec fn picked_tiles(tiles: Tiles, sub_slice: int, rect: PictureRect) -> Seq<int>
    decreases tiles.len(),
{
    if tiles.len() == 0 {
        Seq::empty()
    } else {
        let earlier = picked_tiles(tiles.drop_last(), sub_slice, rect);
        if tiles.last().0.sub_slice_index.0 == sub_slice && tiles.last().1.dirty_rect.overlaps(
            rect,
        ) {
            earlier.push(tiles.len() - 1)
        } else {
            earlier
        }
    }
}

/// The targets of a primitive are the tiles that are picked for it.
proof fn lemma_picked_tiles(graph: Graph, tiles: Tiles, sub_slice: int, rect: PictureRect)
    ensures
        picks_tiles(picked_tiles(tiles, sub_slice, rect), tiles, sub_slice, rect),
        targets_tiles(
            targets_for_rect(tile_targets(graph, tiles, sub_slice), rect),
            picked_tiles(tiles, sub_slice, rect),
            graph,
            tiles,
        ),
    decreases tiles.len(),
{
    reveal(Seq::filter);
    let picked = picked_tiles(tiles, sub_slice, rect);
    let of_slice = |t: (TileKey, TileView)| t.0.sub_slice_index.0 == sub_slice;
    let make = |t: (TileKey, TileView)| tile_target(graph, t);
    let near = |t: CommandTarget| t.dirty_rect.overlaps(rect);
    let tiled = |t: CommandTarget| t.tile_key is Some;
    let kept = tiles.filter(of_slice);
    let all = tile_targets(graph, tiles, sub_slice);
    let hits = targets_for_rect(all, rect);
    assert(all =~= kept.map_values(make));
    if tiles.len() == 0 {
        assert(kept =~= Seq::empty());
        assert(all =~= Seq::empty());
        assert(hits =~= Seq::empty());
        assert(hits.filter(tiled) =~= Seq::empty());
    } else {
        let shorter = tiles.drop_last();
        let n = shorter.len() as int;
        let last = tiles[n];
        lemma_picked_tiles(graph, shorter, sub_slice, rect);
        let picked0 = picked_tiles(shorter, sub_slice, rect);
        let kept0 = shorter.filter(of_slice);
        let all0 = tile_targets(graph, shorter, sub_slice);
        let hits0 = targets_for_rect(all0, rect);
        assert(all0 =~= kept0.map_values(make));
        if of_slice(last) {
            assert(kept == kept0.push(last));
            assert(all =~= all0.push(make(last)));
            assert(all.drop_last() =~= all0);
            if near(make(last)) {
                assert(hits == hits0.push(make(last)));
                assert(hits.drop_last() =~= hits0);
                assert(hits.filter(tiled) == hits0.filter(tiled).push(make(last)));
                assert(target_keys(hits) =~= target_keys(hits0).push(last.0));
                assert(target_buffers(hits) =~= target_buffers(hits0).push(
                    make(last).cmd_buffer_index,
                ));
            } else {
                assert(hits == hits0);
            }
        } else {
            assert(kept == kept0);
            assert(hits == hits0);
        }
        assert forall|j: int| 0 <= j < picked0.len() implies 0 <= #[trigger] picked0[j] < n by {
            assert(picked0.contains(picked0[j]));
        }
        assert forall|i: int|
            #![trigger picked.contains(i)]
            picked.contains(i) <==> 0 <= i < tiles.len() && tiles[i].0.sub_slice_index.0
                == sub_slice && tiles[i].1.dirty_rect.overlaps(rect) by {
            if 0 <= i < n {
                assert(shorter[i] == tiles[i]);
            }
            if picked0.contains(i) {
                let j = choose|j: int| 0 <= j < picked0.len() && picked0[j] == i;
                assert(picked[j] == i);
            }
            if picked.contains(i) && i != n {
                let j = choose|j: int| 0 <= j < picked.len() && picked[j] == i;
                assert(picked0[j] == i);
                assert(picked0.contains(i));
            }
            if picked.contains(n) && picked.len() == picked0.len() {
                let j = choose|j: int| 0 <= j < picked.len() && picked[j] == n;
                assert(picked0[j] == n);
            }
            if picked.len() > picked0.len() {
                assert(picked[picked0.len() as int] == n);
            }
        }
        assert forall|a: int, b: int| 0 <= a < b < picked.len() implies #[trigger] picked[a]
            < #[trigger] picked[b] by {
            assert(picked[a] == picked0[a]);
            if b < picked0.len() {
                assert(picked0[a] < picked0[b]);
            }
        }
        assert forall|j: int|
            #![trigger picked[j]]
            0 <= j < picked.len() implies {
            let (key, tile) = tiles[picked[j]];
            let buffer = task(graph, tile.current_task_id).kind->Picture_0.cmd_buffer_index;
            &&& hits[j].dirty_rect == tile.dirty_rect
            &&& hits[j].cmd_buffer_index == buffer
            &&& hits[j].tile_key == Some(key)
            &&& target_buffers(hits)[j] == buffer
            &&& target_keys(hits)[j] == key
        } by {
            if j < picked0.len() {
                assert(picked[j] == picked0[j]);
                assert(shorter[picked0[j]] == tiles[picked[j]]);
            }
        }
    }
}

/// After a surface has been started or finished, a visible primitive goes to the buffer of
/// every tile of its sub-slice that has to be drawn where it is, and to no other. On a
/// simple surface it goes to the one buffer, if it is where that is drawn. One that is not
/// visible goes nowhere, and neither does any where nothing is drawn.
pub proof fn law_primitive_goes_where_it_is_drawn(
    graph: Graph,
    kind: BuilderKindView,
    vis: PrimitiveDrawHeader,
)
    requires
        vis.state matches DrawState::Visible { sub_slice_index } ==> sub_slice_index.0
            < SUB_SLICE_COUNT,
    ensures
        ({
            let hits = prim_targets(surface_targets(graph, kind), vis);
            let rect = vis.pic_coverage_rect;
            match vis.state {
                DrawState::Visible { sub_slice_index } => match kind {
                    BuilderKindView::Tiled { tiles } => exists|picked: Seq<int>| #[trigger]
                        picks_tiles(picked, tiles, sub_slice_index.0 as int, rect) && targets_tiles(
                            hits,
                            picked,
                            graph,
                            tiles,
                        ),
                    BuilderKindView::Simple { render_task_id, dirty_rect, .. } => {
                        let buffer = task(
                            graph,
                            render_task_id,
                        ).kind->Picture_0.cmd_buffer_index;
                        &&& target_keys(hits).len() == 0
                        &&& target_buffers(hits).len() == hits.len()
                        &&& if dirty_rect.overlaps(rect) {
                            hits.len() == 1 && target_buffers(hits)[0] == buffer
                                && hits[0].dirty_rect == dirty_rect
                        } else {
                            hits.len() == 0
                        }
                    },
                    BuilderKindView::Invalid => hits.len() == 0,
                },
                _ => hits.len() == 0,
            }
        }),
{
    let hits = prim_targets(surface_targets(graph, kind), vis);
    let rect = vis.pic_coverage_rect;
    if let DrawState::Visible { sub_slice_index } = vis.state {
        let s = sub_slice_index.0 as int;
        match kind {
            BuilderKindView::Tiled { tiles } => {
                lemma_picked_tiles(graph, tiles, s, rect);
                let picked = picked_tiles(tiles, s, rect);
                assert(picks_tiles(picked, tiles, s, rect));
                assert(targets_tiles(hits, picked, graph, tiles));
            },
            BuilderKindView::Simple { render_task_id, dirty_rect, .. } => {
                reveal(Seq::filter);
                let target = CommandTarget {
                    dirty_rect,
                    cmd_buffer_index: task(graph, render_task_id).picture().cmd_buffer_index,
                    tile_key: None,
                };
                let tiled = |t: CommandTarget| t.tile_key is Some;
                let one = surface_targets(graph, kind)[s];
                assert(one =~= seq![target]);
                let near = |t: CommandTarget| t.dirty_rect.overlaps(rect);
                let none = Seq::<CommandTarget>::empty();
                assert(one.drop_last() =~= none);
                assert(none.filter(near) =~= none);
                assert(none.filter(tiled) =~= none);
                assert(hits == one.filter(near));
                if dirty_rect.overlaps(rect) {
                    assert(hits =~= seq![target]);
                    assert(hits.drop_last() =~= none);
                }
            },
            BuilderKindView::Invalid => {
                reveal(Seq::filter);
                assert(surface_targets(graph, kind)[s] =~= Seq::empty());
                assert(hits =~= Seq::empty());
            },
        }
    }
}

/// The task that commands for a surface go to: that of one of its tiles, or its own.
pub open spec fn draws_surface(kind: BuilderKindView, id: RenderTaskId) -> bool {
    match kind {
        BuilderKindView::Tiled { tiles } => exists|i: int|
            0 <= i < tiles.len() && (#[trigger] tiles[i]).1.current_task_id == id,
        BuilderKindView::Simple { render_task_id, .. } => render_task_id == id,
        BuilderKindView::Invalid => false,
    }
}

/// Whether a task draws at most one of the tiles of a surface.
pub open spec fn draws_one_part(kind: BuilderKindView, id: RenderTaskId) -> bool {
    kind matches BuilderKindView::Tiled { tiles } ==> forall|a: int, b: int|
        #![trigger tiles[a], tiles[b]]
        0 <= a < tiles.len() && 0 <= b < tiles.len() && tiles[a].1.current_task_id == id
            && tiles[b].1.current_task_id == id ==> a == b
}

/// The tasks that commands for a surface go to are those of its tiles, or its own.
pub proof fn lemma_drawing_tasks_draw(kind: BuilderKindView, id: RenderTaskId)
    ensures
        drawing_tasks(kind).contains(id) <==> draws_surface(kind, id),
{
    let all = drawing_tasks(kind);
    match kind {
        BuilderKindView::Tiled { tiles } => {
            if all.contains(id) {
                let i = choose|i: int| 0 <= i < all.len() && all[i] == id;
                assert(tiles[i].1.current_task_id == id);
            }
            if draws_surface(kind, id) {
                let i = choose|i: int|
                    0 <= i < tiles.len() && (#[trigger] tiles[i]).1.current_task_id == id;
                assert(all[i] == id);
            }
        },
        BuilderKindView::Simple { render_task_id, .. } => {
            assert(all[0] == render_task_id);
        },
        BuilderKindView::Invalid => {},
    }
}

/// A task that is added to a surface is needed by every task that commands for the surface
/// go to, after what those needed before, and once where such a task draws one tile. Nothing
/// else changes.
pub proof fn law_added_task_is_needed_by_the_surface(
    graph: Graph,
    kind: BuilderKindView,
    child: RenderTaskId,
    id: RenderTaskId,
)
    requires
        match kind {
            BuilderKindView::Tiled { tiles } => tiles_wf(tiles, graph),
            BuilderKindView::Simple { render_task_id, .. } => has_task(graph, render_task_id),
            BuilderKindView::Invalid => true,
        },
        has_task(graph, id),
    ensures
        ({
            let after = with_edges_from(graph, drawing_tasks(kind), child);
            let before = task(graph, id);
            let n = before.children.len() as int;
            &&& after.len() == graph.len()
            &&& task(after, id).location == before.location
            &&& task(after, id).kind == before.kind
            &&& task(after, id).children.len() >= n
            &&& task(after, id).children.take(n) == before.children
            &&& forall|k: int|
                n <= k < task(after, id).children.len() ==> #[trigger] task(after, id).children[k]
                    == child
            &&& draws_surface(kind, id) <==> task(after, id).children.len() > n
            &&& draws_surface(kind, id) && draws_one_part(kind, id) ==> task(
                after,
                id,
            ).children.len() == n + 1
        }),
{
    let parents = drawing_tasks(kind);
    let after = with_edges_from(graph, parents, child);
    let before = task(graph, id);
    lemma_drawing_tasks(kind, graph);
    lemma_edges_from_kept(graph, parents, child);
    lemma_edges_from_mentions(graph, parents, child, id);
    lemma_drawing_tasks_draw(kind, id);
    lemma_mentions_contain(parents, id);
    let n = before.children.len() as int;
    assert(task(after, id).children.take(n) =~= before.children);
    if draws_surface(kind, id) && draws_one_part(kind, id) {
        let i = choose|i: int| 0 <= i < parents.len() && parents[i] == id;
        assert forall|k: int| 0 <= k < parents.len() && k != i implies #[trigger] parents[k]
            != id by {
            if let BuilderKindView::Tiled { tiles } = kind {
                assert(parents[k] == tiles[k].1.current_task_id);
                assert(parents[i] == tiles[i].1.current_task_id);
            }
        }
        lemma_mentioned_once(parents, id, i);
    }
}

/// A list mentions what it holds.
proof fn lemma_mentions_contain(list: Seq<RenderTaskId>, id: RenderTaskId)
    ensures
        mentions(list, id) > 0 <==> list.contains(id),
    decreases list.len(),
{
    if list.len() > 0 {
        let shorter = list.drop_last();
        lemma_mentions_contain(shorter, id);
        assert(list[list.len() - 1] == list.last());
        if shorter.contains(id) {
            let k = choose|k: int| 0 <= k < shorter.len() && shorter[k] == id;
            assert(list[k] == id);
        }
        if list.contains(id) && list.last() != id {
            let k = choose|k: int| 0 <= k < list.len() && list[k] == id;
            assert(shorter[k] == id);
        }
    }
}

/// What the tasks of a tile need once a child has been added to the surface and the buffers
/// of its command are known, where no task draws two of the tiles. The task whose buffer
/// is chosen needs it; where only the one on top is chosen, the one below needs just what
/// it needed before.
pub proof fn law_child_follows_its_command(
    graph: Graph,
    tiles: Tiles,
    targets: Seq<CommandBufferIndex>,
    child: RenderTaskId,
    i: int,
)
    requires
        tiles_wf(tiles, graph),
        tiles_apart(tiles),
        0 <= i < tiles.len(),
    ensures
        ({
            let kind = BuilderKindView::Tiled { tiles };
            let added = with_edges_from(graph, drawing_tasks(kind), child);
            let after = with_child_on_targets(added, kind, targets, child);
            let c = tiles[i].1.current_task_id;
            let below = targets.contains(task(graph, c).kind->Picture_0.cmd_buffer_index);
            let needed = task(graph, c).children;
            match tiles[i].1.deferred_task_id {
                None => task(after, c).children == if below {
                    needed.push(child).push(child)
                } else {
                    needed.push(child)
                },
                Some(d) => {
                    let above = targets.contains(task(graph, d).kind->Picture_0.cmd_buffer_index);
                    &&& task(after, c).children == if below {
                        needed.push(child).push(child)
                    } else if above {
                        needed
                    } else {
                        needed.push(child)
                    }
                    &&& task(after, d).children == if above {
                        task(graph, d).children.push(child)
                    } else {
                        task(graph, d).children
                    }
                },
            }
        }),
{
    law_child_of_tiles_apart(graph, tiles, targets, child, i);
}

/// On a simple surface a child is needed by the one task, whatever the buffers. Where
/// nothing is drawn nothing changes.
pub proof fn law_child_of_a_simple_surface(
    graph: Graph,
    kind: BuilderKindView,
    targets: Seq<CommandBufferIndex>,
    child: RenderTaskId,
    id: RenderTaskId,
)
    requires
        !(kind is Tiled),
        kind matches BuilderKindView::Simple { render_task_id, .. } ==> has_task(
            graph,
            render_task_id,
        ),
        has_task(graph, id),
    ensures
        ({
            let after = with_child_on_targets(graph, kind, targets, child);
            let drawn = kind matches BuilderKindView::Simple { render_task_id, .. }
                && render_task_id == id;
            &&& after.len() == graph.len()
            &&& task(after, id).location == task(graph, id).location
            &&& task(after, id).kind == task(graph, id).kind
            &&& task(after, id).children == if drawn {
                task(graph, id).children.push(child)
            } else {
                task(graph, id).children
            }
        }),
{
    if let BuilderKindView::Simple { render_task_id, .. } = kind {
        if render_task_id != id {
            assert(render_task_id.index != id.index);
        }
    }
}

/// What a tile is drawn by changes only in what it needs when a child is added to chosen
/// tasks, and that only by the child.
pub proof fn law_children_on_targets_change_nothing_else(
    graph: Graph,
    tiles: Tiles,
    targets: Seq<CommandBufferIndex>,
    child: RenderTaskId,
    id: RenderTaskId,
    other: RenderTaskId,
)
    requires
        tiles_wf(tiles, graph),
        has_task(graph, id),
        other != child,
    ensures
        ({
            let kind = BuilderKindView::Tiled { tiles };
            let after = with_child_on_targets(graph, kind, targets, child);
            &&& keeps_work(graph, after)
            &&& after.len() == graph.len()
            &&& needs(after, id, other) == needs(graph, id, other)
        }),
{
    let kind = BuilderKindView::Tiled { tiles };
    assert forall|a: int| 0 <= a < tiles.len() implies has_task(
        graph,
        (#[trigger] tiles[a]).1.current_task_id,
    ) by {
        assert(tiles[a].1.wf(graph));
    }
    lemma_moved_off_work(graph, tiles, targets, child);
    lemma_targeted_in_graph(graph, tiles, targets);
    let moved = moved_off_tiles(graph, tiles, targets, child);
    let owners = targeted_tasks(graph, tiles, targets);
    lemma_edges_from_kept(moved, owners, child);
    lemma_work_trans(graph, moved, with_edges_from(moved, owners, child));
    lemma_edges_from_needs(moved, owners, child, id, other);
    if needs(graph, id, other) {
        lemma_moved_off_needs(graph, tiles, targets, child, id, other);
    }
    if needs(moved, id, other) {
        lemma_moved_off_only_less(graph, tiles, targets, child, id, other);
    }
}

/// Moving a command on top of deferred outputs makes no task need more.
proof fn lemma_moved_off_only_less(
    graph: Graph,
    tiles: Tiles,
    targets: Seq<CommandBufferIndex>,
    child: RenderTaskId,
    id: RenderTaskId,
    other: RenderTaskId,
)
    requires
        forall|a: int|
            0 <= a < tiles.len() ==> has_task(graph, (#[trigger] tiles[a]).1.current_task_id),
        has_task(graph, id),
        needs(moved_off_tiles(graph, tiles, targets, child), id, other),
    ensures
        needs(graph, id, other),
    decreases tiles.len(),
{
    if tiles.len() > 0 {
        let shorter = tiles.drop_last();
        let tile = tiles[tiles.len() - 1].1;
        assert forall|a: int| 0 <= a < shorter.len() implies has_task(
            graph,
            (#[trigger] shorter[a]).1.current_task_id,
        ) by {
            assert(shorter[a] == tiles[a]);
        }
        lemma_moved_off_work(graph, shorter, targets, child);
        let before = moved_off_tiles(graph, shorter, targets, child);
        let after = moved_off_tiles(graph, tiles, targets, child);
        let list = task(before, id).children;
        if tile.current_task_id != id {
            assert(tile.current_task_id.index != id.index);
        } else if moves_on_top(before, tile, targets) {
            let left = without_last(list, child);
            assert(task(after, id).children == left);
            let k = choose|k: int| 0 <= k < left.len() && left[k] == other;
            lemma_without_last(list, child, k);
        }
        assert(needs(before, id, other));
        lemma_moved_off_only_less(graph, shorter, targets, child, id, other);
    }
}

/// A surface is started with the tasks that it is given, if any, and nothing else. It is
/// the root of a sub-graph exactly if it is to be and is drawn by a task of its own.
pub proof fn law_started_surface(kind: Option<BuilderKindView>, is_sub_graph: bool)
    ensures
        ({
            let builder = started(kind, is_sub_graph);
            &&& kind matches Some(kind) ==> builder.kind == kind
            &&& kind is None ==> builder.kind is Invalid
            &&& builder.establishes_sub_graph <==> is_sub_graph && (kind matches Some(kind)
                && kind is Simple)
            &&& builder.resolve_source is None
            &&& builder.extra_dependencies.len() == 0
        }),
{
}

/// The sub-graph that a resolve source is registered for is the topmost one.
pub proof fn law_nearest_sub_graph_is_topmost(stack: Seq<BuilderView>, i: int)
    requires
        0 <= i < stack.len(),
    ensures
        ({
            let nearest = nearest_sub_graph(stack);
            &&& nearest < stack.len()
            &&& nearest >= 0 ==> stack[nearest].establishes_sub_graph
            &&& i > nearest ==> !stack[i].establishes_sub_graph
        }),
    decreases stack.len(),
{
    if !stack.last().establishes_sub_graph {
        let shorter = stack.drop_last();
        if i < shorter.len() {
            law_nearest_sub_graph_is_topmost(shorter, i);
            assert(shorter[i] == stack[i]);
        } else if shorter.len() > 0 {
            law_nearest_sub_graph_is_topmost(shorter, shorter.len() - 1);
        }
        let nearest = nearest_sub_graph(shorter);
        if nearest >= 0 {
            assert(shorter[nearest] == stack[nearest]);
        }
    }
}

/// A task that the current surface is to need in the end is noted on that surface, after
/// those that are noted already, and on no other.
pub proof fn law_extra_is_noted_on_the_current_surface(
    stack: Seq<BuilderView>,
    child: RenderTaskId,
    i: int,
)
    requires
        0 <= i < stack.len(),
    ensures
        ({
            let after = with_extra(stack, child);
            &&& after.len() == stack.len()
            &&& i < stack.len() - 1 ==> after[i] == stack[i]
            &&& i == stack.len() - 1 ==> {
                &&& after[i].extra_dependencies == stack[i].extra_dependencies.push(child)
                &&& after[i].kind == stack[i].kind
                &&& after[i].establishes_sub_graph == stack[i].establishes_sub_graph
                &&& after[i].resolve_source == stack[i].resolve_source
            }
        }),
{
}

/// A task that comes to need others needs them last and in turn, after all that it needs
/// already. No other task changes.
pub proof fn law_added_dependencies_are_the_last(
    graph: Graph,
    parent: RenderTaskId,
    children: Seq<RenderTaskId>,
    id: RenderTaskId,
)
    requires
        has_task(graph, parent),
        has_task(graph, id),
    ensures
        ({
            let after = with_edges_to(graph, parent, children);
            let n = task(graph, parent).children.len() as int;
            &&& after.len() == graph.len()
            &&& task(after, parent).children.len() == n + children.len()
            &&& task(after, parent).children.take(n) == task(graph, parent).children
            &&& task(after, parent).children.skip(n) == children
            &&& task(after, parent).kind == task(graph, parent).kind
            &&& task(after, parent).location == task(graph, parent).location
            &&& id != parent ==> task(after, id) == task(graph, id)
        }),
{
    let after = with_edges_to(graph, parent, children);
    let n = task(graph, parent).children.len() as int;
    assert(task(after, parent).children.take(n) =~= task(graph, parent).children);
    assert(task(after, parent).children.skip(n) =~= children);
    if id != parent {
        assert(id.index != parent.index);
    }
}

/// Where tiles have noted what is drawn on top of them, nothing else of the surfaces has
/// changed.
pub proof fn law_other_tiles_for_the_current_surface(
    view: SurfaceBuilderView,
    tiles: Tiles,
    i: int,
)
    requires
        0 <= i < view.stack.len(),
    ensures
        ({
            let after = with_top_tiles(view, tiles);
            let last = view.stack.len() - 1;
            &&& after.stack.len() == view.stack.len()
            &&& i < last ==> after.stack[i] == view.stack[i]
            &&& after.stack[last].kind == (BuilderKindView::Tiled { tiles })
            &&& after.stack[last].establishes_sub_graph == view.stack[last].establishes_sub_graph
            &&& after.stack[last].resolve_source == view.stack[last].resolve_source
            &&& after.stack[last].extra_dependencies == view.stack[last].extra_dependencies
            &&& after.targets == view.targets
            &&& after.outputs == view.outputs
            &&& after.sources == view.sources
        }),
{
}

/// A task that comes to need another one needs it last, after all that it needs already.
/// No other task changes.
pub proof fn law_added_dependency_is_the_last(
    graph: Graph,
    parent: RenderTaskId,
    child: RenderTaskId,
    id: RenderTaskId,
)
    requires
        has_task(graph, parent),
        has_task(graph, id),
    ensures
        ({
            let after = with_edge(graph, parent, child);
            let children = task(after, parent).children;
            &&& after.len() == graph.len()
            &&& children.len() == task(graph, parent).children.len() + 1
            &&& children.drop_last() == task(graph, parent).children
            &&& children.last() == child
            &&& task(after, parent).kind == task(graph, parent).kind
            &&& task(after, parent).location == task(graph, parent).location
            &&& id != parent ==> task(after, id) == task(graph, id)
        }),
{
    let after = with_edge(graph, parent, child);
    assert(task(after, parent).children.drop_last() =~= task(graph, parent).children);
    if id != parent {
        assert(id.index != parent.index);
    }
}

/// Whether a primitive has been drawn on exactly the tiles that are picked, in their order:
/// on top of what is deferred on a tile where it has to be, and there noted as one of the
/// outputs.
pub open spec fn draws_on_tiles(
    picked: Seq<int>,
    draw: PrimitiveDraw,
    graph: Graph,
    tiles: Tiles,
    rect: PictureRect,
    looks_at_outputs: bool,
    is_backdrop_render: bool,
) -> bool {
    let after = draw.surfaces.stack[draw.surfaces.stack.len() - 1].kind->tiles;
    &&& draw.buffers.len() == picked.len()
    &&& forall|j: int|
        #![trigger picked[j]]
        0 <= j < picked.len() ==> {
            let tile = tiles[picked[j]].1;
            let on_top = looks_at_outputs && belongs_on_top(tile, rect, is_backdrop_render);
            let drawn_by = if on_top {
                tile.deferred_task_id->0
            } else {
                tile.current_task_id
            };
            draw.buffers[j] == task(graph, drawn_by).kind->Picture_0.cmd_buffer_index
        }
    &&& after.len() == tiles.len()
    &&& forall|i: int|
        #![trigger after[i]]
        0 <= i < tiles.len() ==> {
            let (key, tile) = tiles[i];
            let noted = picked.contains(i) && looks_at_outputs && belongs_on_top(
                tile,
                rect,
                is_backdrop_render,
            );
            &&& after[i].0 == key
            &&& !noted ==> after[i].1 == tile
            &&& noted ==> {
                &&& lists_besides(
                    tile.deferred_output_rects,
                    after[i].1.deferred_output_rects,
                    rect,
                )
                &&& after[i].1 == (TileView {
                    deferred_output_rects: after[i].1.deferred_output_rects,
                    ..tile
                })
            }
        }
}

/// A visible primitive is drawn on every tile of its sub-slice that has to be drawn where it
/// covers something, in the order of the tiles. On each it goes on top of what is deferred
/// there if it draws the output of a backdrop filter, or if it tracks what is written below
/// it and overlaps one of the outputs; otherwise it is drawn by the tile's current task.
/// It is drawn exactly if there is such a tile. Nothing changes but the outputs of the tiles
/// where it went on top.
pub proof fn law_primitive_is_drawn_on_each_tile(
    view: SurfaceBuilderView,
    graph: Graph,
    vis: PrimitiveDrawHeader,
    tracks_parent_write: bool,
    is_backdrop_render: bool,
)
    requires
        view.stack.len() > 0,
        view.stack[view.stack.len() - 1].kind is Tiled,
        tiles_wf(view.stack[view.stack.len() - 1].kind->tiles, graph),
        view.targets == surface_targets(graph, view.stack[view.stack.len() - 1].kind),
        vis.state is Visible,
        vis.state->sub_slice_index.0 < SUB_SLICE_COUNT,
    ensures
        ({
            let last = view.stack.len() - 1;
            let tiles = view.stack[last].kind->tiles;
            let draw = drawn(view, graph, vis, tracks_parent_write, is_backdrop_render);
            &&& exists|picked: Seq<int>| #[trigger]
                picks_tiles(
                    picked,
                    tiles,
                    vis.state->sub_slice_index.0 as int,
                    vis.pic_coverage_rect,
                ) && draws_on_tiles(
                    picked,
                    draw,
                    graph,
                    tiles,
                    vis.pic_coverage_rect,
                    is_backdrop_render || tracks_parent_write,
                    is_backdrop_render,
                )
            &&& draw.is_drawn <==> draw.buffers.len() > 0
            &&& draw.surfaces.stack.len() == view.stack.len()
            &&& draw.surfaces.stack[last].kind is Tiled
            &&& draw.surfaces == with_top_tiles(view, draw.surfaces.stack[last].kind->tiles)
        }),
{
    let last = view.stack.len() - 1;
    let kind = view.stack[last].kind;
    let tiles = kind->tiles;
    let rect = vis.pic_coverage_rect;
    let s = vis.state->sub_slice_index.0 as int;
    let draw = drawn(view, graph, vis, tracks_parent_write, is_backdrop_render);
    let looks = is_backdrop_render || tracks_parent_write;
    law_primitive_goes_where_it_is_drawn(graph, kind, vis);
    let hits = prim_targets(view.targets, vis);
    let keys = target_keys(hits);
    let picked = choose|picked: Seq<int>| #[trigger]
        picks_tiles(picked, tiles, s, rect) && targets_tiles(hits, picked, graph, tiles);
    let after = draw.surfaces.stack[last].kind->tiles;
    assert forall|j: int| 0 <= j < picked.len() implies 0 <= #[trigger] picked[j]
        < tiles.len() by {
        assert(picked.contains(picked[j]));
    }
    if looks && keys.len() > 0 {
        assert forall|a: int, b: int|
            #![trigger keys[a], keys[b]]
            0 <= a < b < keys.len() implies keys[a] != keys[b] by {
            assert(picked[a] < picked[b]);
            assert(tiles[picked[a]].0 != tiles[picked[b]].0);
        }
        assert forall|k: int| 0 <= k < keys.len() implies has_key(tiles, #[trigger] keys[k]) by {
            assert(tiles[picked[k]].0 == keys[k]);
        }
        assert forall|a: int|
            0 <= a < tiles.len() && (
            #[trigger] tiles[a]).1.deferred_task_id is None implies tiles[a].1
            .deferred_output_rects.len() == 0 by {
            assert(tiles[a].1.wf(graph));
        }
        let r = routed(graph, tiles, keys, rect, is_backdrop_render);
        assert(after == r.tiles);
        assert forall|j: int|
            #![trigger picked[j]]
            0 <= j < picked.len() implies {
            let tile = tiles[picked[j]].1;
            let on_top = looks && belongs_on_top(tile, rect, is_backdrop_render);
            let drawn_by = if on_top {
                tile.deferred_task_id->0
            } else {
                tile.current_task_id
            };
            draw.buffers[j] == task(graph, drawn_by).kind->Picture_0.cmd_buffer_index
        } by {
            law_each_tile_is_routed_alone(
                graph,
                tiles,
                keys,
                rect,
                is_backdrop_render,
                picked[j],
            );
            assert(keys[j] == tiles[picked[j]].0);
        }
        law_each_tile_is_routed_alone(graph, tiles, keys, rect, is_backdrop_render, picked[0]);
        assert forall|i: int|
            #![trigger after[i]]
            0 <= i < tiles.len() implies {
            let (key, tile) = tiles[i];
            let noted = picked.contains(i) && looks && belongs_on_top(
                tile,
                rect,
                is_backdrop_render,
            );
            &&& after[i].0 == key
            &&& !noted ==> after[i].1 == tile
            &&& noted ==> {
                &&& lists_besides(
                    tile.deferred_output_rects,
                    after[i].1.deferred_output_rects,
                    rect,
                )
                &&& after[i].1 == (TileView {
                    deferred_output_rects: after[i].1.deferred_output_rects,
                    ..tile
                })
            }
        } by {
            law_each_tile_is_routed_alone(graph, tiles, keys, rect, is_backdrop_render, i);
            if picked.contains(i) {
                let j = choose|j: int| 0 <= j < picked.len() && picked[j] == i;
                assert(keys[j] == tiles[i].0);
            }
            if keys.contains(tiles[i].0) {
                let j = choose|j: int| 0 <= j < keys.len() && keys[j] == tiles[i].0;
                assert(tiles[picked[j]].0 == tiles[i].0);
                assert(picked.contains(picked[j]));
                if picked[j] < i {
                    assert(tiles[picked[j]].0 != tiles[i].0);
                }
                if i < picked[j] {
                    assert(tiles[i].0 != tiles[picked[j]].0);
                }
            }
        }
        assert(draws_on_tiles(picked, draw, graph, tiles, rect, looks, is_backdrop_render));
    } else {
        assert(after == tiles);
        assert(picked.len() == keys.len());
        assert(draws_on_tiles(picked, draw, graph, tiles, rect, looks, is_backdrop_render));
        assert(view.stack.update(
            last,
            BuilderView { kind: BuilderKindView::Tiled { tiles }, ..view.top() },
        ) =~= view.stack);
    }
    assert(draw.surfaces =~= with_top_tiles(view, after));
}

/// A primitive is drawn from the one buffer of a surface without tiles where it is visible
/// and the surface has to be drawn there, and from none otherwise. One that is handed on
/// counts as drawn, though it is drawn from no buffer; one that is culled does not. The
/// surfaces stay as they are.
pub proof fn law_primitive_is_drawn_on_a_simple_surface(
    view: SurfaceBuilderView,
    graph: Graph,
    vis: PrimitiveDrawHeader,
    tracks_parent_write: bool,
    is_backdrop_render: bool,
)
    requires
        view.stack.len() > 0,
        view.targets == surface_targets(graph, view.stack[view.stack.len() - 1].kind),
        vis.state is Visible ==> {
            &&& !(view.stack[view.stack.len() - 1].kind is Tiled)
            &&& vis.state->sub_slice_index.0 < SUB_SLICE_COUNT
        },
    ensures
        ({
            let kind = view.stack[view.stack.len() - 1].kind;
            let draw = drawn(view, graph, vis, tracks_parent_write, is_backdrop_render);
            let hit = vis.state is Visible && (kind matches BuilderKindView::Simple {
                dirty_rect,
                ..
            } && dirty_rect.overlaps(vis.pic_coverage_rect));
            &&& draw.surfaces == view
            &&& draw.is_drawn <==> hit || vis.state is PassThrough
            &&& !hit ==> draw.buffers.len() == 0
            &&& hit ==> draw.buffers.len() == 1 && draw.buffers[0] == task(
                graph,
                kind->Simple_render_task_id,
            ).kind->Picture_0.cmd_buffer_index
        }),
{
    let kind = view.stack[view.stack.len() - 1].kind;
    let hits = prim_targets(view.targets, vis);
    let tiled = |t: CommandTarget| t.tile_key is Some;
    reveal(Seq::filter);
    if vis.state is Visible {
        law_primitive_goes_where_it_is_drawn(graph, kind, vis);
    } else {
        assert(hits =~= Seq::<CommandTarget>::empty());
    }
    if hits.len() == 0 {
        assert(hits =~= Seq::<CommandTarget>::empty());
        assert(hits.filter(tiled) =~= Seq::<CommandTarget>::empty());
        assert(target_keys(hits).len() == 0);
    }
}

/// A rectangle to read goes to the topmost sub-graph, with the task of the current surface
/// as the one to copy to. Nothing else changes.
pub proof fn law_rect_to_read_goes_to_the_topmost_sub_graph(
    stack: Seq<BuilderView>,
    rect: PictureRect,
    i: int,
    k: int,
)
    requires
        0 <= i < stack.len(),
        stack[i].establishes_sub_graph,
        forall|j: int| i < j < stack.len() ==> !(#[trigger] stack[j]).establishes_sub_graph,
        0 <= k < stack.len(),
    ensures
        ({
            let after = with_resolve_source(stack, rect);
            let current = stack[stack.len() - 1].kind->Simple_render_task_id;
            &&& after.len() == stack.len()
            &&& k != i ==> after[k] == stack[k]
            &&& after[i].resolve_source == Some((current, rect))
            &&& after[i].kind == stack[i].kind
            &&& after[i].establishes_sub_graph
            &&& after[i].extra_dependencies == stack[i].extra_dependencies
        }),
{
    law_nearest_sub_graph_is_topmost(stack, i);
}

/// A surface that is pushed lies on top of the others, and commands go to it. One that is
/// taken off leaves the others. Nothing else of the surfaces changes.
pub proof fn law_surfaces_are_stacked(
    view: SurfaceBuilderView,
    graph: Graph,
    builder: BuilderView,
    source: BackdropSource,
)
    ensures
        ({
            let after = pushed(view, graph, builder);
            &&& after.stack.len() == view.stack.len() + 1
            &&& after.stack[after.stack.len() - 1] == builder
            &&& after.stack.drop_last() == view.stack
            &&& after.targets == surface_targets(graph, builder.kind)
            &&& after.outputs == view.outputs
            &&& after.sources == view.sources
            &&& without_top(after).stack == view.stack
            &&& without_top(after).targets == after.targets
            &&& without_top(after).outputs == view.outputs
            &&& without_top(after).sources == view.sources
        }),
        ({
            let after = with_source(view, source);
            &&& after.sources.len() == view.sources.len() + 1
            &&& after.sources.drop_last() == view.sources
            &&& after.sources[after.sources.len() - 1] == source
            &&& after.stack == view.stack
            &&& after.targets == view.targets
            &&& after.outputs == view.outputs
        }),
{
    assert(pushed(view, graph, builder).stack.drop_last() =~= view.stack);
    assert(with_source(view, source).sources.drop_last() =~= view.sources);
}

/// The rectangle that a surface is valid within is noted for that surface, and nothing else
/// changes.
pub proof fn law_clipping_is_noted(
    infos: Seq<SurfaceInfo>,
    i: int,
    rect: PictureRect,
    k: int,
)
    requires
        0 <= i < infos.len(),
        0 <= k < infos.len(),
    ensures
        ({
            let after = with_clipping(infos, i, rect);
            &&& after.len() == infos.len()
            &&& k != i ==> after[k] == infos[k]
            &&& after[i].clipping_rect == rect
            &&& infos[i] == (SurfaceInfo { clipping_rect: infos[i].clipping_rect, ..after[i] })
        }),
{
}

/// The output of a sub-graph is found under the picture that it was recorded for, and under
/// no other.
pub proof fn law_output_is_found(
    outputs: Map<usize, RenderTaskId>,
    pic_index: PictureIndex,
    output: RenderTaskId,
    other: PictureIndex,
)
    ensures
        recorded_output(outputs.insert(pic_index.0, output), pic_index) == Some(output),
        other != pic_index ==> recorded_output(outputs.insert(pic_index.0, output), other)
            == recorded_output(outputs, other),
        recorded_output(outputs, other) is Some <==> outputs.dom().contains(other.0),
{
}

} // verus!
