//! What holds of the tasks of a frame after a surface has been finished.

use vstd::prelude::*;

use crate::backdrop::{source_copies, source_producers, sources_by_slice, BackdropSource};
use crate::command_buffer::{
    tiles_wf, BuilderKindView, BuilderView, CommandBufferIndex, CommandTarget,
};
use crate::filter_chain::{is_reader, readers_ordered};
use crate::finish::{drawing_tasks, settled, settled_tile, tiles_with_edges_to, with_extras};
use crate::geometry::PictureRect;
use crate::growth::{
    grows, keeps_work, lemma_edge_grows, lemma_grows_trans, lemma_keeps_refl, lemma_push_grows,
    lemma_tile_kept, lemma_work_trans,
};
use crate::merge::{merged, merged_simple, merged_tiles, readied, sub_graph, Surroundings};
use crate::render_task_graph::{
    graph_wf, has_task, is_picture, task, with_edge, with_edges_from, with_edges_to, Graph,
    PictureTaskView, RenderTaskId, RenderTaskLocation, ResolveOpView, TaskKindView,
};
use crate::resolve::{dest_to_src_raster, initialized, starts_clear, with_resolve, ProjectionView};
use crate::splice::{
    continuation, lemma_without_child_grows, opened, read_tasks, reads_tile, splice_all,
    spliced_graph, spliced_simple, spliced_tile, without_child, SubGraph,
};
use crate::surface::{handed_on, popped, PictureIndex, Stage};
use crate::tile::{TileKey, TileView, Tiles};

verus! {

/// Whether `parent` needs the output of `child`.
pub open spec fn needs(graph: Graph, parent: RenderTaskId, child: RenderTaskId) -> bool {
    task(graph, parent).children.contains(child)
}

/// Whether two tasks do the same but for what they copy first.
pub open spec fn same_drawing(before: TaskKindView, after: TaskKindView) -> bool {
    match (before, after) {
        (TaskKindView::Picture(a), TaskKindView::Picture(b)) => PictureTaskView {
            resolve_op: b.resolve_op,
            ..a
        } == b,
        _ => before == after,
    }
}

/// Whether every task of `before` draws the same to the same place in `after`:
/// only what it copies first and what it needs may have changed.
pub open spec fn keeps_drawing(before: Graph, after: Graph) -> bool {
    &&& before.len() <= after.len()
    &&& forall|id: RenderTaskId|
        #![trigger task(after, id)]
        #![trigger task(before, id)]
        has_task(before, id) ==> task(after, id).location == task(before, id).location
            && same_drawing(task(before, id).kind, task(after, id).kind)
}

/// Whether every task of `before` needs in `after` what it needed.
pub open spec fn keeps_needs(before: Graph, after: Graph) -> bool {
    &&& before.len() <= after.len()
    &&& forall|parent: RenderTaskId, child: RenderTaskId|
        #![trigger needs(after, parent, child)]
        #![trigger needs(before, parent, child)]
        has_task(before, parent) && needs(before, parent, child) ==> needs(after, parent, child)
}

/// What is kept twice is kept.
pub proof fn lemma_kept_twice(a: Graph, b: Graph, c: Graph)
    ensures
        keeps_drawing(a, b) && keeps_drawing(b, c) ==> keeps_drawing(a, c),
        keeps_needs(a, b) && keeps_needs(b, c) ==> keeps_needs(a, c),
{
    if keeps_drawing(a, b) && keeps_drawing(b, c) {
        assert forall|id: RenderTaskId|
            #![trigger task(c, id)]
            #![trigger task(a, id)]
            has_task(a, id) implies task(c, id).location == task(a, id).location && same_drawing(
            task(a, id).kind,
            task(c, id).kind,
        ) by {
            let t = task(b, id);
        }
    }
    if keeps_needs(a, b) && keeps_needs(b, c) {
        assert forall|parent: RenderTaskId, child: RenderTaskId|
            #![trigger needs(c, parent, child)]
            #![trigger needs(a, parent, child)]
            has_task(a, parent) && needs(a, parent, child) implies needs(c, parent, child) by {
            assert(needs(b, parent, child));
        }
    }
}

/// A task that works as before draws as before.
pub proof fn lemma_work_is_drawing(before: Graph, after: Graph)
    requires
        keeps_work(before, after),
    ensures
        keeps_drawing(before, after),
{
}

/// One more dependency takes none away.
pub proof fn lemma_edges_to_kept(graph: Graph, parent: RenderTaskId, children: Seq<RenderTaskId>)
    requires
        has_task(graph, parent),
    ensures
        keeps_work(graph, with_edges_to(graph, parent, children)),
        keeps_needs(graph, with_edges_to(graph, parent, children)),
        with_edges_to(graph, parent, children).len() == graph.len(),
        forall|k: int|
            0 <= k < children.len() ==> needs(
                with_edges_to(graph, parent, children),
                parent,
                #[trigger] children[k],
            ),
{
    let after = with_edges_to(graph, parent, children);
    let old_children = task(graph, parent).children;
    assert forall|p: RenderTaskId, child: RenderTaskId|
        #![trigger needs(after, p, child)]
        #![trigger needs(graph, p, child)]
        has_task(graph, p) && needs(graph, p, child) implies needs(after, p, child) by {
        if p.index == parent.index {
            let k = choose|k: int| 0 <= k < old_children.len() && old_children[k] == child;
            assert(task(after, p).children[k] == child);
        }
    }
    assert forall|k: int| 0 <= k < children.len() implies needs(
        after,
        parent,
        #[trigger] children[k],
    ) by {
        assert(task(after, parent).children[old_children.len() + k] == children[k]);
    }
}

/// One more dependency takes none away.
pub proof fn lemma_edge_kept(graph: Graph, parent: RenderTaskId, child: RenderTaskId)
    requires
        has_task(graph, parent),
    ensures
        keeps_work(graph, with_edge(graph, parent, child)),
        keeps_needs(graph, with_edge(graph, parent, child)),
        with_edge(graph, parent, child).len() == graph.len(),
        needs(with_edge(graph, parent, child), parent, child),
{
    assert(task(graph, parent).children + seq![child] =~= task(graph, parent).children.push(child));
    lemma_edges_to_kept(graph, parent, seq![child]);
    assert(with_edge(graph, parent, child) == with_edges_to(graph, parent, seq![child]));
    assert(seq![child][0] == child);
}

/// More dependencies on one task take none away.
pub proof fn lemma_edges_from_kept(graph: Graph, parents: Seq<RenderTaskId>, child: RenderTaskId)
    requires
        forall|k: int| 0 <= k < parents.len() ==> has_task(graph, #[trigger] parents[k]),
    ensures
        keeps_work(graph, with_edges_from(graph, parents, child)),
        keeps_needs(graph, with_edges_from(graph, parents, child)),
        with_edges_from(graph, parents, child).len() == graph.len(),
        forall|k: int|
            0 <= k < parents.len() ==> needs(
                with_edges_from(graph, parents, child),
                #[trigger] parents[k],
                child,
            ),
    decreases parents.len(),
{
    if parents.len() > 0 {
        let shorter = parents.drop_last();
        let before = with_edges_from(graph, shorter, child);
        let after = with_edges_from(graph, parents, child);
        assert forall|k: int| 0 <= k < shorter.len() implies has_task(
            graph,
            #[trigger] shorter[k],
        ) by {
            assert(shorter[k] == parents[k]);
        }
        lemma_edges_from_kept(graph, shorter, child);
        assert(parents[parents.len() - 1] == parents.last());
        lemma_edge_kept(before, parents.last(), child);
        lemma_work_trans(graph, before, after);
        lemma_kept_twice(graph, before, after);
        assert forall|k: int| 0 <= k < parents.len() implies needs(
            after,
            #[trigger] parents[k],
            child,
        ) by {
            if k < shorter.len() {
                assert(shorter[k] == parents[k]);
                assert(needs(before, shorter[k], child));
            }
        }
    }
}

/// A copy takes no dependency away, and changes nothing else that is drawn.
pub proof fn lemma_resolve_kept(
    graph: Graph,
    dest: RenderTaskId,
    src_task_ids: Seq<RenderTaskId>,
    sources: Seq<crate::render_task_graph::ResolveSource>,
    raster: crate::spatial::ScaleOffset,
)
    requires
        is_picture(graph, dest),
    ensures
        keeps_drawing(graph, with_resolve(graph, dest, src_task_ids, sources, raster)),
        keeps_needs(graph, with_resolve(graph, dest, src_task_ids, sources, raster)),
        with_resolve(graph, dest, src_task_ids, sources, raster).len() == graph.len(),
        is_picture(with_resolve(graph, dest, src_task_ids, sources, raster), dest),
{
}

/// Starting from what the slices behind show takes no dependency away, and
/// changes nothing else that is drawn.
pub proof fn lemma_initialized_kept(
    graph: Graph,
    ids: Seq<RenderTaskId>,
    slice_index: usize,
    sources: Seq<BackdropSource>,
    projections: Map<RenderTaskId, ProjectionView>,
)
    requires
        forall|k: int| 0 <= k < ids.len() ==> has_task(graph, #[trigger] ids[k]),
    ensures
        keeps_drawing(graph, initialized(graph, ids, slice_index, sources, projections)),
        keeps_needs(graph, initialized(graph, ids, slice_index, sources, projections)),
        initialized(graph, ids, slice_index, sources, projections).len() == graph.len(),
    decreases ids.len(),
{
    if ids.len() > 0 {
        let shorter = ids.drop_last();
        assert forall|k: int| 0 <= k < shorter.len() implies has_task(
            graph,
            #[trigger] shorter[k],
        ) by {
            assert(shorter[k] == ids[k]);
        }
        lemma_initialized_kept(graph, shorter, slice_index, sources, projections);
        assert(ids[ids.len() - 1] == ids.last());
        let before = initialized(graph, shorter, slice_index, sources, projections);
        let id = ids.last();
        if !shorter.contains(id) && starts_clear(before, id) {
            let order = sources_by_slice(sources);
            let area = projections[id].wanted_device_rect;
            let parts = projections[id].sources;
            let producers = source_producers(sources, order, slice_index, area, parts);
            let copies = source_copies(sources, order, slice_index, area, parts);
            let ordered = with_edges_to(before, id, producers);
            lemma_edges_to_kept(before, id, producers);
            lemma_work_is_drawing(before, ordered);
            lemma_kept_twice(graph, before, ordered);
            if copies.len() > 0 {
                let raster = crate::spatial::ScaleOffset::identity_value();
                lemma_resolve_kept(ordered, id, Seq::empty(), copies, raster);
                lemma_kept_twice(
                    graph,
                    ordered,
                    with_resolve(ordered, id, Seq::empty(), copies, raster),
                );
            }
        }
    }
}

/// Whether the tile goes on where a sub-graph has read it: another task draws to
/// the place of the one that was read, after it.
pub open spec fn goes_on(graph: Graph, tile: TileView) -> bool {
    &&& tile.deferred_task_id is Some
    &&& is_picture(graph, tile.deferred_task_id->0)
    &&& task(graph, tile.deferred_task_id->0).location == (RenderTaskLocation::Existing {
        parent_task_id: tile.current_task_id,
        size: task(graph, tile.current_task_id).location.extent(),
    })
    &&& needs(graph, tile.deferred_task_id->0, tile.current_task_id)
}

/// What splicing a sub-graph into one tile does to the tasks of the frame.
proof fn lemma_one_spliced(
    graph: Graph,
    tile: TileView,
    sub: SubGraph,
    commands: CommandBufferIndex,
)
    requires
        graph_wf(graph),
        tile.wf(graph),
        is_picture(graph, sub.resolve_task),
    ensures
        ({
            let next = RenderTaskId { index: graph.len() as usize };
            let ready = opened(tile, sub.resolve_rect);
            let read = ready.current_task_id;
            let reads = reads_tile(graph, tile, sub.resolve_rect);
            let after = spliced_graph(graph, tile, sub, commands);
            let tile1 = spliced_tile(graph, tile, sub, next);
            &&& grows(graph, after)
            &&& keeps_work(graph, after)
            &&& after.len() <= graph.len() + 1
            &&& is_picture(graph, read)
            &&& reads ==> {
                &&& tile1.current_task_id == read
                &&& tile1.deferred_task_id is Some
                &&& tile1.dirty_rect == tile.dirty_rect
                &&& ready.deferred_task_id is Some ==> tile1.deferred_task_id
                    == ready.deferred_task_id
                &&& tile1.output_covers(sub.resolve_rect)
                &&& has_task(after, tile1.deferred_task_id->0)
                &&& needs(after, sub.resolve_task, read)
                &&& ready.deferred_task_id is None && graph.len() <= usize::MAX ==> goes_on(
                    after,
                    tile1,
                ) && !has_task(graph, tile1.deferred_task_id->0)
            }
            &&& forall|parent: RenderTaskId, child: RenderTaskId|
                #![trigger needs(after, parent, child)]
                has_task(graph, parent) && needs(graph, parent, child) && !(reads && parent == read
                    && child == sub.output) ==> needs(after, parent, child)
        }),
{
    let next = RenderTaskId { index: graph.len() as usize };
    let ready = opened(tile, sub.resolve_rect);
    let read = ready.current_task_id;
    let reads = reads_tile(graph, tile, sub.resolve_rect);
    let after = spliced_graph(graph, tile, sub, commands);
    let tile1 = spliced_tile(graph, tile, sub, next);
    lemma_keeps_refl(graph);
    if reads {
        let open_tile = if ready.deferred_task_id is Some {
            ready
        } else {
            TileView { deferred_task_id: Some(next), ..ready }
        };
        crate::laws::law_outputs_stay_covered(open_tile, sub.resolve_rect, sub.resolve_rect);
        let pruned = without_child(graph, read, sub.output);
        let ordered = with_edge(pruned, sub.resolve_task, read);
        lemma_without_child_grows(graph, read, sub.output);
        lemma_edge_grows(pruned, sub.resolve_task, read);
        lemma_grows_trans(graph, pruned, ordered);
        lemma_edge_kept(pruned, sub.resolve_task, read);
        assert(keeps_work(graph, pruned));
        lemma_work_trans(graph, pruned, ordered);
        let keep = crate::splice::other_than(sub.output);
        let children = task(graph, read).children;
        assert forall|parent: RenderTaskId, child: RenderTaskId|
            has_task(graph, parent) && needs(graph, parent, child) && !(parent == read && child
                == sub.output) implies #[trigger] needs(ordered, parent, child) by {
            assert(needs(pruned, parent, child)) by {
                if parent.index == read.index {
                    let k = choose|k: int| 0 <= k < children.len() && children[k] == child;
                    if child != sub.output {
                        children.lemma_filter_contains(keep, k);
                    }
                }
            }
        }
        if ready.deferred_task_id is None {
            let added = continuation(ordered, read, commands);
            let t = task(ordered, read);
            assert(ordered[read.index as int].sizable());
            assert(added.children[0] == read);
            assert(added.children.contains(read));
            lemma_push_grows(ordered, added);
            lemma_grows_trans(graph, ordered, after);
            assert(keeps_work(ordered, after));
            lemma_work_trans(graph, ordered, after);
            if graph.len() <= usize::MAX {
                assert(task(after, next) == added);
            }
            assert(task(after, read).location == task(graph, read).location);
            assert forall|parent: RenderTaskId, child: RenderTaskId|
                #![trigger needs(after, parent, child)]
                has_task(graph, parent) && needs(graph, parent, child) && !(parent == read && child
                    == sub.output) implies needs(after, parent, child) by {
                assert(needs(ordered, parent, child));
                assert(task(after, parent) == task(ordered, parent));
            }
            assert(task(after, sub.resolve_task) == task(ordered, sub.resolve_task));
        }
    }
}

/// Whether a sub-graph reads both its own resolve target and its own output, as
/// if they drew tiles.
pub open spec fn reads_itself(graph: Graph, tiles: Tiles, sub: SubGraph) -> bool {
    let reads = read_tasks(graph, tiles, sub.resolve_rect);
    reads.contains(sub.resolve_task) && reads.contains(sub.output)
}

/// Whether splicing a sub-graph into a tile adds a task that takes over.
pub open spec fn adds_task(graph: Graph, tile: TileView, sub: SubGraph) -> bool {
    &&& reads_tile(graph, tile, sub.resolve_rect)
    &&& opened(tile, sub.resolve_rect).deferred_task_id is None
}

/// What splicing a sub-graph into tiles does to the tasks of the frame.
#[verifier::rlimit(40)]
pub proof fn lemma_all_spliced(
    graph: Graph,
    cmd_buffers: Seq<Seq<u32>>,
    tiles: Tiles,
    sub: SubGraph,
)
    requires
        graph_wf(graph),
        forall|i: int| 0 <= i < tiles.len() ==> (#[trigger] tiles[i]).1.wf(graph),
        is_picture(graph, sub.resolve_task),
    ensures
        ({
            let s = splice_all(graph, cmd_buffers, tiles, sub);
            &&& grows(graph, s.graph)
            &&& keeps_work(graph, s.graph)
            &&& s.graph.len() <= graph.len() + tiles.len()
            &&& s.sources == read_tasks(graph, tiles, sub.resolve_rect)
            &&& s.tiles.len() == tiles.len()
            &&& forall|k: int| 0 <= k < s.affected.len() ==> has_task(
                s.graph,
                #[trigger] s.affected[k],
            )
            &&& forall|k: int| 0 <= k < s.sources.len() ==> has_task(graph, #[trigger] s.sources[k])
                && (!reads_itself(graph, tiles, sub) ==> needs(
                s.graph,
                sub.resolve_task,
                s.sources[k],
            ))
            &&& forall|parent: RenderTaskId, child: RenderTaskId|
                #![trigger needs(s.graph, parent, child)]
                has_task(graph, parent) && needs(graph, parent, child) && !(s.sources.contains(
                    parent,
                ) && child == sub.output) ==> needs(s.graph, parent, child)
            &&& forall|i: int|
                #![trigger s.tiles[i]]
                0 <= i < tiles.len() && !reads_tile(graph, tiles[i].1, sub.resolve_rect)
                    ==> s.tiles[i].1 == (if tiles[i].1.dirty_rect.overlaps(sub.resolve_rect) {
                    opened(tiles[i].1, sub.resolve_rect)
                } else {
                    tiles[i].1
                })
            &&& s.graph.len() <= usize::MAX ==> forall|i: int, j: int|
                #![trigger s.tiles[i], s.tiles[j]]
                0 <= i < j < tiles.len() && adds_task(graph, tiles[i].1, sub) && adds_task(
                    graph,
                    tiles[j].1,
                    sub,
                ) ==> s.tiles[i].1.deferred_task_id != s.tiles[j].1.deferred_task_id
            &&& forall|i: int|
                #![trigger s.tiles[i]]
                0 <= i < tiles.len() && reads_tile(graph, tiles[i].1, sub.resolve_rect) ==> {
                    let tile = s.tiles[i].1;
                    &&& tile.current_task_id == opened(
                        tiles[i].1,
                        sub.resolve_rect,
                    ).current_task_id
                    &&& tile.deferred_task_id is Some
                    &&& tile.dirty_rect == tiles[i].1.dirty_rect
                    &&& opened(tiles[i].1, sub.resolve_rect).deferred_task_id is Some
                        ==> tile.deferred_task_id == opened(
                        tiles[i].1,
                        sub.resolve_rect,
                    ).deferred_task_id
                    &&& tile.output_covers(sub.resolve_rect)
                    &&& s.affected.contains(tile.deferred_task_id->0)
                    &&& adds_task(graph, tiles[i].1, sub) && s.graph.len() <= usize::MAX ==> {
                        &&& goes_on(s.graph, tile)
                        &&& !has_task(graph, tile.deferred_task_id->0)
                    }
                }
        }),
    decreases tiles.len(),
{
    lemma_keeps_refl(graph);
    if tiles.len() > 0 {
        let shorter = tiles.drop_last();
        let n = shorter.len() as int;
        let tile = tiles.last().1;
        let rect = sub.resolve_rect;
        assert forall|i: int| 0 <= i < shorter.len() implies (#[trigger] shorter[i]).1.wf(
            graph,
        ) by {
            assert(shorter[i] == tiles[i]);
        }
        assert(tiles[n].1.wf(graph));
        let reads0 = read_tasks(graph, shorter, rect);
        let reads = read_tasks(graph, tiles, rect);
        assert forall|id: RenderTaskId| reads0.contains(id) implies reads.contains(id) by {
            let k = choose|k: int| 0 <= k < reads0.len() && reads0[k] == id;
            assert(reads[k] == id);
        }
        lemma_all_spliced(graph, cmd_buffers, shorter, sub);
        let s0 = splice_all(graph, cmd_buffers, shorter, sub);
        let s = splice_all(graph, cmd_buffers, tiles, sub);
        let commands = CommandBufferIndex(s0.cmd_buffers.len() as usize);
        let read = opened(tile, rect).current_task_id;
        lemma_tile_kept(tile, graph, s0.graph);
        let d = task(s0.graph, sub.resolve_task);
        lemma_one_spliced(s0.graph, tile, sub, commands);
        lemma_grows_trans(graph, s0.graph, s.graph);
        lemma_work_trans(graph, s0.graph, s.graph);
        let t = task(s0.graph, read);
        assert(has_task(graph, read));
        assert(reads_tile(s0.graph, tile, rect) == reads_tile(graph, tile, rect));
        if reads_tile(graph, tile, rect) {
            assert(reads[reads.len() - 1] == read);
        }
        assert forall|k: int| 0 <= k < s.sources.len() implies has_task(
            graph,
            #[trigger] s.sources[k],
        ) && (!reads_itself(graph, tiles, sub) ==> needs(
            s.graph,
            sub.resolve_task,
            s.sources[k],
        )) by {
            if k < s0.sources.len() {
                assert(s.sources[k] == s0.sources[k]);
                assert(reads.contains(s0.sources[k])) by {
                    assert(reads0[k] == s0.sources[k]);
                }
                if !reads_itself(graph, tiles, sub) {
                    assert(needs(s0.graph, sub.resolve_task, s0.sources[k]));
                    assert(needs(s.graph, sub.resolve_task, s0.sources[k]));
                }
            }
        }
        assert forall|k: int| 0 <= k < s.affected.len() implies has_task(
            s.graph,
            #[trigger] s.affected[k],
        ) by {
            if k < s0.affected.len() {
                assert(s.affected[k] == s0.affected[k]);
            }
        }
        assert forall|parent: RenderTaskId, child: RenderTaskId|
            #![trigger needs(s.graph, parent, child)]
            has_task(graph, parent) && needs(graph, parent, child) && !(s.sources.contains(parent)
                && child == sub.output) implies needs(s.graph, parent, child) by {
            if s0.sources.contains(parent) {
                let k = choose|k: int| 0 <= k < s0.sources.len() && s0.sources[k] == parent;
                assert(s.sources[k] == parent);
            }
            assert(needs(s0.graph, parent, child));
        }
        assert forall|i: int|
            #![trigger s.tiles[i]]
            0 <= i < tiles.len() && !reads_tile(
                graph,
                tiles[i].1,
                rect,
            ) implies s.tiles[i].1 == (if tiles[i].1.dirty_rect.overlaps(rect) {
            opened(tiles[i].1, rect)
        } else {
            tiles[i].1
        }) by {
            if i < n {
                assert(shorter[i] == tiles[i]);
                assert(s0.tiles[i] == s.tiles[i]);
            }
        }
        assert forall|i: int|
            #![trigger s.tiles[i]]
            0 <= i < tiles.len() && reads_tile(graph, tiles[i].1, rect) implies {
            let t = s.tiles[i].1;
            &&& t.current_task_id == opened(tiles[i].1, rect).current_task_id
            &&& t.deferred_task_id is Some
            &&& t.dirty_rect == tiles[i].1.dirty_rect
            &&& opened(tiles[i].1, rect).deferred_task_id is Some ==> t.deferred_task_id == opened(
                tiles[i].1,
                rect,
            ).deferred_task_id
            &&& t.output_covers(rect)
            &&& s.affected.contains(t.deferred_task_id->0)
            &&& adds_task(graph, tiles[i].1, sub) && s.graph.len() <= usize::MAX ==> goes_on(
                s.graph,
                t,
            ) && !has_task(graph, t.deferred_task_id->0)
        } by {
            let t = s.tiles[i].1;
            if i < n {
                assert(shorter[i] == tiles[i]);
                assert(s0.tiles[i] == s.tiles[i]);
                let id = t.deferred_task_id->0;
                let k = choose|k: int| 0 <= k < s0.affected.len() && s0.affected[k] == id;
                assert(s.affected[k] == id);
                if adds_task(graph, tiles[i].1, sub) && s.graph.len() <= usize::MAX {
                    let a = task(s0.graph, id);
                    let b = task(s0.graph, t.current_task_id);
                    assert(has_task(graph, t.current_task_id));
                    assert(needs(s0.graph, id, t.current_task_id));
                    assert(id != read);
                    assert(needs(s.graph, id, t.current_task_id));
                }
            } else {
                let id = t.deferred_task_id->0;
                assert(s.affected[s.affected.len() - 1] == id);
            }
        }
        if s.graph.len() <= usize::MAX {
            assert forall|i: int, j: int|
                #![trigger s.tiles[i], s.tiles[j]]
                0 <= i < j < tiles.len() && adds_task(graph, tiles[i].1, sub) && adds_task(
                    graph,
                    tiles[j].1,
                    sub,
                ) implies s.tiles[i].1.deferred_task_id != s.tiles[j].1.deferred_task_id by {
                assert(shorter[i] == tiles[i]);
                assert(s0.tiles[i] == s.tiles[i]);
                if j < n {
                    assert(shorter[j] == tiles[j]);
                    assert(s0.tiles[j] == s.tiles[j]);
                } else {
                    assert(goes_on(s0.graph, s0.tiles[i].1));
                }
            }
        }
    }
}

/// What follows the splicing, when a sub-graph is merged into tiles, takes no
/// dependency away, and changes only what tasks copy first.
pub proof fn lemma_after_splice(
    graph: Graph,
    cmd_buffers: Seq<Seq<u32>>,
    tiles: Tiles,
    sub: SubGraph,
    around: Surroundings,
)
    requires
        graph_wf(graph),
        forall|i: int| 0 <= i < tiles.len() ==> (#[trigger] tiles[i]).1.wf(graph),
        is_picture(graph, sub.resolve_task),
    ensures
        ({
            let s = splice_all(graph, cmd_buffers, tiles, sub);
            let m = merged_tiles(graph, cmd_buffers, tiles, sub, around);
            &&& keeps_drawing(s.graph, m.graph)
            &&& keeps_needs(s.graph, m.graph)
            &&& m.graph.len() == s.graph.len()
            &&& task(m.graph, sub.resolve_task).kind is Picture
            &&& task(m.graph, sub.resolve_task).picture().resolve_op == Some(
                ResolveOpView {
                    src_task_ids: s.sources,
                    sources: Seq::empty(),
                    dest_task_id: sub.resolve_task,
                    dest_to_src_raster: dest_to_src_raster(
                        s.graph,
                        around.relations,
                        sub.resolve_task,
                        s.sources,
                    ),
                },
            )
            &&& forall|k: int|
                0 <= k < s.affected.len() ==> needs(m.graph, #[trigger] s.affected[k], sub.output)
        }),
{
    let s = splice_all(graph, cmd_buffers, tiles, sub);
    let m = merged_tiles(graph, cmd_buffers, tiles, sub, around);
    lemma_all_spliced(graph, cmd_buffers, tiles, sub);
    let ready = readied(s.graph, tiles, s.sources, around);
    assert(keeps_drawing(s.graph, ready) && keeps_needs(s.graph, ready) && ready.len()
        == s.graph.len()) by {
        if let Some(tile) = crate::merge::first_mapped(tiles) {
            assert forall|k: int| 0 <= k < s.sources.len() implies has_task(
                s.graph,
                #[trigger] s.sources[k],
            ) by {
                assert(has_task(graph, s.sources[k]));
            }
            lemma_initialized_kept(
                s.graph,
                s.sources,
                tile.slice_index,
                around.sources,
                around.projections,
            );
        }
    }
    let raster = dest_to_src_raster(s.graph, around.relations, sub.resolve_task, s.sources);
    let d = task(ready, sub.resolve_task);
    let e = task(s.graph, sub.resolve_task);
    assert(is_picture(ready, sub.resolve_task));
    lemma_resolve_kept(ready, sub.resolve_task, s.sources, Seq::empty(), raster);
    let resolved = with_resolve(ready, sub.resolve_task, s.sources, Seq::empty(), raster);
    lemma_edges_from_kept(resolved, s.affected, sub.output);
    lemma_work_is_drawing(resolved, m.graph);
    lemma_kept_twice(s.graph, ready, resolved);
    lemma_kept_twice(s.graph, resolved, m.graph);
    let f = task(m.graph, sub.resolve_task);
}

/// Merging a sub-graph into tiles does the four things that make it see what is
/// drawn below it, and be seen by what is drawn after it. Of every tile that it
/// reads, another task draws to the place of the one that was read; the tasks
/// that are read are copied to the resolve target; the resolve target needs
/// them; and the tasks that take over need the output. No task that was there
/// draws anything else, or to another place.
pub proof fn law_sub_graph_in_tiles(
    graph: Graph,
    cmd_buffers: Seq<Seq<u32>>,
    tiles: Tiles,
    sub: SubGraph,
    around: Surroundings,
)
    requires
        graph_wf(graph),
        tiles_wf(tiles, graph),
        is_picture(graph, sub.resolve_task),
        graph.len() + tiles.len() <= usize::MAX,
        !reads_itself(graph, tiles, sub),
    ensures
        ({
            let reads = read_tasks(graph, tiles, sub.resolve_rect);
            let m = merged_tiles(graph, cmd_buffers, tiles, sub, around);
            &&& keeps_drawing(graph, m.graph)
            &&& m.kind.tiles().len() == tiles.len()
            &&& task(m.graph, sub.resolve_task).picture().resolve_op == Some(
                ResolveOpView {
                    src_task_ids: reads,
                    sources: Seq::empty(),
                    dest_task_id: sub.resolve_task,
                    dest_to_src_raster: dest_to_src_raster(
                        graph,
                        around.relations,
                        sub.resolve_task,
                        reads,
                    ),
                },
            )
            &&& forall|k: int|
                0 <= k < reads.len() ==> needs(m.graph, sub.resolve_task, #[trigger] reads[k])
            &&& forall|i: int|
                #![trigger m.kind.tiles()[i]]
                0 <= i < tiles.len() && reads_tile(graph, tiles[i].1, sub.resolve_rect) ==> {
                    let tile = m.kind.tiles()[i].1;
                    let ready = opened(tiles[i].1, sub.resolve_rect);
                    &&& tile.current_task_id == ready.current_task_id
                    &&& tile.deferred_task_id is Some
                    &&& needs(m.graph, tile.deferred_task_id->0, sub.output)
                    &&& ready.deferred_task_id is None ==> goes_on(m.graph, tile) && !has_task(
                        graph,
                        tile.deferred_task_id->0,
                    )
                }
        }),
{
    let reads = read_tasks(graph, tiles, sub.resolve_rect);
    let s = splice_all(graph, cmd_buffers, tiles, sub);
    let m = merged_tiles(graph, cmd_buffers, tiles, sub, around);
    lemma_all_spliced(graph, cmd_buffers, tiles, sub);
    lemma_after_splice(graph, cmd_buffers, tiles, sub, around);
    lemma_work_is_drawing(graph, s.graph);
    lemma_kept_twice(graph, s.graph, m.graph);
    assert(dest_to_src_raster(s.graph, around.relations, sub.resolve_task, s.sources)
        == dest_to_src_raster(graph, around.relations, sub.resolve_task, reads)) by {
        let d = task(s.graph, sub.resolve_task);
        if reads.len() > 0 {
            let r = task(s.graph, s.sources[0]);
            assert(has_task(graph, s.sources[0]));
        }
    }
    assert forall|k: int| 0 <= k < reads.len() implies needs(
        m.graph,
        sub.resolve_task,
        #[trigger] reads[k],
    ) by {
        assert(needs(s.graph, sub.resolve_task, s.sources[k]));
    }
    assert forall|i: int|
        #![trigger m.kind.tiles()[i]]
        0 <= i < tiles.len() && reads_tile(graph, tiles[i].1, sub.resolve_rect) implies {
        let tile = m.kind.tiles()[i].1;
        let open = opened(tiles[i].1, sub.resolve_rect);
        &&& tile.current_task_id == open.current_task_id
        &&& tile.deferred_task_id is Some
        &&& needs(m.graph, tile.deferred_task_id->0, sub.output)
        &&& open.deferred_task_id is None ==> goes_on(m.graph, tile) && !has_task(
            graph,
            tile.deferred_task_id->0,
        )
    } by {
        let tile = s.tiles[i].1;
        let id = tile.deferred_task_id->0;
        let k = choose|k: int| 0 <= k < s.affected.len() && s.affected[k] == id;
        assert(needs(m.graph, s.affected[k], sub.output));
        if opened(tiles[i].1, sub.resolve_rect).deferred_task_id is None {
            let a = task(m.graph, id);
            let b = task(m.graph, tile.current_task_id);
            assert(tiles[i].1.wf(graph));
            assert(has_task(graph, tile.current_task_id));
            let c = task(s.graph, tile.current_task_id);
            assert(needs(s.graph, id, tile.current_task_id));
            assert(needs(m.graph, id, tile.current_task_id));
        }
    }
}

/// What a sub-graph reads of a tile is among what it reads.
proof fn lemma_reads_contain(graph: Graph, tiles: Tiles, rect: PictureRect, i: int)
    requires
        0 <= i < tiles.len(),
        reads_tile(graph, tiles[i].1, rect),
    ensures
        read_tasks(graph, tiles, rect).contains(opened(tiles[i].1, rect).current_task_id),
    decreases tiles.len(),
{
    let shorter = tiles.drop_last();
    let earlier = read_tasks(graph, shorter, rect);
    let all = read_tasks(graph, tiles, rect);
    if i < shorter.len() {
        assert(shorter[i] == tiles[i]);
        lemma_reads_contain(graph, shorter, rect, i);
        let id = opened(tiles[i].1, rect).current_task_id;
        let k = choose|k: int| 0 <= k < earlier.len() && earlier[k] == id;
        assert(all[k] == id);
    } else {
        assert(all[all.len() - 1] == opened(tiles[i].1, rect).current_task_id);
    }
}

/// A backdrop filter sees the one before it, where the two overlap on a tile:
/// among the tasks that the second one reads is one that needs the output of the
/// first.
pub proof fn law_filter_sees_filter(
    graph: Graph,
    cmd_buffers: Seq<Seq<u32>>,
    tiles: Tiles,
    first: SubGraph,
    around: Surroundings,
    second: PictureRect,
    i: int,
)
    requires
        graph_wf(graph),
        tiles_wf(tiles, graph),
        is_picture(graph, first.resolve_task),
        graph.len() + tiles.len() <= usize::MAX,
        !reads_itself(graph, tiles, first),
        0 <= i < tiles.len(),
        reads_tile(graph, tiles[i].1, first.resolve_rect),
        tiles[i].1.deferred_task_id matches Some(id) ==> !(task(graph, id).location is Static),
        !first.resolve_rect.empty(),
        first.resolve_rect.overlaps(second),
        tiles[i].1.dirty_rect.overlaps(second),
    ensures
        ({
            let m = merged_tiles(graph, cmd_buffers, tiles, first, around);
            let id = m.kind.tiles()[i].1.final_task();
            &&& read_tasks(m.graph, m.kind.tiles(), second).contains(id)
            &&& needs(m.graph, id, first.output)
        }),
{
    let s = splice_all(graph, cmd_buffers, tiles, first);
    let m = merged_tiles(graph, cmd_buffers, tiles, first, around);
    law_sub_graph_in_tiles(graph, cmd_buffers, tiles, first, around);
    lemma_all_spliced(graph, cmd_buffers, tiles, first);
    assert(tiles[i].1.wf(graph));
    let tile = s.tiles[i].1;
    assert(m.kind.tiles()[i].1 == tile);
    let id = tile.deferred_task_id->0;
    crate::laws::lemma_covered_overlaps(tile, first.resolve_rect, second);
    assert(opened(tile, second).current_task_id == id);
    if opened(tiles[i].1, first.resolve_rect).deferred_task_id is Some {
        assert(has_task(graph, id));
        let t = task(m.graph, id);
    }
    assert(!(task(m.graph, id).location is Static));
    lemma_reads_contain(m.graph, m.kind.tiles(), second, i);
}

/// Starting from what the slices behind show changes only the tasks that are to
/// start so.
pub proof fn lemma_initialized_others(
    graph: Graph,
    ids: Seq<RenderTaskId>,
    slice_index: usize,
    sources: Seq<BackdropSource>,
    projections: Map<RenderTaskId, ProjectionView>,
    other: RenderTaskId,
)
    requires
        forall|k: int| 0 <= k < ids.len() ==> has_task(graph, #[trigger] ids[k]),
        has_task(graph, other),
        !ids.contains(other),
    ensures
        task(initialized(graph, ids, slice_index, sources, projections), other) == task(
            graph,
            other,
        ),
    decreases ids.len(),
{
    if ids.len() > 0 {
        let shorter = ids.drop_last();
        assert forall|k: int| 0 <= k < shorter.len() implies has_task(
            graph,
            #[trigger] shorter[k],
        ) by {
            assert(shorter[k] == ids[k]);
        }
        assert(!shorter.contains(other)) by {
            if shorter.contains(other) {
                let k = choose|k: int| 0 <= k < shorter.len() && shorter[k] == other;
                assert(ids[k] == other);
            }
        }
        lemma_initialized_others(graph, shorter, slice_index, sources, projections, other);
        lemma_initialized_kept(graph, shorter, slice_index, sources, projections);
        assert(ids[ids.len() - 1] == ids.last());
        assert(ids.last() != other);
    }
}

/// A sub-graph can be merged into tiles where nothing is copied to its resolve
/// target yet, unless that target is itself one of the tasks that it reads.
pub proof fn law_unread_target_stays_free(
    graph: Graph,
    cmd_buffers: Seq<Seq<u32>>,
    tiles: Tiles,
    sub: SubGraph,
    around: Surroundings,
)
    requires
        graph_wf(graph),
        tiles_wf(tiles, graph),
        is_picture(graph, sub.resolve_task),
        graph.len() + tiles.len() <= usize::MAX,
        task(graph, sub.resolve_task).picture().resolve_op is None,
        !read_tasks(graph, tiles, sub.resolve_rect).contains(sub.resolve_task),
    ensures
        task(
            readied(
                splice_all(graph, cmd_buffers, tiles, sub).graph,
                tiles,
                read_tasks(graph, tiles, sub.resolve_rect),
                around,
            ),
            sub.resolve_task,
        ).picture().resolve_op is None,
{
    let s = splice_all(graph, cmd_buffers, tiles, sub);
    lemma_all_spliced(graph, cmd_buffers, tiles, sub);
    let t = task(s.graph, sub.resolve_task);
    if let Some(tile) = crate::merge::first_mapped(tiles) {
        assert forall|k: int| 0 <= k < s.sources.len() implies has_task(
            s.graph,
            #[trigger] s.sources[k],
        ) by {
            assert(has_task(graph, s.sources[k]));
        }
        lemma_initialized_others(
            s.graph,
            s.sources,
            tile.slice_index,
            around.sources,
            around.projections,
            sub.resolve_task,
        );
    }
}

/// A chain keeps its tasks when more dependencies are added.
pub proof fn lemma_chain_kept(
    before: Graph,
    after: Graph,
    root: RenderTaskId,
    src: RenderTaskId,
    id: RenderTaskId,
)
    requires
        graph_wf(before),
        has_task(before, root),
        keeps_needs(before, after),
        crate::filter_chain::in_chain(before, root, src, id),
    ensures
        crate::filter_chain::in_chain(after, root, src, id),
        has_task(before, id),
{
    reveal(crate::filter_chain::in_chain);
    let path = choose|path: Seq<RenderTaskId>|
        crate::filter_chain::chain_path(before, root, src, path) && #[trigger] path.last() == id;
    lemma_path_in_graph(before, root, src, path, path.len() - 1);
    assert forall|k: int| #![trigger path[k]] 0 < k < path.len() implies path[k] != src && task(
        after,
        path[k - 1],
    ).children.contains(path[k]) by {
        lemma_path_in_graph(before, root, src, path, k - 1);
        assert(needs(before, path[k - 1], path[k]));
        assert(needs(after, path[k - 1], path[k]));
    }
    assert(crate::filter_chain::chain_path(after, root, src, path) && path.last() == id);
}

/// A path along dependencies stays within the graph.
pub proof fn lemma_path_in_graph(
    graph: Graph,
    root: RenderTaskId,
    src: RenderTaskId,
    path: Seq<RenderTaskId>,
    n: int,
)
    requires
        graph_wf(graph),
        has_task(graph, root),
        crate::filter_chain::chain_path(graph, root, src, path),
        0 <= n < path.len(),
    ensures
        has_task(graph, path[n]),
    decreases n,
{
    if n > 0 {
        lemma_path_in_graph(graph, root, src, path, n - 1);
        let children = task(graph, path[n - 1]).children;
        assert(children.contains(path[n]));
        let k = choose|k: int| 0 <= k < children.len() && children[k] == path[n];
        assert(has_task(graph, graph[path[n - 1].index as int].children[k]));
    }
}

/// Ordering the readers of a chain takes no dependency away.
proof fn lemma_readers_kept(
    graph: Graph,
    root: RenderTaskId,
    src: RenderTaskId,
    dep: RenderTaskId,
)
    requires
        graph.len() <= usize::MAX,
    ensures
        keeps_work(graph, readers_ordered(graph, root, src, dep)),
        keeps_needs(graph, readers_ordered(graph, root, src, dep)),
        readers_ordered(graph, root, src, dep).len() == graph.len(),
{
    let after = readers_ordered(graph, root, src, dep);
    assert forall|id: RenderTaskId|
        #![trigger task(after, id)]
        #![trigger task(graph, id)]
        has_task(graph, id) implies task(after, id).location == task(graph, id).location && task(
        after,
        id,
    ).kind == task(graph, id).kind by {
        assert(after[id.index as int].kind == graph[id.index as int].kind);
    }
    assert forall|parent: RenderTaskId, child: RenderTaskId|
        #![trigger needs(after, parent, child)]
        #![trigger needs(graph, parent, child)]
        has_task(graph, parent) && needs(graph, parent, child) implies needs(
        after,
        parent,
        child,
    ) by {
        crate::laws::law_readers_wait(graph, root, src, dep, parent);
    }
}

/// Merging a sub-graph into a simple surface does the same: another task draws
/// to the place of the one that was read, which is copied to the resolve target;
/// the resolve target needs the one that was read, and the one that takes over
/// needs the output. What filters the surface waits for the task that takes over,
/// so that what is drawn after the sub-graph is not missing from the filter. No
/// task that was there draws anything else, or to another place, or stops needing
/// anything.
pub proof fn law_sub_graph_in_simple(
    graph: Graph,
    commands: CommandBufferIndex,
    render_task: RenderTaskId,
    root_task: Option<RenderTaskId>,
    sub: SubGraph,
    relations: crate::resolve::Relations,
)
    requires
        graph_wf(graph),
        is_picture(graph, render_task),
        root_task matches Some(root) ==> has_task(graph, root),
        is_picture(graph, sub.resolve_task),
        graph.len() < usize::MAX,
    ensures
        ({
            let m = merged_simple(graph, commands, render_task, root_task, sub, relations);
            &&& keeps_drawing(graph, m.graph)
            &&& keeps_needs(graph, m.graph)
            &&& m.next.index == graph.len()
            &&& has_task(m.graph, m.next)
            &&& task(m.graph, m.next).location == (RenderTaskLocation::Existing {
                parent_task_id: render_task,
                size: task(graph, render_task).location.extent(),
            })
            &&& same_drawing(
                TaskKindView::Picture(task(graph, render_task).picture().continued(commands)),
                task(m.graph, m.next).kind,
            )
            &&& needs(m.graph, m.next, render_task)
            &&& needs(m.graph, m.next, sub.output)
            &&& needs(m.graph, sub.resolve_task, render_task)
            &&& task(m.graph, sub.resolve_task).picture().resolve_op == Some(
                ResolveOpView {
                    src_task_ids: seq![render_task],
                    sources: Seq::empty(),
                    dest_task_id: sub.resolve_task,
                    dest_to_src_raster: dest_to_src_raster(
                        graph,
                        relations,
                        sub.resolve_task,
                        seq![render_task],
                    ),
                },
            )
            &&& root_task matches Some(root) ==> forall|id: RenderTaskId|
                is_reader(graph, root, render_task, id) ==> #[trigger] needs(m.graph, id, m.next)
        }),
{
    let m = merged_simple(graph, commands, render_task, root_task, sub, relations);
    let next = RenderTaskId { index: graph.len() as usize };
    let ordered = with_edge(graph, sub.resolve_task, render_task);
    lemma_edge_kept(graph, sub.resolve_task, render_task);
    let added = continuation(ordered, render_task, commands);
    let continued = ordered.push(added);
    assert(keeps_work(ordered, continued));
    assert(keeps_needs(ordered, continued)) by {
        assert forall|parent: RenderTaskId, child: RenderTaskId|
            #![trigger needs(continued, parent, child)]
            #![trigger needs(ordered, parent, child)]
            has_task(ordered, parent) && needs(ordered, parent, child) implies needs(
            continued,
            parent,
            child,
        ) by {
            assert(task(continued, parent) == task(ordered, parent));
        }
    }
    assert(task(continued, next) == added);
    assert(added.children[0] == render_task);
    assert(needs(continued, next, render_task));
    lemma_work_trans(graph, ordered, continued);
    lemma_kept_twice(graph, ordered, continued);
    let spliced = spliced_simple(graph, commands, render_task, root_task, sub).graph;
    if let Some(root) = root_task {
        lemma_readers_kept(continued, root, render_task, next);
    }
    assert(keeps_work(continued, spliced) && keeps_needs(continued, spliced));
    lemma_work_trans(graph, continued, spliced);
    lemma_kept_twice(graph, continued, spliced);
    let a = task(spliced, sub.resolve_task);
    let b = task(spliced, render_task);
    let c = task(ordered, render_task);
    assert(is_picture(spliced, sub.resolve_task));
    let raster = dest_to_src_raster(spliced, relations, sub.resolve_task, seq![render_task]);
    assert(raster == dest_to_src_raster(graph, relations, sub.resolve_task, seq![render_task]));
    lemma_resolve_kept(spliced, sub.resolve_task, seq![render_task], Seq::empty(), raster);
    let resolved = with_resolve(
        spliced,
        sub.resolve_task,
        seq![render_task],
        Seq::empty(),
        raster,
    );
    lemma_edge_kept(resolved, next, sub.output);
    lemma_work_is_drawing(graph, spliced);
    lemma_kept_twice(graph, spliced, resolved);
    lemma_work_is_drawing(resolved, m.graph);
    lemma_kept_twice(graph, resolved, m.graph);
    lemma_work_is_drawing(continued, spliced);
    lemma_kept_twice(continued, spliced, resolved);
    lemma_kept_twice(continued, resolved, m.graph);
    let d = task(m.graph, sub.resolve_task);
    let e = task(m.graph, next);
    assert(needs(continued, sub.resolve_task, render_task)) by {
        assert(needs(ordered, sub.resolve_task, render_task));
    }
    assert(needs(m.graph, sub.resolve_task, render_task));
    assert(needs(m.graph, next, render_task));
    if let Some(root) = root_task {
        assert forall|id: RenderTaskId| is_reader(
            graph,
            root,
            render_task,
            id,
        ) implies #[trigger] needs(m.graph, id, m.next) by {
            lemma_chain_kept(graph, continued, root, render_task, id);
            assert(needs(graph, id, render_task));
            assert(needs(continued, id, render_task));
            assert(is_reader(continued, root, render_task, id));
            crate::laws::law_readers_wait(continued, root, render_task, next, id);
            assert(needs(spliced, id, next));
            lemma_kept_twice(spliced, resolved, m.graph);
        }
    }
}

/// Handing a tile to the task that composites it takes no dependency away.
proof fn lemma_settled_tile_needs(graph: Graph, tile: TileView)
    requires
        has_task(graph, tile.final_task()),
        tile.composite_task_id matches Some(id) ==> has_task(graph, id),
    ensures
        keeps_needs(graph, settled_tile(graph, tile)),
        settled_tile(graph, tile).len() == graph.len(),
        tile.composite_task_id matches Some(id) ==> needs(
            settled_tile(graph, tile),
            id,
            tile.final_task(),
        ),
{
    let after = settled_tile(graph, tile);
    if let Some(composite) = tile.composite_task_id {
        let children = task(graph, composite).children;
        assert(task(after, composite).children =~= children.push(tile.final_task()));
        assert(task(after, composite).children[children.len() as int] == tile.final_task());
        assert forall|parent: RenderTaskId, child: RenderTaskId|
            #![trigger needs(after, parent, child)]
            #![trigger needs(graph, parent, child)]
            has_task(graph, parent) && needs(graph, parent, child) implies needs(
            after,
            parent,
            child,
        ) by {
            if parent.index == composite.index {
                let k = choose|k: int| 0 <= k < children.len() && children[k] == child;
                assert(task(after, parent).children[k] == child);
            } else {
                assert(task(after, parent).children == task(graph, parent).children);
            }
        }
    }
}

/// The task that composites a tile waits for the task that holds everything
/// drawn on it, for every tile of a surface.
pub proof fn law_composites_wait(graph: Graph, tiles: Tiles)
    requires
        tiles_wf(tiles, graph),
    ensures
        keeps_needs(graph, settled(graph, tiles)),
        settled(graph, tiles).len() == graph.len(),
        forall|i: int|
            #![trigger tiles[i]]
            0 <= i < tiles.len() && tiles[i].1.composite_task_id is Some ==> needs(
                settled(graph, tiles),
                tiles[i].1.composite_task_id->0,
                tiles[i].1.final_task(),
            ),
    decreases tiles.len(),
{
    if tiles.len() > 0 {
        let shorter = tiles.drop_last();
        assert(tiles_wf(shorter, graph)) by {
            assert forall|i: int| 0 <= i < shorter.len() implies (#[trigger] shorter[i]).1.wf(graph)
                && shorter[i].0.sub_slice_index.in_range() by {
                assert(shorter[i] == tiles[i]);
            }
            assert forall|i: int, j: int|
                #![trigger shorter[i], shorter[j]]
                0 <= i < j < shorter.len() implies shorter[i].0 != shorter[j].0 && (
            shorter[i].1.composite_task_id is Some ==> shorter[i].1.composite_task_id
                != shorter[j].1.composite_task_id) by {
                assert(tiles[i].0 != tiles[j].0);
            }
        }
        law_composites_wait(graph, shorter);
        let before = settled(graph, shorter);
        let after = settled(graph, tiles);
        assert(tiles[tiles.len() - 1].1.wf(graph));
        lemma_settled_tile_needs(before, tiles.last().1);
        lemma_kept_twice(graph, before, after);
        assert forall|i: int|
            #![trigger tiles[i]]
            0 <= i < tiles.len() && tiles[i].1.composite_task_id is Some implies needs(
            after,
            tiles[i].1.composite_task_id->0,
            tiles[i].1.final_task(),
        ) by {
            if i < shorter.len() {
                assert(shorter[i] == tiles[i]);
                assert(tiles[i].1.wf(graph));
                assert(needs(
                    before,
                    tiles[i].1.composite_task_id->0,
                    tiles[i].1.final_task(),
                ));
            }
        }
    }
}

/// The tasks that hold a surface.
pub open spec fn holding_tasks(kind: BuilderKindView) -> Seq<RenderTaskId> {
    match kind {
        BuilderKindView::Tiled { tiles } => tiles.map_values(
            |t: (TileKey, TileView)| t.1.final_task(),
        ),
        BuilderKindView::Simple { render_task_id, .. } => seq![render_task_id],
        BuilderKindView::Invalid => Seq::empty(),
    }
}

/// What the tasks that hold tiles need besides.
proof fn lemma_tiles_extras(graph: Graph, tiles: Tiles, children: Seq<RenderTaskId>)
    requires
        forall|i: int|
            0 <= i < tiles.len() ==> has_task(graph, (#[trigger] tiles[i]).1.final_task()),
    ensures
        keeps_work(graph, tiles_with_edges_to(graph, tiles, children)),
        keeps_needs(graph, tiles_with_edges_to(graph, tiles, children)),
        tiles_with_edges_to(graph, tiles, children).len() == graph.len(),
        forall|i: int, k: int|
            #![trigger tiles[i], children[k]]
            0 <= i < tiles.len() && 0 <= k < children.len() ==> needs(
                tiles_with_edges_to(graph, tiles, children),
                tiles[i].1.final_task(),
                children[k],
            ),
    decreases tiles.len(),
{
    if tiles.len() > 0 {
        let shorter = tiles.drop_last();
        assert forall|i: int| 0 <= i < shorter.len() implies has_task(
            graph,
            (#[trigger] shorter[i]).1.final_task(),
        ) by {
            assert(shorter[i] == tiles[i]);
        }
        lemma_tiles_extras(graph, shorter, children);
        let before = tiles_with_edges_to(graph, shorter, children);
        let after = tiles_with_edges_to(graph, tiles, children);
        assert(tiles[tiles.len() - 1] == tiles.last());
        lemma_edges_to_kept(before, tiles.last().1.final_task(), children);
        lemma_work_trans(graph, before, after);
        lemma_kept_twice(graph, before, after);
        assert forall|i: int, k: int|
            #![trigger tiles[i], children[k]]
            0 <= i < tiles.len() && 0 <= k < children.len() implies needs(
            after,
            tiles[i].1.final_task(),
            children[k],
        ) by {
            if i < shorter.len() {
                assert(shorter[i] == tiles[i]);
                assert(needs(before, shorter[i].1.final_task(), children[k]));
            }
        }
    }
}

/// The tasks that hold a surface need everything that was added to it, and
/// nothing else changes.
pub proof fn law_extras_needed(graph: Graph, kind: BuilderKindView, children: Seq<RenderTaskId>)
    requires
        crate::finish::is_held(graph, kind),
    ensures
        keeps_work(graph, with_extras(graph, kind, children)),
        keeps_needs(graph, with_extras(graph, kind, children)),
        with_extras(graph, kind, children).len() == graph.len(),
        forall|i: int, k: int|
            #![trigger holding_tasks(kind)[i], children[k]]
            0 <= i < holding_tasks(kind).len() && 0 <= k < children.len() ==> needs(
                with_extras(graph, kind, children),
                holding_tasks(kind)[i],
                children[k],
            ),
{
    match kind {
        BuilderKindView::Tiled { tiles } => {
            lemma_tiles_extras(graph, tiles, children);
            assert forall|i: int, k: int|
                #![trigger holding_tasks(kind)[i], children[k]]
                0 <= i < holding_tasks(kind).len() && 0 <= k < children.len() implies needs(
                with_extras(graph, kind, children),
                holding_tasks(kind)[i],
                children[k],
            ) by {
                assert(holding_tasks(kind)[i] == tiles[i].1.final_task());
            }
        },
        BuilderKindView::Simple { render_task_id, .. } => {
            lemma_edges_to_kept(graph, render_task_id, children);
        },
        BuilderKindView::Invalid => {},
    }
}

/// The tasks that hold a well-formed surface are tasks of a graph that has
/// grown.
pub proof fn lemma_held(kind: BuilderKindView, before: Graph, after: Graph)
    requires
        before.len() <= after.len(),
        match kind {
            BuilderKindView::Tiled { tiles } => tiles_wf(tiles, before),
            BuilderKindView::Simple { render_task_id, .. } => is_picture(before, render_task_id),
            BuilderKindView::Invalid => true,
        },
    ensures
        crate::finish::is_held(after, kind),
{
    if let BuilderKindView::Tiled { tiles } = kind {
        assert forall|i: int| 0 <= i < tiles.len() implies has_task(
            after,
            (#[trigger] tiles[i]).1.final_task(),
        ) by {
            assert(tiles[i].1.wf(before));
        }
    }
}

/// Finishing a simple surface that is no sub-graph makes every task of the
/// surface below need its output. The surfaces below, the outputs of sub-graphs
/// and the command buffers stay as they are, and so does what every task draws.
pub proof fn law_simple_surface_finished(
    stage: Stage,
    pic_index: PictureIndex,
    around: Surroundings,
)
    requires
        stage.surfaces.wf(stage.graph),
        stage.surfaces.stack.len() > 1,
        stage.surfaces.top().kind is Simple,
        !stage.surfaces.top().establishes_sub_graph,
    ensures
        ({
            let stack = stage.surfaces.stack;
            let after = popped(stage, pic_index, around);
            let parents = drawing_tasks(stack[stack.len() - 2].kind);
            &&& after.surfaces.stack == stack.drop_last()
            &&& after.surfaces.outputs == stage.surfaces.outputs
            &&& after.cmd_buffers == stage.cmd_buffers
            &&& keeps_work(stage.graph, after.graph)
            &&& keeps_needs(stage.graph, after.graph)
            &&& forall|k: int|
                0 <= k < parents.len() ==> needs(
                    after.graph,
                    #[trigger] parents[k],
                    stage.surfaces.top().kind.output_task(),
                )
        }),
{
    let stack = stage.surfaces.stack;
    let top = stage.surfaces.top();
    let below = stack.drop_last();
    let after = popped(stage, pic_index, around);
    let handed = handed_on(stage, pic_index, around);
    let parent = stack[stack.len() - 2];
    let output = top.kind.output_task();
    assert(below.last() == parent);
    assert(stack[stack.len() - 1].wf(stage.graph));
    assert(parent.wf(stage.graph));
    crate::finish::lemma_drawing_tasks(parent.kind, stage.graph);
    lemma_edges_from_kept(stage.graph, drawing_tasks(parent.kind), output);
    lemma_held(top.kind, stage.graph, handed.graph);
    law_extras_needed(handed.graph, top.kind, top.extra_dependencies);
    lemma_work_trans(stage.graph, handed.graph, after.graph);
    lemma_kept_twice(stage.graph, handed.graph, after.graph);
    assert forall|k: int| 0 <= k < drawing_tasks(parent.kind).len() implies needs(
        after.graph,
        #[trigger] drawing_tasks(parent.kind)[k],
        output,
    ) by {
        assert(needs(handed.graph, drawing_tasks(parent.kind)[k], output));
    }
}

/// Finishing a tiled surface makes the task that composites a tile wait for the
/// one that holds it. The surfaces below, the outputs of sub-graphs and the
/// command buffers stay as they are.
pub proof fn law_tiled_surface_finished(
    stage: Stage,
    pic_index: PictureIndex,
    around: Surroundings,
)
    requires
        stage.surfaces.wf(stage.graph),
        stage.surfaces.stack.len() > 0,
        stage.surfaces.top().kind is Tiled,
    ensures
        ({
            let after = popped(stage, pic_index, around);
            let tiles = stage.surfaces.top().kind.tiles();
            &&& after.surfaces.stack == stage.surfaces.stack.drop_last()
            &&& after.surfaces.outputs == stage.surfaces.outputs
            &&& after.cmd_buffers == stage.cmd_buffers
            &&& keeps_needs(stage.graph, after.graph)
            &&& forall|i: int|
                #![trigger tiles[i]]
                0 <= i < tiles.len() && tiles[i].1.composite_task_id is Some ==> needs(
                    after.graph,
                    tiles[i].1.composite_task_id->0,
                    tiles[i].1.final_task(),
                )
        }),
{
    let stack = stage.surfaces.stack;
    let top = stage.surfaces.top();
    let tiles = top.kind.tiles();
    let after = popped(stage, pic_index, around);
    let handed = handed_on(stage, pic_index, around);
    assert(stack[stack.len() - 1].wf(stage.graph));
    law_composites_wait(stage.graph, tiles);
    lemma_held(top.kind, stage.graph, handed.graph);
    law_extras_needed(handed.graph, top.kind, top.extra_dependencies);
    lemma_kept_twice(stage.graph, handed.graph, after.graph);
    assert forall|i: int|
        #![trigger tiles[i]]
        0 <= i < tiles.len() && tiles[i].1.composite_task_id is Some implies needs(
        after.graph,
        tiles[i].1.composite_task_id->0,
        tiles[i].1.final_task(),
    ) by {
        assert(tiles[i].1.wf(stage.graph));
        assert(needs(
            handed.graph,
            tiles[i].1.composite_task_id->0,
            tiles[i].1.final_task(),
        ));
    }
}

/// Merging a sub-graph into a simple surface adds one task.
pub proof fn lemma_merged_simple_len(
    graph: Graph,
    commands: CommandBufferIndex,
    render_task: RenderTaskId,
    root_task: Option<RenderTaskId>,
    sub: SubGraph,
    relations: crate::resolve::Relations,
)
    requires
        is_picture(graph, sub.resolve_task),
    ensures
        merged_simple(graph, commands, render_task, root_task, sub, relations).graph.len()
            == graph.len() + 1,
{
    let spliced = spliced_simple(graph, commands, render_task, root_task, sub);
    assert(spliced.graph.len() == graph.len() + 1);
    assert(has_task(spliced.graph, spliced.next));
}

/// Merging a sub-graph that reads something back takes no task away.
pub proof fn lemma_merged_len(
    graph: Graph,
    cmd_buffers: Seq<Seq<u32>>,
    kind: BuilderKindView,
    child: BuilderView,
    around: Surroundings,
)
    requires
        graph_wf(graph),
        child.wf(graph),
        child.resolve_source is Some,
        match kind {
            BuilderKindView::Tiled { tiles } => tiles_wf(tiles, graph),
            BuilderKindView::Simple { render_task_id, root_task_id, .. } => {
                &&& is_picture(graph, render_task_id)
                &&& root_task_id matches Some(id) ==> has_task(graph, id)
            },
            BuilderKindView::Invalid => true,
        },
    ensures
        graph.len() <= merged(graph, cmd_buffers, kind, child, around).graph.len(),
{
    let sub = sub_graph(child);
    match kind {
        BuilderKindView::Tiled { tiles } => {
            lemma_all_spliced(graph, cmd_buffers, tiles, sub);
            lemma_after_splice(graph, cmd_buffers, tiles, sub, around);
        },
        BuilderKindView::Simple { render_task_id, root_task_id, .. } => {
            lemma_merged_simple_len(
                graph,
                CommandBufferIndex(cmd_buffers.len() as usize),
                render_task_id,
                root_task_id,
                sub,
                around.relations,
            );
        },
        BuilderKindView::Invalid => {},
    }
}

/// Finishing a sub-graph that reads something back records its output for the
/// picture, so that the primitive which draws it can find it. Nothing is taken
/// away of what the merge has set up.
pub proof fn law_sub_graph_finished(
    stage: Stage,
    pic_index: PictureIndex,
    around: Surroundings,
)
    requires
        stage.surfaces.wf(stage.graph),
        stage.surfaces.stack.len() > 1,
        stage.surfaces.top().establishes_sub_graph,
        stage.surfaces.top().resolve_source is Some,
    ensures
        ({
            let stack = stage.surfaces.stack;
            let top = stage.surfaces.top();
            let after = popped(stage, pic_index, around);
            let merge = merged(
                stage.graph,
                stage.cmd_buffers,
                stack[stack.len() - 2].kind,
                top,
                around,
            );
            &&& after.surfaces.outputs == stage.surfaces.outputs.insert(
                pic_index.0,
                top.kind.output_task(),
            )
            &&& after.surfaces.stack.len() == stack.len() - 1
            &&& after.surfaces.top().kind == merge.kind
            &&& after.cmd_buffers == merge.cmd_buffers
            &&& keeps_work(merge.graph, after.graph)
            &&& keeps_needs(merge.graph, after.graph)
        }),
{
    let stack = stage.surfaces.stack;
    let top = stage.surfaces.top();
    let below = stack.drop_last();
    let handed = handed_on(stage, pic_index, around);
    assert(below.last() == stack[stack.len() - 2]);
    assert(stack[stack.len() - 1].wf(stage.graph));
    assert(stack[stack.len() - 2].wf(stage.graph));
    lemma_merged_len(stage.graph, stage.cmd_buffers, below.last().kind, top, around);
    lemma_held(top.kind, stage.graph, handed.graph);
    law_extras_needed(handed.graph, top.kind, top.extra_dependencies);
}

/// After a sub-graph has been merged into a simple surface, all commands for the
/// surface go to a buffer that is empty so far, whatever the sub-slice.
pub proof fn law_commands_after_sub_graph(
    stage: Stage,
    pic_index: PictureIndex,
    around: Surroundings,
    sub_slice: int,
)
    requires
        stage.surfaces.wf(stage.graph),
        stage.surfaces.stack.len() > 1,
        stage.surfaces.top().establishes_sub_graph,
        stage.surfaces.top().resolve_source is Some,
        stage.surfaces.stack[stage.surfaces.stack.len() - 2].kind is Simple,
        stage.graph.len() < usize::MAX,
        stage.cmd_buffers.len() < usize::MAX,
        0 <= sub_slice < crate::tile::SUB_SLICE_COUNT,
    ensures
        ({
            let stack = stage.surfaces.stack;
            let after = popped(stage, pic_index, around);
            let buffer = CommandBufferIndex(stage.cmd_buffers.len() as usize);
            &&& after.cmd_buffers == stage.cmd_buffers.push(Seq::empty())
            &&& after.surfaces.targets[sub_slice] == seq![
                CommandTarget {
                    dirty_rect: stack[stack.len() - 2].kind->dirty_rect,
                    cmd_buffer_index: buffer,
                    tile_key: None,
                },
            ]
        }),
{
    let stack = stage.surfaces.stack;
    let top = stage.surfaces.top();
    let below = stack.drop_last();
    let kind = below.last().kind;
    let buffer = CommandBufferIndex(stage.cmd_buffers.len() as usize);
    let after = popped(stage, pic_index, around);
    let handed = handed_on(stage, pic_index, around);
    assert(below.last() == stack[stack.len() - 2]);
    assert(stack[stack.len() - 1].wf(stage.graph));
    assert(stack[stack.len() - 2].wf(stage.graph));
    law_sub_graph_finished(stage, pic_index, around);
    law_sub_graph_in_simple(
        stage.graph,
        buffer,
        kind->render_task_id,
        kind->root_task_id,
        sub_graph(top),
        around.relations,
    );
    let simple = merged_simple(
        stage.graph,
        buffer,
        kind->render_task_id,
        kind->root_task_id,
        sub_graph(top),
        around.relations,
    );
    let t = task(after.graph, simple.next);
    assert(after.surfaces.stack.last().kind == (BuilderKindView::Simple {
        render_task_id: simple.next,
        root_task_id: kind->root_task_id,
        dirty_rect: kind->dirty_rect,
    }));
}

} // verus!
