//! What stays of a task graph, and of the surfaces drawn by it, while it grows.

use vstd::prelude::*;

use crate::command_buffer::{tiles_wf, BuilderKindView, BuilderView};
use crate::render_task_graph::{
    graph_wf, has_task, is_picture, task, with_edge, with_edges_from, with_edges_to, with_picture,
    Graph, PictureTaskView, RenderTaskId, TaskKindView, TaskView,
};
use crate::tile::{same_slots, TileView, Tiles};

verus! {

/// Whether every task of `before` is one of `after` that can still serve as what
/// it was: a task that draws a picture still does, and one that composites a
/// tile still does, but for those of `retired`.
pub open spec fn keeps_tasks(before: Graph, after: Graph, retired: Set<RenderTaskId>) -> bool {
    &&& before.len() <= after.len()
    &&& forall|id: RenderTaskId|
        #![trigger task(after, id)]
        #![trigger task(before, id)]
        has_task(before, id) ==> {
            &&& is_picture(before, id) ==> is_picture(after, id)
            &&& task(before, id).kind is TileComposite && !retired.contains(id) ==> task(
                after,
                id,
            ).kind is TileComposite
        }
}

/// Whether the graph is well formed after it has grown, and has kept its tasks.
pub open spec fn grows(before: Graph, after: Graph) -> bool {
    graph_wf(after) && keeps_tasks(before, after, Set::empty())
}

/// Whether every task of `before` is one of `after` that does the same work in
/// the same place: only what it depends on may have changed.
pub open spec fn keeps_work(before: Graph, after: Graph) -> bool {
    &&& before.len() <= after.len()
    &&& forall|id: RenderTaskId|
        #![trigger task(after, id)]
        #![trigger task(before, id)]
        has_task(before, id) ==> {
            &&& task(after, id).location == task(before, id).location
            &&& task(after, id).kind == task(before, id).kind
        }
}

/// Work that is kept twice is kept.
pub proof fn lemma_work_trans(a: Graph, b: Graph, c: Graph)
    requires
        keeps_work(a, b),
        keeps_work(b, c),
    ensures
        keeps_work(a, c),
{
    assert forall|id: RenderTaskId|
        #![trigger task(c, id)]
        #![trigger task(a, id)]
        has_task(a, id) implies task(c, id).location == task(a, id).location && task(c, id).kind
        == task(a, id).kind by {
        let t = task(b, id);
    }
}

/// A graph that has not changed has kept its tasks.
pub proof fn lemma_keeps_refl(graph: Graph)
    ensures
        keeps_tasks(graph, graph, Set::empty()),
{
}

/// Tasks that are kept twice are kept.
pub proof fn lemma_keeps_trans(
    a: Graph,
    b: Graph,
    c: Graph,
    retired: Set<RenderTaskId>,
    later: Set<RenderTaskId>,
)
    requires
        keeps_tasks(a, b, retired),
        keeps_tasks(b, c, later),
    ensures
        keeps_tasks(a, c, retired.union(later)),
{
    assert forall|id: RenderTaskId|
        #![trigger task(c, id)]
        #![trigger task(a, id)]
        has_task(a, id) implies {
        &&& is_picture(a, id) ==> is_picture(c, id)
        &&& task(a, id).kind is TileComposite && !retired.union(later).contains(id) ==> task(
            c,
            id,
        ).kind is TileComposite
    } by {
        let t = task(b, id);
    }
}

/// A graph that grows twice grows.
pub proof fn lemma_grows_trans(a: Graph, b: Graph, c: Graph)
    requires
        grows(a, b),
        grows(b, c),
    ensures
        grows(a, c),
{
    lemma_keeps_trans(a, b, c, Set::empty(), Set::empty());
    assert(Set::<RenderTaskId>::empty().union(Set::empty()) =~= Set::<RenderTaskId>::empty());
}

/// A task may be changed in what it copies and clears, and in what it needs, as
/// long as its place and the kind of thing it does stay.
pub proof fn lemma_update_grows(graph: Graph, id: RenderTaskId, changed: TaskView)
    requires
        graph_wf(graph),
        has_task(graph, id),
        changed.location == task(graph, id).location,
        changed.sizable(),
        task(graph, id).kind is Picture <==> changed.kind is Picture,
        task(graph, id).kind is TileComposite <==> changed.kind is TileComposite,
        forall|k: int|
            0 <= k < changed.children.len() ==> has_task(graph, #[trigger] changed.children[k]),
    ensures
        grows(graph, graph.update(id.index as int, changed)),
        graph.update(id.index as int, changed).len() == graph.len(),
{
    let after = graph.update(id.index as int, changed);
    assert forall|i: int, k: int|
        #![trigger after[i].children[k]]
        0 <= i < after.len() && 0 <= k < after[i].children.len() implies has_task(
        after,
        after[i].children[k],
    ) by {
        if i != id.index {
            assert(after[i] == graph[i]);
            assert(has_task(graph, graph[i].children[k]));
        }
    }
    assert forall|i: int| 0 <= i < after.len() implies (#[trigger] after[i]).sizable() by {
        if i != id.index {
            assert(after[i] == graph[i]);
        }
    }
}

/// A dependency may be added.
pub proof fn lemma_edge_grows(graph: Graph, parent: RenderTaskId, child: RenderTaskId)
    requires
        graph_wf(graph),
        has_task(graph, parent),
        has_task(graph, child),
    ensures
        grows(graph, with_edge(graph, parent, child)),
        with_edge(graph, parent, child).len() == graph.len(),
{
    let changed = TaskView {
        children: task(graph, parent).children.push(child),
        ..task(graph, parent)
    };
    assert(graph[parent.index as int].sizable());
    assert forall|k: int| 0 <= k < changed.children.len() implies has_task(
        graph,
        #[trigger] changed.children[k],
    ) by {
        if k < changed.children.len() - 1 {
            assert(changed.children[k] == graph[parent.index as int].children[k]);
        }
    }
    lemma_update_grows(graph, parent, changed);
}

/// The dependencies of a task may be extended.
pub proof fn lemma_edges_to_grows(
    graph: Graph,
    parent: RenderTaskId,
    children: Seq<RenderTaskId>,
)
    requires
        graph_wf(graph),
        has_task(graph, parent),
        forall|k: int| 0 <= k < children.len() ==> has_task(graph, #[trigger] children[k]),
    ensures
        grows(graph, with_edges_to(graph, parent, children)),
        with_edges_to(graph, parent, children).len() == graph.len(),
{
    let changed = TaskView {
        children: task(graph, parent).children + children,
        ..task(graph, parent)
    };
    let n = task(graph, parent).children.len();
    assert(graph[parent.index as int].sizable());
    assert forall|k: int| 0 <= k < changed.children.len() implies has_task(
        graph,
        #[trigger] changed.children[k],
    ) by {
        if k < n {
            assert(changed.children[k] == graph[parent.index as int].children[k]);
        } else {
            assert(changed.children[k] == children[k - n]);
        }
    }
    lemma_update_grows(graph, parent, changed);
}

/// Every task of a list may be made to depend on another.
pub proof fn lemma_edges_from_grows(
    graph: Graph,
    parents: Seq<RenderTaskId>,
    child: RenderTaskId,
)
    requires
        graph_wf(graph),
        has_task(graph, child),
        forall|k: int| 0 <= k < parents.len() ==> has_task(graph, #[trigger] parents[k]),
    ensures
        grows(graph, with_edges_from(graph, parents, child)),
        with_edges_from(graph, parents, child).len() == graph.len(),
    decreases parents.len(),
{
    if parents.len() == 0 {
        lemma_keeps_refl(graph);
    } else {
        let before = with_edges_from(graph, parents.drop_last(), child);
        assert forall|k: int| 0 <= k < parents.drop_last().len() implies has_task(
            graph,
            #[trigger] parents.drop_last()[k],
        ) by {
            assert(parents.drop_last()[k] == parents[k]);
        }
        lemma_edges_from_grows(graph, parents.drop_last(), child);
        assert(parents[parents.len() - 1] == parents.last());
        lemma_edge_grows(before, parents.last(), child);
        lemma_grows_trans(graph, before, with_edge(before, parents.last(), child));
    }
}

/// What a picture task draws may be changed.
pub proof fn lemma_picture_grows(graph: Graph, id: RenderTaskId, picture: PictureTaskView)
    requires
        graph_wf(graph),
        is_picture(graph, id),
    ensures
        grows(graph, with_picture(graph, id, picture)),
        with_picture(graph, id, picture).len() == graph.len(),
{
    let changed = TaskView { kind: TaskKindView::Picture(picture), ..task(graph, id) };
    assert(graph[id.index as int].sizable());
    assert forall|k: int| 0 <= k < changed.children.len() implies has_task(
        graph,
        #[trigger] changed.children[k],
    ) by {
        assert(changed.children[k] == graph[id.index as int].children[k]);
    }
    lemma_update_grows(graph, id, changed);
}

/// A task may be added.
pub proof fn lemma_push_grows(graph: Graph, added: TaskView)
    requires
        graph_wf(graph),
        added.sizable(),
        forall|k: int|
            0 <= k < added.children.len() ==> has_task(graph, #[trigger] added.children[k]),
    ensures
        grows(graph, graph.push(added)),
{
    let after = graph.push(added);
    assert forall|i: int, k: int|
        #![trigger after[i].children[k]]
        0 <= i < after.len() && 0 <= k < after[i].children.len() implies has_task(
        after,
        after[i].children[k],
    ) by {
        if i < graph.len() {
            assert(after[i] == graph[i]);
            assert(has_task(graph, graph[i].children[k]));
        }
    }
    assert forall|i: int| 0 <= i < after.len() implies (#[trigger] after[i]).sizable() by {
        if i < graph.len() {
            assert(after[i] == graph[i]);
        }
    }
    assert forall|id: RenderTaskId|
        #![trigger task(after, id)]
        #![trigger task(graph, id)]
        has_task(graph, id) implies task(after, id) == task(graph, id) by {}
}

/// A tile stays well formed while the graph grows.
pub proof fn lemma_tile_kept(tile: TileView, before: Graph, after: Graph)
    requires
        tile.wf(before),
        keeps_tasks(before, after, Set::empty()),
    ensures
        tile.wf(after),
{
    let a = task(before, tile.current_task_id);
    let b = task(before, tile.deferred_task_id->0);
    let c = task(before, tile.composite_task_id->0);
}

/// Tiles stay well formed when each is replaced by a well-formed one with the
/// same key and the same compositing task.
pub proof fn lemma_slots_wf(before: Tiles, after: Tiles, old_graph: Graph, graph: Graph)
    requires
        tiles_wf(before, old_graph),
        same_slots(before, after),
        forall|i: int| 0 <= i < after.len() ==> (#[trigger] after[i]).1.wf(graph),
    ensures
        tiles_wf(after, graph),
{
    assert forall|i: int| 0 <= i < after.len() implies (
    #[trigger] after[i]).0.sub_slice_index.in_range() by {
        assert(before[i].0.sub_slice_index.in_range());
    }
    assert forall|i: int, j: int|
        #![trigger after[i], after[j]]
        0 <= i < j < after.len() implies after[i].0 != after[j].0 by {
        assert(before[i].0 != before[j].0);
    }
    assert forall|i: int, j: int|
        #![trigger after[i], after[j]]
        0 <= i < j < after.len()
            && after[i].1.composite_task_id is Some implies after[i].1.composite_task_id
        != after[j].1.composite_task_id by {
        assert(before[i].1.composite_task_id != before[j].1.composite_task_id);
    }
}

/// Whether none of the tiles is composited by a task of the set.
pub open spec fn composites_avoid(tiles: Tiles, retired: Set<RenderTaskId>) -> bool {
    forall|i: int|
        0 <= i < tiles.len() && (#[trigger] tiles[i]).1.composite_task_id is Some
            ==> !retired.contains(tiles[i].1.composite_task_id->0)
}

/// A surface stays well formed while the graph keeps its tasks.
pub proof fn lemma_builder_kept(
    builder: BuilderView,
    before: Graph,
    after: Graph,
    retired: Set<RenderTaskId>,
)
    requires
        builder.wf(before),
        keeps_tasks(before, after, retired),
        composites_avoid(builder.kind.tiles(), retired),
    ensures
        builder.wf(after),
{
    match builder.kind {
        BuilderKindView::Tiled { tiles } => {
            assert forall|i: int| 0 <= i < tiles.len() implies (#[trigger] tiles[i]).1.wf(after) by {
                let tile = tiles[i].1;
                assert(tile.wf(before));
                assert(builder.kind.tiles()[i] == tiles[i]);
                let a = task(before, tile.current_task_id);
                let b = task(before, tile.deferred_task_id->0);
                let c = task(before, tile.composite_task_id->0);
            }
        },
        BuilderKindView::Simple { render_task_id, .. } => {
            let a = task(before, render_task_id);
        },
        BuilderKindView::Invalid => {},
    }
    if builder.resolve_source is Some {
        let a = task(before, (builder.resolve_source->0).0);
    }
}

} // verus!
