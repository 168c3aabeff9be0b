//! Finishing a surface: handing what has been drawn on it to the tasks that use
//! it.

use vstd::prelude::*;

use crate::command_buffer::{tiles_wf, BuilderKindView, CommandBufferBuilderKind};
use crate::growth::{
    grows, keeps_tasks, lemma_edges_to_grows, lemma_grows_trans, lemma_keeps_refl,
    lemma_keeps_trans,
};
use crate::render_task_graph::{
    graph_wf, has_task, is_picture, task, with_edge, with_edges_from, with_edges_to, Graph,
    RenderTaskGraphBuilder, RenderTaskId, RenderTaskKind, TaskKindView, TaskView, TileCompositeTask,
};
use crate::tile::{SurfaceTileDescriptor, TileKey, TileMap, TileView, Tiles};

verus! {

/// The tasks that commands for a surface are added to.
pub open spec fn drawing_tasks(kind: BuilderKindView) -> Seq<RenderTaskId> {
    match kind {
        BuilderKindView::Tiled { tiles } => tiles.map_values(
            |t: (TileKey, TileView)| t.1.current_task_id,
        ),
        BuilderKindView::Simple { render_task_id, .. } => seq![render_task_id],
        BuilderKindView::Invalid => Seq::empty(),
    }
}

/// The tasks that a surface is drawn by are tasks of the graph.
pub proof fn lemma_drawing_tasks(kind: BuilderKindView, graph: Graph)
    requires
        match kind {
            BuilderKindView::Tiled { tiles } => tiles_wf(tiles, graph),
            BuilderKindView::Simple { render_task_id, .. } => has_task(graph, render_task_id),
            BuilderKindView::Invalid => true,
        },
    ensures
        forall|k: int|
            0 <= k < drawing_tasks(kind).len() ==> has_task(
                graph,
                #[trigger] drawing_tasks(kind)[k],
            ),
{
    if let BuilderKindView::Tiled { tiles } = kind {
        assert forall|k: int| 0 <= k < drawing_tasks(kind).len() implies has_task(
            graph,
            #[trigger] drawing_tasks(kind)[k],
        ) by {
            assert(tiles[k].1.wf(graph));
        }
    }
}

/// Makes every task of a list depend on another.
pub fn add_dependencies(
    rg_builder: &mut RenderTaskGraphBuilder,
    parents: &Vec<RenderTaskId>,
    child: RenderTaskId,
)
    requires
        forall|k: int|
            0 <= k < parents@.len() ==> has_task(old(rg_builder)@, #[trigger] parents@[k]),
    ensures
        final(rg_builder)@ == with_edges_from(old(rg_builder)@, parents@, child),
{
    let ghost graph = rg_builder@;
    let mut n: usize = 0;
    assert(parents@.take(0) =~= Seq::<RenderTaskId>::empty());
    while n < parents.len()
        invariant
            n <= parents@.len(),
            forall|k: int| 0 <= k < parents@.len() ==> has_task(graph, #[trigger] parents@[k]),
            rg_builder@.len() == graph.len(),
            rg_builder@ == with_edges_from(graph, parents@.take(n as int), child),
        decreases parents@.len() - n,
    {
        proof {
            assert(parents@.take(n + 1).drop_last() =~= parents@.take(n as int));
            assert(parents@.take(n + 1).last() == parents@[n as int]);
        }
        rg_builder.add_dependency(parents[n], child);
        n = n + 1;
    }
    assert(parents@.take(parents@.len() as int) =~= parents@);
}

/// Makes every task that commands for a surface are added to depend on `child`.
pub fn add_to_drawing_tasks(
    kind: &CommandBufferBuilderKind,
    rg_builder: &mut RenderTaskGraphBuilder,
    child: RenderTaskId,
)
    requires
        forall|k: int|
            0 <= k < drawing_tasks(kind@).len() ==> has_task(
                old(rg_builder)@,
                #[trigger] drawing_tasks(kind@)[k],
            ),
    ensures
        final(rg_builder)@ == with_edges_from(old(rg_builder)@, drawing_tasks(kind@), child),
{
    let mut parents: Vec<RenderTaskId> = Vec::new();
    match kind {
        CommandBufferBuilderKind::Tiled { tiles } => {
            let mut i: usize = 0;
            while i < tiles.len()
                invariant
                    i <= tiles@.len(),
                    parents@.len() == i,
                    forall|k: int|
                        0 <= k < i ==> #[trigger] parents@[k] == tiles@[k].1.current_task_id,
                decreases tiles@.len() - i,
            {
                parents.push(tiles.tile_at(i).current_task_id);
                i = i + 1;
            }
        },
        CommandBufferBuilderKind::Simple { render_task_id, .. } => {
            parents.push(*render_task_id);
        },
        CommandBufferBuilderKind::Invalid => {},
    }
    assert(parents@ =~= drawing_tasks(kind@));
    add_dependencies(rg_builder, &parents, child);
}

/// The graph after what is drawn on a tile has been handed to the task that
/// composites it, if there is one: the task that holds the tile draws straight
/// into its slot where it can, and is copied there otherwise.
pub open spec fn settled_tile(graph: Graph, tile: TileView) -> Graph {
    match tile.composite_task_id {
        None => graph,
        Some(composite) => if tile.promotable(graph) {
            tile.promoted(graph)
        } else {
            let ordered = with_edge(graph, composite, tile.final_task());
            ordered.update(
                composite.index as int,
                TaskView {
                    kind: TaskKindView::TileComposite(
                        TileCompositeTask {
                            task_id: Some(tile.final_task()),
                            ..task(graph, composite).kind->TileComposite_0
                        },
                    ),
                    ..task(ordered, composite)
                },
            )
        },
    }
}

/// The graph after what is drawn on every tile, in turn, has been handed to the
/// task that composites it.
pub open spec fn settled(graph: Graph, tiles: Tiles) -> Graph
    decreases tiles.len(),
{
    if tiles.len() == 0 {
        graph
    } else {
        settled_tile(settled(graph, tiles.drop_last()), tiles.last().1)
    }
}

/// The tasks that composite the tiles.
pub open spec fn composite_tasks(tiles: Tiles) -> Set<RenderTaskId> {
    Set::new(
        |id: RenderTaskId|
            exists|i: int|
                0 <= i < tiles.len() && (#[trigger] tiles[i]).1.composite_task_id == Some(id),
    )
}

/// Handing a tile to the task that composites it keeps every task but that one.
proof fn lemma_settled_tile_kept(graph: Graph, tile: TileView)
    requires
        graph_wf(graph),
        tile.wf(graph),
    ensures
        graph_wf(settled_tile(graph, tile)),
        settled_tile(graph, tile).len() == graph.len(),
        keeps_tasks(
            graph,
            settled_tile(graph, tile),
            set![tile.composite_task_id->0],
        ),
        tile.composite_task_id is None ==> settled_tile(graph, tile) == graph,
{
    let after = settled_tile(graph, tile);
    if let Some(composite) = tile.composite_task_id {
        let final_id = tile.final_task();
        assert(graph[composite.index as int].sizable());
        assert(graph[final_id.index as int].sizable());
        assert forall|i: int, k: int|
            #![trigger after[i].children[k]]
            0 <= i < after.len() && 0 <= k < after[i].children.len() implies has_task(
            after,
            after[i].children[k],
        ) by {
            if k < graph[i].children.len() {
                assert(after[i].children[k] == graph[i].children[k]);
                assert(has_task(graph, graph[i].children[k]));
            } else {
                assert(after[i].children[k] == final_id);
            }
        }
        assert forall|i: int| 0 <= i < after.len() implies (#[trigger] after[i]).sizable() by {
            assert(graph[i].sizable());
        }
        assert forall|id: RenderTaskId|
            #![trigger task(after, id)]
            #![trigger task(graph, id)]
            has_task(graph, id) implies {
            &&& is_picture(graph, id) ==> is_picture(after, id)
            &&& task(graph, id).kind is TileComposite && !set![composite].contains(id) ==> task(
                after,
                id,
            ).kind is TileComposite
        } by {
            if id != composite && id != final_id {
                assert(id.index != composite.index && id.index != final_id.index);
                assert(task(after, id) == task(graph, id));
            }
        }
    }
}

/// Hands what is drawn on a tile to the task that composites it.
fn settle_tile(tile: &SurfaceTileDescriptor, rg_builder: &mut RenderTaskGraphBuilder)
    requires
        graph_wf(old(rg_builder)@),
        tile@.wf(old(rg_builder)@),
    ensures
        final(rg_builder)@ == settled_tile(old(rg_builder)@, tile@),
{
    let ghost graph = rg_builder@;
    if let Some(composite_task_id) = tile.composite_task_id {
        if tile.promote_final_task_to_picture_cache(rg_builder) {
            return ;
        }
        let final_task_id = tile.final_task_id();
        rg_builder.add_dependency(composite_task_id, final_task_id);
        let composite_task = rg_builder.get_task_mut(composite_task_id);
        match &mut composite_task.kind {
            RenderTaskKind::TileComposite(info) => {
                info.task_id = Some(final_task_id);
            },
            _ => {
                assert(false);
            },
        }
        assert(rg_builder@ =~= settled_tile(graph, tile@));
    }
}

/// Hands what is drawn on every tile to the task that composites it.
pub fn settle_tiles(tiles: &TileMap, rg_builder: &mut RenderTaskGraphBuilder)
    requires
        graph_wf(old(rg_builder)@),
        tiles_wf(tiles@, old(rg_builder)@),
    ensures
        final(rg_builder)@ == settled(old(rg_builder)@, tiles@),
        graph_wf(final(rg_builder)@),
        final(rg_builder)@.len() == old(rg_builder)@.len(),
        keeps_tasks(old(rg_builder)@, final(rg_builder)@, composite_tasks(tiles@)),
{
    let ghost graph = rg_builder@;
    let mut n: usize = 0;
    proof {
        lemma_keeps_refl(graph);
        assert(tiles@.take(0) =~= Seq::<(TileKey, TileView)>::empty());
        assert(composite_tasks(tiles@.take(0)) =~= Set::<RenderTaskId>::empty());
    }
    while n < tiles.len()
        invariant
            n <= tiles@.len(),
            tiles_wf(tiles@, graph),
            graph_wf(rg_builder@),
            rg_builder@.len() == graph.len(),
            rg_builder@ == settled(graph, tiles@.take(n as int)),
            keeps_tasks(graph, rg_builder@, composite_tasks(tiles@.take(n as int))),
        decreases tiles@.len() - n,
    {
        let tile = tiles.tile_at(n);
        let ghost before = rg_builder@;
        proof {
            let earlier = tiles@.take(n as int);
            assert(tiles@.take(n + 1).drop_last() =~= earlier);
            assert(tiles@.take(n + 1).last() == tiles@[n as int]);
            assert(tile@.wf(graph));
            assert(tile@.composite_task_id matches Some(id) ==> !composite_tasks(earlier).contains(
                id,
            )) by {
                if let Some(id) = tile@.composite_task_id {
                    if composite_tasks(earlier).contains(id) {
                        let i = choose|i: int|
                            0 <= i < earlier.len() && (#[trigger] earlier[i]).1.composite_task_id
                                == Some(id);
                        assert(tiles@[i] == earlier[i]);
                        assert(tiles@[i].1.composite_task_id
                            != tiles@[n as int].1.composite_task_id);
                    }
                }
            }
            let a = task(graph, tile@.current_task_id);
            let b = task(graph, tile@.deferred_task_id->0);
            let c = task(graph, tile@.composite_task_id->0);
            assert(tile@.wf(before));
            lemma_settled_tile_kept(before, tile@);
        }
        settle_tile(tile, rg_builder);
        proof {
            let earlier = composite_tasks(tiles@.take(n as int));
            let upto = composite_tasks(tiles@.take(n + 1));
            assert forall|id: RenderTaskId| earlier.contains(id) implies upto.contains(id) by {
                let i = choose|i: int|
                    0 <= i < tiles@.take(n as int).len() && (#[trigger] tiles@.take(
                        n as int,
                    )[i]).1.composite_task_id == Some(id);
                assert(tiles@.take(n + 1)[i].1.composite_task_id == Some(id));
            }
            if let Some(id) = tile@.composite_task_id {
                assert(tiles@.take(n + 1)[n as int].1.composite_task_id == Some(id));
                assert(upto.contains(id));
                lemma_keeps_trans(graph, before, rg_builder@, earlier, set![id]);
            }
            assert(keeps_tasks(graph, rg_builder@, upto));
        }
        n = n + 1;
    }
    assert(tiles@.take(tiles@.len() as int) =~= tiles@);
}

/// The graph in which the task that holds every tile needs `children` too.
pub open spec fn tiles_with_edges_to(
    graph: Graph,
    tiles: Tiles,
    children: Seq<RenderTaskId>,
) -> Graph
    decreases tiles.len(),
{
    if tiles.len() == 0 {
        graph
    } else {
        with_edges_to(
            tiles_with_edges_to(graph, tiles.drop_last(), children),
            tiles.last().1.final_task(),
            children,
        )
    }
}

/// The graph in which the tasks that hold a surface need `children` too.
pub open spec fn with_extras(
    graph: Graph,
    kind: BuilderKindView,
    children: Seq<RenderTaskId>,
) -> Graph {
    match kind {
        BuilderKindView::Tiled { tiles } => tiles_with_edges_to(graph, tiles, children),
        BuilderKindView::Simple { render_task_id, .. } => with_edges_to(
            graph,
            render_task_id,
            children,
        ),
        BuilderKindView::Invalid => graph,
    }
}

/// Whether the tasks that hold a surface are tasks of the graph.
pub open spec fn is_held(graph: Graph, kind: BuilderKindView) -> bool {
    match kind {
        BuilderKindView::Tiled { tiles } => forall|i: int|
            0 <= i < tiles.len() ==> has_task(graph, (#[trigger] tiles[i]).1.final_task()),
        BuilderKindView::Simple { render_task_id, .. } => has_task(graph, render_task_id),
        BuilderKindView::Invalid => true,
    }
}

/// Makes a task depend on every task of a list.
fn add_all_dependencies(
    rg_builder: &mut RenderTaskGraphBuilder,
    parent: RenderTaskId,
    children: &Vec<RenderTaskId>,
)
    requires
        has_task(old(rg_builder)@, parent),
    ensures
        final(rg_builder)@ == with_edges_to(old(rg_builder)@, parent, children@),
{
    let ghost graph = rg_builder@;
    let mut n: usize = 0;
    proof {
        assert(children@.take(0) =~= Seq::<RenderTaskId>::empty());
        assert(with_edges_to(graph, parent, children@.take(0)) =~= graph);
    }
    while n < children.len()
        invariant
            n <= children@.len(),
            has_task(graph, parent),
            rg_builder@ == with_edges_to(graph, parent, children@.take(n as int)),
        decreases children@.len() - n,
    {
        rg_builder.add_dependency(parent, children[n]);
        proof {
            assert(children@.take(n + 1) =~= children@.take(n as int).push(children@[n as int]));
            assert((task(graph, parent).children + children@.take(n as int)).push(
                children@[n as int],
            ) =~= task(graph, parent).children + children@.take(n + 1));
            assert(rg_builder@ =~= with_edges_to(graph, parent, children@.take(n + 1)));
        }
        n = n + 1;
    }
    assert(children@.take(children@.len() as int) =~= children@);
}

/// Makes the tasks that hold a surface depend on every task of a list.
pub fn add_extras(
    kind: &CommandBufferBuilderKind,
    rg_builder: &mut RenderTaskGraphBuilder,
    children: &Vec<RenderTaskId>,
)
    requires
        graph_wf(old(rg_builder)@),
        is_held(old(rg_builder)@, kind@),
        forall|k: int|
            0 <= k < children@.len() ==> has_task(old(rg_builder)@, #[trigger] children@[k]),
    ensures
        final(rg_builder)@ == with_extras(old(rg_builder)@, kind@, children@),
        grows(old(rg_builder)@, final(rg_builder)@),
        final(rg_builder)@.len() == old(rg_builder)@.len(),
{
    let ghost graph = rg_builder@;
    proof {
        lemma_keeps_refl(graph);
    }
    match kind {
        CommandBufferBuilderKind::Tiled { tiles } => {
            let mut n: usize = 0;
            assert(is_held(graph, BuilderKindView::Tiled { tiles: tiles@ }));
            assert(tiles@.take(0) =~= Seq::<(TileKey, TileView)>::empty());
            while n < tiles.len()
                invariant
                    n <= tiles@.len(),
                    forall|i: int|
                        0 <= i < tiles@.len() ==> has_task(
                            graph,
                            (#[trigger] tiles@[i]).1.final_task(),
                        ),
                    forall|k: int|
                        0 <= k < children@.len() ==> has_task(graph, #[trigger] children@[k]),
                    rg_builder@ == tiles_with_edges_to(graph, tiles@.take(n as int), children@),
                    grows(graph, rg_builder@),
                    rg_builder@.len() == graph.len(),
                decreases tiles@.len() - n,
            {
                let final_task_id = tiles.tile_at(n).final_task_id();
                let ghost before = rg_builder@;
                proof {
                    assert(tiles@.take(n + 1).drop_last() =~= tiles@.take(n as int));
                    assert(tiles@.take(n + 1).last() == tiles@[n as int]);
                    lemma_edges_to_grows(before, final_task_id, children@);
                }
                add_all_dependencies(rg_builder, final_task_id, children);
                proof {
                    lemma_grows_trans(graph, before, rg_builder@);
                }
                n = n + 1;
            }
            assert(tiles@.take(tiles@.len() as int) =~= tiles@);
        },
        CommandBufferBuilderKind::Simple { render_task_id, .. } => {
            proof {
                lemma_edges_to_grows(graph, *render_task_id, children@);
            }
            add_all_dependencies(rg_builder, *render_task_id, children);
        },
        CommandBufferBuilderKind::Invalid => {},
    }
}

} // verus!
