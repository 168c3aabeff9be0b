//! Merging a sub-graph into the surface below it.

use vstd::prelude::*;

use crate::backdrop::BackdropSource;
use crate::command_buffer::{
    tiles_wf, BuilderKindView, BuilderView, CommandBufferBuilder, CommandBufferBuilderKind,
    CommandBufferIndex, CommandBufferList,
};
use crate::finish::{add_dependencies, add_to_drawing_tasks, drawing_tasks, lemma_drawing_tasks};
use crate::growth::{
    grows, lemma_builder_kept, lemma_edge_grows, lemma_edges_from_grows, lemma_grows_trans,
    lemma_keeps_refl, lemma_picture_grows, lemma_tile_kept,
};
use crate::render_task_graph::{
    graph_wf, has_task, is_picture, task, with_edge, with_edges_from, Graph, PictureTaskView,
    RenderTaskGraphBuilder, RenderTaskId, ResolveOp, ResolveOpView, ResolveSource,
};
use crate::resolve::{
    dest_to_src_raster, initialize_tasks, initialized, projections_cover, projections_fit,
    rasters_related, resolve_dest_to_src_raster, set_resolve_op, sources_wf, starts_clear,
    with_resolve, BackdropProjections, ProjectionView, Relations,
};
use crate::spatial::{ScaleOffset, SpatialTree};
use crate::splice::{
    read_tasks, readable, splice_all, splice_simple, splice_tiles, spliced_simple, SimpleSplice,
    SubGraph,
};
use crate::tile::{same_slots, TileKey, TileMap, TileView, Tiles};

verus! {

/// The first tile whose mapping to the device is known.
pub open spec fn first_mapped(tiles: Tiles) -> Option<TileView>
    decreases tiles.len(),
{
    if tiles.len() == 0 {
        None
    } else {
        match first_mapped(tiles.drop_last()) {
            Some(tile) => Some(tile),
            None => if tiles.last().1.pic_to_device is Some {
                Some(tiles.last().1)
            } else {
                None
            },
        }
    }
}

/// What is known of the world outside the graph when surfaces are merged.
pub struct Surroundings {
    /// What the slices show that a backdrop filter may read.
    pub sources: Seq<BackdropSource>,
    /// How the spaces relate.
    pub relations: Relations,
    /// Where targets lie among the sources.
    pub projections: Map<RenderTaskId, ProjectionView>,
}

/// The graph after the tasks that a sub-graph reads of a tiled surface have been
/// made to start from what the slices behind it show.
pub open spec fn readied(
    graph: Graph,
    tiles: Tiles,
    reads: Seq<RenderTaskId>,
    around: Surroundings,
) -> Graph {
    match first_mapped(tiles) {
        Some(tile) => initialized(
            graph,
            reads,
            tile.slice_index,
            around.sources,
            around.projections,
        ),
        None => graph,
    }
}

/// A surface, and the frame, after a sub-graph has been merged into it.
#[verifier::ext_equal]
pub struct Merged {
    /// The tasks that draw the surface.
    pub kind: BuilderKindView,
    /// The tasks of the frame.
    pub graph: Graph,
    /// The command buffers of the frame.
    pub cmd_buffers: Seq<Seq<u32>>,
}

/// The sub-graph that a surface is the root of.
pub open spec fn sub_graph(child: BuilderView) -> SubGraph {
    SubGraph {
        resolve_task: (child.resolve_source->0).0,
        resolve_rect: (child.resolve_source->0).1,
        output: child.kind.output_task(),
    }
}

/// Merging a sub-graph into tiles: it is spliced into each of them; the tasks
/// that it reads start from what the slices behind show, and are copied to the
/// resolve target; and the tasks that draw its output need it.
pub open spec fn merged_tiles(
    graph: Graph,
    cmd_buffers: Seq<Seq<u32>>,
    tiles: Tiles,
    sub: SubGraph,
    around: Surroundings,
) -> Merged {
    let spliced = splice_all(graph, cmd_buffers, tiles, sub);
    let resolved = with_resolve(
        readied(spliced.graph, tiles, spliced.sources, around),
        sub.resolve_task,
        spliced.sources,
        Seq::empty(),
        dest_to_src_raster(spliced.graph, around.relations, sub.resolve_task, spliced.sources),
    );
    Merged {
        kind: BuilderKindView::Tiled { tiles: spliced.tiles },
        graph: with_edges_from(resolved, spliced.affected, sub.output),
        cmd_buffers: spliced.cmd_buffers,
    }
}

/// Merging a sub-graph into a simple surface: it is spliced in; the task that it
/// reads is copied to the resolve target; and the task that takes over from that
/// one needs the output.
pub open spec fn merged_simple(
    graph: Graph,
    commands: CommandBufferIndex,
    render_task: RenderTaskId,
    root_task: Option<RenderTaskId>,
    sub: SubGraph,
    relations: Relations,
) -> SimpleSplice {
    let spliced = spliced_simple(graph, commands, render_task, root_task, sub);
    let resolved = with_resolve(
        spliced.graph,
        sub.resolve_task,
        seq![render_task],
        Seq::empty(),
        dest_to_src_raster(spliced.graph, relations, sub.resolve_task, seq![render_task]),
    );
    SimpleSplice { graph: with_edge(resolved, spliced.next, sub.output), next: spliced.next }
}

/// Merging a sub-graph into the surface below it. One that reads nothing back is
/// just needed by every task of the surface.
pub open spec fn merged(
    graph: Graph,
    cmd_buffers: Seq<Seq<u32>>,
    kind: BuilderKindView,
    child: BuilderView,
    around: Surroundings,
) -> Merged {
    if child.resolve_source is None {
        Merged {
            kind,
            graph: with_edges_from(graph, drawing_tasks(kind), child.kind.output_task()),
            cmd_buffers,
        }
    } else {
        match kind {
            BuilderKindView::Tiled { tiles } => merged_tiles(
                graph,
                cmd_buffers,
                tiles,
                sub_graph(child),
                around,
            ),
            BuilderKindView::Simple { render_task_id, root_task_id, dirty_rect } => {
                let simple = merged_simple(
                    graph,
                    CommandBufferIndex(cmd_buffers.len() as usize),
                    render_task_id,
                    root_task_id,
                    sub_graph(child),
                    around.relations,
                );
                Merged {
                    kind: BuilderKindView::Simple {
                        render_task_id: simple.next,
                        root_task_id,
                        dirty_rect,
                    },
                    graph: simple.graph,
                    cmd_buffers: cmd_buffers.push(Seq::empty()),
                }
            },
            BuilderKindView::Invalid => Merged { kind, graph, cmd_buffers },
        }
    }
}

/// Whether a sub-graph can be merged into tiles: they can be read, nothing else is
/// copied to its resolve target, it is known how that relates to what it reads,
/// and where the tasks lie that have to start from what the slices behind show.
pub open spec fn tiles_mergeable(
    graph: Graph,
    cmd_buffers: Seq<Seq<u32>>,
    tiles: Tiles,
    sub: SubGraph,
    around: Surroundings,
) -> bool {
    let reads = read_tasks(graph, tiles, sub.resolve_rect);
    let spliced = splice_all(graph, cmd_buffers, tiles, sub);
    &&& readable(graph, tiles, sub.resolve_rect)
    &&& reads.len() > 0 ==> rasters_related(
        graph,
        around.relations,
        sub.resolve_task,
        reads[0],
    )
    &&& first_mapped(tiles) is Some ==> projections_cover(graph, reads, around.projections)
    &&& task(
        readied(spliced.graph, tiles, reads, around),
        sub.resolve_task,
    ).picture().resolve_op is None
}

/// Whether a sub-graph can be merged into the surface below it.
pub open spec fn mergeable(
    graph: Graph,
    cmd_buffers: Seq<Seq<u32>>,
    kind: BuilderKindView,
    child: BuilderView,
    around: Surroundings,
) -> bool {
    let sub = sub_graph(child);
    &&& !(kind is Invalid)
    &&& child.resolve_source is Some ==> match kind {
        BuilderKindView::Tiled { tiles } => tiles_mergeable(
            graph,
            cmd_buffers,
            tiles,
            sub,
            around,
        ),
        BuilderKindView::Simple { render_task_id, .. } => {
            &&& rasters_related(graph, around.relations, sub.resolve_task, render_task_id)
            &&& task(graph, sub.resolve_task).picture().resolve_op is None
        },
        BuilderKindView::Invalid => false,
    }
}

/// The slice of the first tile whose mapping to the device is known.
pub fn first_mapped_slice(tiles: &TileMap) -> (r: Option<(usize, ScaleOffset)>)
    ensures
        r == (match first_mapped(tiles@) {
            Some(tile) => Some((tile.slice_index, tile.pic_to_device->0)),
            None => None,
        }),
{
    let mut i: usize = 0;
    assert(tiles@.take(0) =~= Seq::<(TileKey, TileView)>::empty());
    while i < tiles.len()
        invariant
            i <= tiles@.len(),
            first_mapped(tiles@.take(i as int)) is None,
        decreases tiles@.len() - i,
    {
        let tile = tiles.tile_at(i);
        proof {
            assert(tiles@.take(i + 1).drop_last() =~= tiles@.take(i as int));
            assert(tiles@.take(i + 1).last() == tiles@[i as int]);
        }
        if let Some(pic_to_device) = tile.pic_to_device {
            proof {
                lemma_first_mapped(tiles@, i + 1);
            }
            return Some((tile.slice_index, pic_to_device));
        }
        i = i + 1;
    }
    assert(tiles@.take(tiles@.len() as int) =~= tiles@);
    None
}

/// The first tile whose mapping is known stays the first when tiles follow.
proof fn lemma_first_mapped(tiles: Tiles, n: int)
    requires
        0 <= n <= tiles.len(),
        first_mapped(tiles.take(n)) is Some,
    ensures
        first_mapped(tiles) == first_mapped(tiles.take(n)),
    decreases tiles.len(),
{
    if n == tiles.len() {
        assert(tiles.take(n) =~= tiles);
    } else {
        assert(tiles.drop_last().take(n) =~= tiles.take(n));
        lemma_first_mapped(tiles.drop_last(), n);
    }
}

/// A copy to the resolve target may be set up.
proof fn lemma_resolve_grows(
    graph: Graph,
    dest: RenderTaskId,
    src_task_ids: Seq<RenderTaskId>,
    sources: Seq<ResolveSource>,
    raster: ScaleOffset,
)
    requires
        graph_wf(graph),
        is_picture(graph, dest),
    ensures
        grows(graph, with_resolve(graph, dest, src_task_ids, sources, raster)),
        with_resolve(graph, dest, src_task_ids, sources, raster).len() == graph.len(),
{
    lemma_picture_grows(
        graph,
        dest,
        PictureTaskView {
            resolve_op: Some(
                ResolveOpView {
                    src_task_ids,
                    sources,
                    dest_task_id: dest,
                    dest_to_src_raster: raster,
                },
            ),
            ..task(graph, dest).picture()
        },
    );
}

/// Merges a sub-graph into tiles.
fn merge_into_tiles(
    tiles: &mut TileMap,
    rg_builder: &mut RenderTaskGraphBuilder,
    cmd_buffers: &mut CommandBufferList,
    sub: &SubGraph,
    sources: &Vec<BackdropSource>,
    spatial_tree: &SpatialTree,
    projections: &BackdropProjections,
)
    requires
        graph_wf(old(rg_builder)@),
        tiles_wf(old(tiles)@, old(rg_builder)@),
        is_picture(old(rg_builder)@, sub.resolve_task),
        has_task(old(rg_builder)@, sub.output),
        sources_wf(sources@, old(rg_builder)@),
        projections_fit(projections@, sources@.len()),
        tiles_mergeable(
            old(rg_builder)@,
            old(cmd_buffers)@,
            old(tiles)@,
            *sub,
            (Surroundings {
                sources: sources@,
                relations: spatial_tree@,
                projections: projections@,
            }),
        ),
    ensures
        merged_tiles(
            old(rg_builder)@,
            old(cmd_buffers)@,
            old(tiles)@,
            *sub,
            (Surroundings {
                sources: sources@,
                relations: spatial_tree@,
                projections: projections@,
            }),
        ) == (Merged {
            kind: BuilderKindView::Tiled { tiles: final(tiles)@ },
            graph: final(rg_builder)@,
            cmd_buffers: final(cmd_buffers)@,
        }),
        grows(old(rg_builder)@, final(rg_builder)@),
        tiles_wf(final(tiles)@, final(rg_builder)@),
        same_slots(old(tiles)@, final(tiles)@),
{
    let ghost graph = rg_builder@;
    let ghost tiles0 = tiles@;
    let cross_slice_context = first_mapped_slice(tiles);
    let (src_task_ids, affected_task_ids) = splice_tiles(tiles, rg_builder, cmd_buffers, sub);
    let ghost spliced = rg_builder@;
    let ghost tiles1 = tiles@;
    proof {
        let d = task(spliced, sub.resolve_task);
        if src_task_ids@.len() > 0 {
            let t = task(spliced, src_task_ids@[0]);
            assert(has_task(graph, src_task_ids@[0]));
        }
    }
    // The resolve target may be rasterized in another space than the surface
    // that it reads back from.
    let raster = resolve_dest_to_src_raster(
        rg_builder,
        spatial_tree,
        sub.resolve_task,
        &src_task_ids,
    );
    if let Some((slice_index, _)) = cross_slice_context {
        proof {
            assert(sources_wf(sources@, spliced));
            assert forall|k: int| 0 <= k < src_task_ids@.len() implies has_task(
                spliced,
                #[trigger] src_task_ids@[k],
            ) by {
                assert(has_task(graph, src_task_ids@[k]));
            }
            assert forall|k: int|
                0 <= k < src_task_ids@.len() && starts_clear(
                    spliced,
                    #[trigger] src_task_ids@[k],
                ) implies projections@.dom().contains(src_task_ids@[k]) by {
                let t = task(spliced, src_task_ids@[k]);
                assert(has_task(graph, src_task_ids@[k]));
                assert(starts_clear(graph, src_task_ids@[k]));
            }
        }
        initialize_tasks(rg_builder, &src_task_ids, slice_index, sources, projections);
        proof {
            lemma_grows_trans(graph, spliced, rg_builder@);
        }
    }
    let ghost ready = rg_builder@;
    proof {
        let d = task(ready, sub.resolve_task);
        assert(is_picture(ready, sub.resolve_task));
        lemma_resolve_grows(ready, sub.resolve_task, src_task_ids@, Seq::empty(), raster);
    }
    let op = ResolveOp {
        src_task_ids,
        sources: Vec::new(),
        dest_task_id: sub.resolve_task,
        dest_to_src_raster: raster,
    };
    assert(op.sources@ =~= Seq::<ResolveSource>::empty());
    set_resolve_op(rg_builder, sub.resolve_task, op);
    let ghost resolved = rg_builder@;
    proof {
        lemma_grows_trans(graph, ready, resolved);
        lemma_edges_from_grows(resolved, affected_task_ids@, sub.output);
        lemma_grows_trans(
            graph,
            resolved,
            with_edges_from(resolved, affected_task_ids@, sub.output),
        );
    }
    add_dependencies(rg_builder, &affected_task_ids, sub.output);
    proof {
        let after = rg_builder@;
        lemma_keeps_refl(spliced);
        if cross_slice_context is None {
            assert(ready == spliced);
        }
        lemma_grows_trans(spliced, ready, resolved);
        lemma_grows_trans(spliced, resolved, after);
        assert forall|i: int| 0 <= i < tiles1.len() implies (#[trigger] tiles1[i]).1.wf(after)
            && tiles1[i].0.sub_slice_index.in_range() by {
            lemma_tile_kept(tiles1[i].1, spliced, after);
        }
    }
}

/// Merges a sub-graph into a simple surface. Gives the task that commands are
/// added to now.
fn merge_into_simple(
    parent_task_id: RenderTaskId,
    parent_root_task_id: Option<RenderTaskId>,
    rg_builder: &mut RenderTaskGraphBuilder,
    cmd_buffers: &mut CommandBufferList,
    sub: &SubGraph,
    spatial_tree: &SpatialTree,
) -> (next: RenderTaskId)
    requires
        graph_wf(old(rg_builder)@),
        is_picture(old(rg_builder)@, parent_task_id),
        parent_root_task_id matches Some(root) ==> has_task(old(rg_builder)@, root),
        is_picture(old(rg_builder)@, sub.resolve_task),
        has_task(old(rg_builder)@, sub.output),
        rasters_related(old(rg_builder)@, spatial_tree@, sub.resolve_task, parent_task_id),
        task(old(rg_builder)@, sub.resolve_task).picture().resolve_op is None,
    ensures
        merged_simple(
            old(rg_builder)@,
            CommandBufferIndex(old(cmd_buffers)@.len() as usize),
            parent_task_id,
            parent_root_task_id,
            *sub,
            spatial_tree@,
        ) == (SimpleSplice { graph: final(rg_builder)@, next }),
        final(cmd_buffers)@ == old(cmd_buffers)@.push(Seq::empty()),
        grows(old(rg_builder)@, final(rg_builder)@),
        is_picture(final(rg_builder)@, next),
{
    let ghost graph = rg_builder@;
    let next = splice_simple(rg_builder, cmd_buffers, parent_task_id, parent_root_task_id, sub);
    let ghost spliced = rg_builder@;
    let mut src_task_ids: Vec<RenderTaskId> = Vec::new();
    src_task_ids.push(parent_task_id);
    proof {
        assert(src_task_ids@ =~= seq![parent_task_id]);
        let d = task(spliced, sub.resolve_task);
        let t = task(spliced, parent_task_id);
    }
    let raster = resolve_dest_to_src_raster(
        rg_builder,
        spatial_tree,
        sub.resolve_task,
        &src_task_ids,
    );
    proof {
        lemma_resolve_grows(spliced, sub.resolve_task, src_task_ids@, Seq::empty(), raster);
    }
    let op = ResolveOp {
        src_task_ids,
        sources: Vec::new(),
        dest_task_id: sub.resolve_task,
        dest_to_src_raster: raster,
    };
    assert(op.sources@ =~= Seq::<ResolveSource>::empty());
    set_resolve_op(rg_builder, sub.resolve_task, op);
    let ghost resolved = rg_builder@;
    proof {
        lemma_grows_trans(graph, spliced, resolved);
        lemma_edge_grows(resolved, next, sub.output);
        lemma_grows_trans(graph, resolved, with_edge(resolved, next, sub.output));
        let t = task(resolved, next);
    }
    rg_builder.add_dependency(next, sub.output);
    proof {
        let t = task(rg_builder@, next);
    }
    next
}

/// Merges a sub-graph into the surface below it.
pub fn merge_sub_graph(
    parent: &mut CommandBufferBuilder,
    child: &CommandBufferBuilder,
    rg_builder: &mut RenderTaskGraphBuilder,
    cmd_buffers: &mut CommandBufferList,
    sources: &Vec<BackdropSource>,
    spatial_tree: &SpatialTree,
    projections: &BackdropProjections,
)
    requires
        graph_wf(old(rg_builder)@),
        old(parent)@.wf(old(rg_builder)@),
        child@.wf(old(rg_builder)@),
        child@.kind is Simple,
        sources_wf(sources@, old(rg_builder)@),
        projections_fit(projections@, sources@.len()),
        mergeable(
            old(rg_builder)@,
            old(cmd_buffers)@,
            old(parent)@.kind,
            child@,
            (Surroundings {
                sources: sources@,
                relations: spatial_tree@,
                projections: projections@,
            }),
        ),
    ensures
        merged(
            old(rg_builder)@,
            old(cmd_buffers)@,
            old(parent)@.kind,
            child@,
            (Surroundings {
                sources: sources@,
                relations: spatial_tree@,
                projections: projections@,
            }),
        ) == (Merged {
            kind: final(parent)@.kind,
            graph: final(rg_builder)@,
            cmd_buffers: final(cmd_buffers)@,
        }),
        final(parent)@ == (BuilderView { kind: final(parent)@.kind, ..old(parent)@ }),
        grows(old(rg_builder)@, final(rg_builder)@),
        final(parent)@.wf(final(rg_builder)@),
        same_slots(old(parent)@.kind.tiles(), final(parent)@.kind.tiles()),
{
    let ghost graph = rg_builder@;
    let ghost parent0 = parent@;
    let output = match &child.kind {
        CommandBufferBuilderKind::Simple { render_task_id, root_task_id, .. } => {
            match root_task_id {
                Some(id) => *id,
                None => *render_task_id,
            }
        },
        _ => {
            assert(false);
            RenderTaskId { index: 0 }
        },
    };
    assert(output == child@.kind.output_task());
    match child.resolve_source {
        None => {
            proof {
                lemma_drawing_tasks(parent0.kind, graph);
                lemma_edges_from_grows(graph, drawing_tasks(parent0.kind), output);
            }
            add_to_drawing_tasks(&parent.kind, rg_builder, output);
            proof {
                lemma_builder_kept(parent0, graph, rg_builder@, Set::empty());
            }
        },
        Some((resolve_task, resolve_rect)) => {
            let sub = SubGraph { resolve_task, resolve_rect, output };
            match &mut parent.kind {
                CommandBufferBuilderKind::Tiled { tiles } => {
                    merge_into_tiles(
                        tiles,
                        rg_builder,
                        cmd_buffers,
                        &sub,
                        sources,
                        spatial_tree,
                        projections,
                    );
                },
                CommandBufferBuilderKind::Simple { render_task_id, root_task_id, .. } => {
                    let next = merge_into_simple(
                        *render_task_id,
                        *root_task_id,
                        rg_builder,
                        cmd_buffers,
                        &sub,
                        spatial_tree,
                    );
                    *render_task_id = next;
                },
                CommandBufferBuilderKind::Invalid => {
                    assert(false);
                },
            }
            proof {
                let after = rg_builder@;
                if let Some(source) = parent0.resolve_source {
                    let t = task(after, source.0);
                }
            }
        },
    }
}

} // verus!
