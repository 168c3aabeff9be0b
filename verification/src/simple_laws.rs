//! What a backdrop filter makes of a surface without tiles that it reads, and of the filters
//! that are applied to that surface in turn.

use vstd::prelude::*;

use crate::command_buffer::{BuilderKindView, CommandBufferIndex};
use crate::dependency_laws::lemma_edges_to_needs;
use crate::filter_chain::{chain_path, in_chain, is_reader, readers_ordered};
use crate::filter_laws::{goes_on_after, relates_rasters};
use crate::laws::law_readers_wait;
use crate::merge::{merged_simple, sub_graph, Surroundings};
use crate::merge_laws::{lemma_path_in_graph, needs};
use crate::render_task_graph::{
    graph_wf, has_task, is_picture, task, with_edge, with_edges_to, Graph, PictureTaskView,
    RenderTaskId, TaskKindView,
};
use crate::resolve::{dest_to_src_raster, with_resolve, Relations};
use crate::splice::{continuation, SubGraph};
use crate::surface::{handed_on, popped, PictureIndex, Stage};

verus! {

/// Whether `path` leads from one task to another, each needing the next, and none that is
/// needed being `source`.
pub open spec fn leads_to(
    graph: Graph,
    path: Seq<RenderTaskId>,
    from: RenderTaskId,
    to: RenderTaskId,
    source: RenderTaskId,
) -> bool {
    &&& path.len() > 0
    &&& path[0] == from
    &&& path[path.len() - 1] == to
    &&& forall|k: int|
        #![trigger path[k]]
        0 < k < path.len() ==> needs(graph, path[k - 1], path[k]) && path[k] != source
}

/// A task belongs to a chain where there is a way to it.
proof fn lemma_in_chain(graph: Graph, root: RenderTaskId, src: RenderTaskId, id: RenderTaskId)
    ensures
        in_chain(graph, root, src, id) <==> exists|path: Seq<RenderTaskId>| #[trigger]
            leads_to(graph, path, root, id, src),
{
    reveal(in_chain);
    if in_chain(graph, root, src, id) {
        let path = choose|path: Seq<RenderTaskId>|
            chain_path(graph, root, src, path) && #[trigger] path.last() == id;
        assert forall|k: int|
            #![trigger path[k]]
            0 < k < path.len() implies needs(graph, path[k - 1], path[k]) && path[k] != src by {
            assert(task(graph, path[k - 1]).children.contains(path[k]));
        }
        assert(leads_to(graph, path, root, id, src));
    }
    if exists|path: Seq<RenderTaskId>| #[trigger] leads_to(graph, path, root, id, src) {
        let path = choose|path: Seq<RenderTaskId>| #[trigger] leads_to(graph, path, root, id, src);
        assert forall|k: int|
            #![trigger path[k]]
            0 < k < path.len() implies path[k] != src && task(
            graph,
            path[k - 1],
        ).children.contains(path[k]) by {
            assert(needs(graph, path[k - 1], path[k]));
        }
        assert(chain_path(graph, root, src, path) && path.last() == id);
    }
}

/// A task comes to need `dep` exactly where the output of a chain is reached from it, not
/// by way of the source, and it needs the source itself. Nothing else changes.
pub proof fn law_readers_of_the_source_wait(
    graph: Graph,
    root: RenderTaskId,
    src: RenderTaskId,
    dep: RenderTaskId,
    id: RenderTaskId,
    child: RenderTaskId,
)
    requires
        has_task(graph, id),
    ensures
        ({
            let after = readers_ordered(graph, root, src, dep);
            let reads = needs(graph, id, src) && exists|path: Seq<RenderTaskId>| #[trigger]
                leads_to(graph, path, root, id, src);
            &&& after.len() == graph.len()
            &&& needs(after, id, child) <==> needs(graph, id, child) || (reads && child == dep)
            &&& task(after, id).location == task(graph, id).location
            &&& task(after, id).kind == task(graph, id).kind
            &&& !reads ==> task(after, id) == task(graph, id)
        }),
{
    let after = readers_ordered(graph, root, src, dep);
    lemma_in_chain(graph, root, src, id);
    law_readers_wait(graph, root, src, dep, id);
    assert(RenderTaskId { index: id.index as int as usize } == id);
    if needs(after, id, child) && is_reader(graph, root, src, id) {
        let all = task(after, id).children;
        let core = task(graph, id).children;
        assert(all == core.push(dep));
        let k = choose|k: int| 0 <= k < all.len() && all[k] == child;
        if k < core.len() {
            assert(core[k] == child);
        }
    }
    if needs(graph, id, child) {
        assert(task(after, id).children.contains(child));
    }
    if is_reader(graph, root, src, id) {
        assert(task(after, id).children.contains(dep));
    }
}

/// An edge adds one dependency.
proof fn lemma_edge_adds(
    graph: Graph,
    parent: RenderTaskId,
    child: RenderTaskId,
    id: RenderTaskId,
    other: RenderTaskId,
)
    requires
        has_task(graph, parent),
        has_task(graph, id),
    ensures
        with_edge(graph, parent, child).len() == graph.len(),
        needs(with_edge(graph, parent, child), id, other) <==> needs(graph, id, other) || (id
            == parent && other == child),
        task(with_edge(graph, parent, child), id).location == task(graph, id).location,
        task(with_edge(graph, parent, child), id).kind == task(graph, id).kind,
        id != parent ==> task(with_edge(graph, parent, child), id) == task(graph, id),
{
    let after = with_edge(graph, parent, child);
    if id != parent {
        assert(id.index != parent.index);
    } else {
        let core = task(graph, id).children;
        let all = task(after, id).children;
        assert(all == core.push(child));
        assert(all[core.len() as int] == child);
        if core.contains(other) {
            let k = choose|k: int| 0 <= k < core.len() && core[k] == other;
            assert(all[k] == other);
        }
        if all.contains(other) && other != child {
            let k = choose|k: int| 0 <= k < all.len() && all[k] == other;
            assert(core[k] == other);
        }
    }
}

/// A filter chain has the same tasks before and after a task has been added that nothing
/// needs, and the source has become needed by a task.
proof fn lemma_same_chain(
    graph: Graph,
    ordered: Graph,
    continued: Graph,
    root: RenderTaskId,
    src: RenderTaskId,
    target: RenderTaskId,
    id: RenderTaskId,
)
    requires
        graph_wf(graph),
        has_task(graph, root),
        has_task(graph, target),
        ordered == with_edge(graph, target, src),
        continued.len() == graph.len() + 1,
        continued.len() <= usize::MAX,
        forall|x: RenderTaskId|
            has_task(graph, x) ==> #[trigger] task(continued, x) == task(ordered, x),
    ensures
        in_chain(continued, root, src, id) == in_chain(graph, root, src, id),
        in_chain(continued, root, src, id) ==> has_task(graph, id),
{
    lemma_in_chain(graph, root, src, id);
    lemma_in_chain(continued, root, src, id);
    if in_chain(continued, root, src, id) {
        let path = choose|path: Seq<RenderTaskId>| #[trigger]
            leads_to(continued, path, root, id, src);
        lemma_same_path(graph, ordered, continued, root, src, target, path, path.len() - 1);
        assert forall|k: int|
            #![trigger path[k]]
            0 < k < path.len() implies needs(graph, path[k - 1], path[k]) && path[k] != src by {
            lemma_same_path(graph, ordered, continued, root, src, target, path, k);
        }
        assert(leads_to(graph, path, root, id, src));
    }
    if in_chain(graph, root, src, id) {
        let path = choose|path: Seq<RenderTaskId>| #[trigger] leads_to(graph, path, root, id, src);
        assert(chain_path(graph, root, src, path)) by {
            assert forall|k: int|
                #![trigger path[k]]
                0 < k < path.len() implies path[k] != src && task(
                graph,
                path[k - 1],
            ).children.contains(path[k]) by {
                assert(needs(graph, path[k - 1], path[k]));
            }
        }
        assert forall|k: int|
            #![trigger path[k]]
            0 < k < path.len() implies needs(continued, path[k - 1], path[k]) && path[k]
            != src by {
            lemma_path_in_graph(graph, root, src, path, k - 1);
            assert(needs(graph, path[k - 1], path[k]));
            lemma_edge_adds(graph, target, src, path[k - 1], path[k]);
            assert(task(continued, path[k - 1]) == task(ordered, path[k - 1]));
        }
        assert(leads_to(continued, path, root, id, src));
    }
}

/// A way that avoids the source is the same in both graphs, and stays in the old one.
proof fn lemma_same_path(
    graph: Graph,
    ordered: Graph,
    continued: Graph,
    root: RenderTaskId,
    src: RenderTaskId,
    target: RenderTaskId,
    path: Seq<RenderTaskId>,
    n: int,
)
    requires
        graph_wf(graph),
        has_task(graph, root),
        has_task(graph, target),
        ordered == with_edge(graph, target, src),
        forall|x: RenderTaskId|
            has_task(graph, x) ==> #[trigger] task(continued, x) == task(ordered, x),
        leads_to(continued, path, root, path[path.len() - 1], src),
        0 <= n < path.len(),
    ensures
        has_task(graph, path[n]),
        n > 0 ==> needs(graph, path[n - 1], path[n]),
    decreases n,
{
    if n > 0 {
        lemma_same_path(graph, ordered, continued, root, src, target, path, n - 1);
        assert(needs(continued, path[n - 1], path[n]) && path[n] != src);
        assert(task(continued, path[n - 1]) == task(ordered, path[n - 1]));
        assert(needs(ordered, path[n - 1], path[n]));
        lemma_edge_adds(graph, target, src, path[n - 1], path[n]);
        let children = task(graph, path[n - 1]).children;
        let k = choose|k: int| 0 <= k < children.len() && children[k] == path[n];
        assert(has_task(graph, graph[path[n - 1].index as int].children[k]));
    }
}

/// What merging a sub-graph into a surface without tiles makes of a task.
proof fn lemma_merged_simple_task(
    graph: Graph,
    commands: CommandBufferIndex,
    render_task: RenderTaskId,
    root_task: Option<RenderTaskId>,
    sub: SubGraph,
    relations: Relations,
    id: RenderTaskId,
    child: RenderTaskId,
)
    requires
        graph_wf(graph),
        is_picture(graph, render_task),
        root_task matches Some(root) ==> has_task(graph, root),
        is_picture(graph, sub.resolve_task),
        graph.len() < usize::MAX,
    ensures
        ({
            let m = merged_simple(graph, commands, render_task, root_task, sub, relations);
            let next = RenderTaskId { index: graph.len() as usize };
            let reads = (needs(graph, id, render_task) || id == sub.resolve_task)
                && root_task is Some && exists|path: Seq<RenderTaskId>| #[trigger]
                leads_to(graph, path, root_task->0, id, render_task);
            &&& m.next == next
            &&& m.graph.len() == graph.len() + 1
            &&& task(m.graph, next).location == continuation(
                graph,
                render_task,
                commands,
            ).location
            &&& task(m.graph, next).kind == continuation(graph, render_task, commands).kind
            &&& task(m.graph, next).children == seq![render_task, sub.output]
            &&& has_task(graph, id) ==> {
                &&& task(m.graph, id).location == task(graph, id).location
                &&& id != sub.resolve_task ==> task(m.graph, id).kind == task(graph, id).kind
                &&& needs(m.graph, id, child) <==> {
                    ||| needs(graph, id, child)
                    ||| id == sub.resolve_task && child == render_task
                    ||| reads && child == next
                }
                &&& id != sub.resolve_task && !reads ==> task(m.graph, id) == task(graph, id)
            }
            &&& task(m.graph, sub.resolve_task).kind == TaskKindView::Picture(
                PictureTaskView {
                    resolve_op: task(m.graph, sub.resolve_task).picture().resolve_op,
                    ..task(graph, sub.resolve_task).kind->Picture_0
                },
            )
            &&& task(m.graph, sub.resolve_task).picture().resolve_op matches Some(op)
                && op.src_task_ids == seq![render_task] && op.sources.len() == 0
                && op.dest_task_id == sub.resolve_task && op.dest_to_src_raster
                == dest_to_src_raster(graph, relations, sub.resolve_task, seq![render_task])
        }),
{
    let m = merged_simple(graph, commands, render_task, root_task, sub, relations);
    let target = sub.resolve_task;
    let next = RenderTaskId { index: graph.len() as usize };
    let ordered = with_edge(graph, target, render_task);
    let added = continuation(ordered, render_task, commands);
    let continued = ordered.push(added);
    lemma_edge_adds(graph, target, render_task, render_task, child);
    lemma_edge_adds(graph, target, render_task, target, child);
    assert(added.children == seq![render_task]);
    assert(task(continued, next) == added);
    assert(added.location == continuation(graph, render_task, commands).location);
    assert(added.kind == continuation(graph, render_task, commands).kind);
    assert(needs(continued, next, child) <==> child == render_task) by {
        assert(added.children[0] == render_task);
    }
    if has_task(graph, id) {
        lemma_edge_adds(graph, target, render_task, id, child);
        lemma_edge_adds(graph, target, render_task, id, render_task);
        assert(task(continued, id) == task(ordered, id));
    }
    assert(task(continued, target) == task(ordered, target));
    assert(task(continued, render_task) == task(ordered, render_task));
    let spliced = match root_task {
        Some(root) => readers_ordered(continued, root, render_task, next),
        None => continued,
    };
    if let Some(root) = root_task {
        assert forall|x: RenderTaskId| has_task(graph, x) implies #[trigger] task(continued, x)
            == task(ordered, x) by {}
        lemma_same_chain(graph, ordered, continued, root, render_task, target, id);
        lemma_same_chain(graph, ordered, continued, root, render_task, target, next);
        lemma_in_chain(graph, root, render_task, id);
        lemma_in_chain(continued, root, render_task, id);
        lemma_in_chain(continued, root, render_task, next);
        law_readers_of_the_source_wait(continued, root, render_task, next, next, child);
        law_readers_of_the_source_wait(continued, root, render_task, next, target, child);
        law_readers_of_the_source_wait(continued, root, render_task, next, render_task, child);
        if has_task(graph, id) {
            law_readers_of_the_source_wait(continued, root, render_task, next, id, child);
        }
    }
    assert(task(spliced, next) == added);
    let raster = dest_to_src_raster(spliced, relations, target, seq![render_task]);
    assert(raster == dest_to_src_raster(graph, relations, target, seq![render_task])) by {
        assert(seq![render_task][0] == render_task);
    }
    let resolved = with_resolve(spliced, target, seq![render_task], Seq::empty(), raster);
    assert(target.index != next.index);
    assert(task(resolved, next) == added);
    lemma_edge_adds(resolved, next, sub.output, next, child);
    assert(task(m.graph, next).children =~= seq![render_task, sub.output]);
    lemma_edge_adds(resolved, next, sub.output, target, child);
    if has_task(graph, id) {
        if id != target {
            assert(id.index != target.index);
        }
        assert(task(resolved, id).children == task(spliced, id).children);
        assert(needs(resolved, id, child) == needs(spliced, id, child));
        lemma_edge_adds(resolved, next, sub.output, id, child);
        assert(id != next);
    }
}

/// A backdrop filter that is finished on top of a surface without tiles reads all that has
/// been drawn there. Another task, with an empty buffer of its own, goes on after the one
/// that was read, which the resolve target copies before anything is drawn there, in the
/// raster space of what is read. The one that goes on waits for the output of the filter
/// chain, or of the filter's own task where there is no chain. The output is recorded for
/// the picture.
pub proof fn law_filter_splits_a_simple_surface(
    stage: Stage,
    pic_index: PictureIndex,
    around: Surroundings,
)
    requires
        stage.surfaces.wf(stage.graph),
        stage.surfaces.stack.len() > 1,
        stage.surfaces.top().establishes_sub_graph,
        stage.surfaces.top().resolve_source is Some,
        stage.surfaces.stack[stage.surfaces.stack.len() - 2].kind is Simple,
        stage.graph.len() < usize::MAX,
        stage.cmd_buffers.len() < usize::MAX,
    ensures
        ({
            let stack = stage.surfaces.stack;
            let graph = stage.graph;
            let top = stage.surfaces.top();
            let kind = stack[stack.len() - 2].kind;
            let read = kind->render_task_id;
            let (target, rect) = top.resolve_source->0;
            let output = match top.kind->root_task_id {
                Some(root) => root,
                None => top.kind->render_task_id,
            };
            let after = popped(stage, pic_index, around);
            let next = after.surfaces.stack.last().kind->render_task_id;
            let buffer = CommandBufferIndex(stage.cmd_buffers.len() as usize);
            let drawn = task(after.graph, target);
            &&& after.surfaces.stack.last().kind is Simple
            &&& after.surfaces.stack.last().kind->root_task_id == kind->root_task_id
            &&& after.surfaces.stack.last().kind->dirty_rect == kind->dirty_rect
            &&& next.index == graph.len()
            &&& after.graph.len() == graph.len() + 1
            &&& after.cmd_buffers.len() == stage.cmd_buffers.len() + 1
            &&& after.cmd_buffers.drop_last() == stage.cmd_buffers
            &&& after.cmd_buffers.last().len() == 0
            &&& goes_on_after(task(graph, read), task(after.graph, next), read, output, buffer)
            &&& drawn.kind is Picture
            &&& drawn.location == task(graph, target).location
            &&& drawn.kind->Picture_0 == (PictureTaskView {
                resolve_op: drawn.kind->Picture_0.resolve_op,
                ..task(graph, target).kind->Picture_0
            })
            &&& drawn.kind->Picture_0.resolve_op matches Some(op) && {
                &&& op.src_task_ids.len() == 1
                &&& op.src_task_ids[0] == read
                &&& op.sources.len() == 0
                &&& op.dest_task_id == target
                &&& relates_rasters(op.dest_to_src_raster, graph, around.relations, target, read)
            }
            &&& needs(after.graph, target, read)
            &&& after.surfaces.outputs.dom() == stage.surfaces.outputs.dom().insert(pic_index.0)
            &&& after.surfaces.outputs[pic_index.0] == output
            &&& forall|other: usize|
                other != pic_index.0 && stage.surfaces.outputs.dom().contains(other)
                    ==> #[trigger] after.surfaces.outputs[other] == stage.surfaces.outputs[other]
        }),
{
    let stack = stage.surfaces.stack;
    let graph = stage.graph;
    let top = stage.surfaces.top();
    let sub = sub_graph(top);
    let kind = stack[stack.len() - 2].kind;
    let read = kind->render_task_id;
    let buffer = CommandBufferIndex(stage.cmd_buffers.len() as usize);
    let after = popped(stage, pic_index, around);
    lemma_merged_below(stage, pic_index, around);
    let m = merged_simple(graph, buffer, read, kind->root_task_id, sub, around.relations);
    let next = m.next;
    lemma_merged_simple_task(
        graph,
        buffer,
        read,
        kind->root_task_id,
        sub,
        around.relations,
        sub.resolve_task,
        read,
    );
    let drawing = top.kind->render_task_id;
    assert(drawing.index != next.index);
    let t = task(after.graph, next);
    assert(t == task(m.graph, next));
    lemma_edges_to_needs(m.graph, drawing, top.extra_dependencies, sub.resolve_task, read);
    assert(seq![read][0] == read);
    assert(after.cmd_buffers.drop_last() =~= stage.cmd_buffers);
}

/// The surface without tiles below is merged into.
proof fn lemma_merged_below(stage: Stage, pic_index: PictureIndex, around: Surroundings)
    requires
        stage.surfaces.wf(stage.graph),
        stage.surfaces.stack.len() > 1,
        stage.surfaces.top().establishes_sub_graph,
        stage.surfaces.top().resolve_source is Some,
        stage.surfaces.stack[stage.surfaces.stack.len() - 2].kind is Simple,
    ensures
        ({
            let stack = stage.surfaces.stack;
            let graph = stage.graph;
            let top = stage.surfaces.top();
            let sub = sub_graph(top);
            let kind = stack[stack.len() - 2].kind;
            let m = merged_simple(
                graph,
                CommandBufferIndex(stage.cmd_buffers.len() as usize),
                kind->render_task_id,
                kind->root_task_id,
                sub,
                around.relations,
            );
            let after = popped(stage, pic_index, around);
            &&& graph_wf(graph)
            &&& top.kind is Simple
            &&& is_picture(graph, kind->render_task_id)
            &&& kind->root_task_id matches Some(root) ==> has_task(graph, root)
            &&& has_task(graph, top.kind->render_task_id)
            &&& is_picture(graph, sub.resolve_task)
            &&& sub.resolve_task == (top.resolve_source->0).0
            &&& sub.output == match top.kind->root_task_id {
                Some(root) => root,
                None => top.kind->render_task_id,
            }
            &&& after.graph == with_edges_to(
                m.graph,
                top.kind->render_task_id,
                top.extra_dependencies,
            )
            &&& after.cmd_buffers == stage.cmd_buffers.push(Seq::empty())
            &&& after.surfaces.stack.len() == stack.len() - 1
            &&& after.surfaces.stack.last().kind == (BuilderKindView::Simple {
                render_task_id: m.next,
                root_task_id: kind->root_task_id,
                dirty_rect: kind->dirty_rect,
            })
            &&& forall|k: int|
                0 <= k < stack.len() - 2 ==> #[trigger] after.surfaces.stack[k] == stack[k]
        }),
{
    let stack = stage.surfaces.stack;
    let below = stack.drop_last();
    assert(below.last() == stack[stack.len() - 2]);
    assert(stack[stack.len() - 1].wf(stage.graph));
    assert(stack[stack.len() - 2].wf(stage.graph));
    let handed = handed_on(stage, pic_index, around);
    let after = popped(stage, pic_index, around);
    assert forall|k: int| 0 <= k < stack.len() - 2 implies #[trigger] after.surfaces.stack[k]
        == stack[k] by {
        assert(below[k] == stack[k]);
    }
}

/// Finishing a filter on top of a surface without tiles makes nothing else need anything,
/// but for what filters that surface: of the tasks that lead to the output of the surface,
/// those that need what was read need the task that goes on too. The filter's own task
/// needs what was added to it. No task that was there draws anything else, but for what the
/// resolve target copies, or stops needing anything. The surfaces further below stay as
/// they are.
pub proof fn law_filter_changes_nothing_else_in_a_simple_surface(
    stage: Stage,
    pic_index: PictureIndex,
    around: Surroundings,
    id: RenderTaskId,
    child: RenderTaskId,
)
    requires
        stage.surfaces.wf(stage.graph),
        stage.surfaces.stack.len() > 1,
        stage.surfaces.top().establishes_sub_graph,
        stage.surfaces.top().resolve_source is Some,
        stage.surfaces.stack[stage.surfaces.stack.len() - 2].kind is Simple,
        stage.graph.len() < usize::MAX,
        has_task(stage.graph, id),
    ensures
        ({
            let stack = stage.surfaces.stack;
            let graph = stage.graph;
            let top = stage.surfaces.top();
            let parent = stack[stack.len() - 2];
            let read = parent.kind->render_task_id;
            let target = (top.resolve_source->0).0;
            let after = popped(stage, pic_index, around);
            let below = after.surfaces.stack.last();
            let filters = parent.kind->root_task_id matches Some(root) && (needs(graph, id, read)
                || id == target) && exists|path: Seq<RenderTaskId>| #[trigger]
                leads_to(graph, path, root, id, read);
            &&& task(after.graph, id).location == task(graph, id).location
            &&& id != target ==> task(after.graph, id).kind == task(graph, id).kind
            &&& needs(after.graph, id, child) <==> {
                ||| needs(graph, id, child)
                ||| id == target && child == read
                ||| filters && child == below.kind->render_task_id
                ||| id == top.kind->render_task_id && top.extra_dependencies.contains(child)
            }
            &&& after.surfaces.stack.len() == stack.len() - 1
            &&& forall|k: int|
                0 <= k < stack.len() - 2 ==> #[trigger] after.surfaces.stack[k] == stack[k]
            &&& below.establishes_sub_graph == parent.establishes_sub_graph
            &&& below.resolve_source == parent.resolve_source
            &&& below.extra_dependencies == parent.extra_dependencies
            &&& after.surfaces.sources == stage.surfaces.sources
        }),
{
    let stack = stage.surfaces.stack;
    let graph = stage.graph;
    let top = stage.surfaces.top();
    let sub = sub_graph(top);
    let kind = stack[stack.len() - 2].kind;
    let read = kind->render_task_id;
    let buffer = CommandBufferIndex(stage.cmd_buffers.len() as usize);
    lemma_merged_below(stage, pic_index, around);
    let m = merged_simple(graph, buffer, read, kind->root_task_id, sub, around.relations);
    lemma_merged_simple_task(
        graph,
        buffer,
        read,
        kind->root_task_id,
        sub,
        around.relations,
        id,
        child,
    );
    let drawing = top.kind->render_task_id;
    lemma_edges_to_needs(m.graph, drawing, top.extra_dependencies, id, child);
    if id != drawing {
        assert(id.index != drawing.index);
    }
    assert(stack.drop_last().last() == stack[stack.len() - 2]);
}

} // verus!
