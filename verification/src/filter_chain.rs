//! Ordering the readers of a filter chain after the task that completes what
//! they read.

use vstd::prelude::*;
use vstd::set_lib::*;

use crate::render_task_graph::{
    graph_wf, has_task, task, Graph, RenderTaskGraphBuilder, RenderTaskId, TaskView,
};

verus! {

/// Whether `path` leads from `root` along dependencies, none of which is on
/// `src`.
pub open spec fn chain_path(
    graph: Graph,
    root: RenderTaskId,
    src: RenderTaskId,
    path: Seq<RenderTaskId>,
) -> bool {
    &&& path.len() > 0
    &&& path[0] == root
    &&& forall|k: int|
        #![trigger path[k]]
        0 < k < path.len() ==> path[k] != src && task(graph, path[k - 1]).children.contains(path[k])
}

/// Whether `id` belongs to the filter chain that has its output at `root` and
/// its source at `src`.
#[verifier::opaque]
pub open spec fn in_chain(
    graph: Graph,
    root: RenderTaskId,
    src: RenderTaskId,
    id: RenderTaskId,
) -> bool {
    exists|path: Seq<RenderTaskId>|
        chain_path(graph, root, src, path) && #[trigger] path.last() == id
}

/// Whether `id` is a task of the chain that samples the chain's source.
pub open spec fn is_reader(
    graph: Graph,
    root: RenderTaskId,
    src: RenderTaskId,
    id: RenderTaskId,
) -> bool {
    in_chain(graph, root, src, id) && task(graph, id).children.contains(src)
}

/// The graph in which every task of the chain that samples the source needs
/// `dep` too.
pub open spec fn readers_ordered(
    graph: Graph,
    root: RenderTaskId,
    src: RenderTaskId,
    dep: RenderTaskId,
) -> Graph {
    Seq::new(
        graph.len(),
        |i: int|
            if is_reader(graph, root, src, RenderTaskId { index: i as usize }) {
                TaskView { children: graph[i].children.push(dep), ..graph[i] }
            } else {
                graph[i]
            },
    )
}

/// The root belongs to its chain.
proof fn lemma_root_in_chain(graph: Graph, root: RenderTaskId, src: RenderTaskId)
    ensures
        in_chain(graph, root, src, root),
{
    reveal(in_chain);
    let path = seq![root];
    assert(chain_path(graph, root, src, path) && path.last() == root);
}

/// What a task of the chain depends on belongs to the chain, but for the source.
proof fn lemma_child_in_chain(
    graph: Graph,
    root: RenderTaskId,
    src: RenderTaskId,
    id: RenderTaskId,
    child: RenderTaskId,
)
    requires
        in_chain(graph, root, src, id),
        task(graph, id).children.contains(child),
        child != src,
    ensures
        in_chain(graph, root, src, child),
{
    reveal(in_chain);
    let path = choose|path: Seq<RenderTaskId>|
        chain_path(graph, root, src, path) && #[trigger] path.last() == id;
    let longer = path.push(child);
    assert forall|k: int| #![trigger longer[k]] 0 < k < longer.len() implies longer[k] != src && task(
        graph,
        longer[k - 1],
    ).children.contains(longer[k]) by {
        assert(longer[k - 1] == path[k - 1]);
        if k < path.len() {
            assert(longer[k] == path[k]);
        }
    }
    assert(chain_path(graph, root, src, longer) && longer.last() == child);
}

/// A set of tasks that holds the root, and all that its tasks depend on but for
/// the source, holds every path of the chain.
proof fn lemma_closed_holds_path(
    graph: Graph,
    root: RenderTaskId,
    src: RenderTaskId,
    closed: Set<RenderTaskId>,
    path: Seq<RenderTaskId>,
    n: int,
)
    requires
        closed.contains(root),
        forall|id: RenderTaskId, child: RenderTaskId|
            #![trigger closed.contains(id), task(graph, id).children.contains(child)]
            closed.contains(id) && task(graph, id).children.contains(child) && child != src
                ==> closed.contains(child),
        chain_path(graph, root, src, path),
        0 <= n < path.len(),
    ensures
        closed.contains(path[n]),
    decreases n,
{
    if n > 0 {
        lemma_closed_holds_path(graph, root, src, closed, path, n - 1);
        assert(path[n] != src && task(graph, path[n - 1]).children.contains(path[n]));
    }
}

/// The state of a walk of the chain: every task that has been seen belongs to
/// the chain and is done or pending, and what a done task depends on has been
/// seen.
spec fn walk_state(
    graph: Graph,
    root: RenderTaskId,
    src: RenderTaskId,
    seen: Seq<bool>,
    pending: Seq<RenderTaskId>,
    done: Set<int>,
) -> bool {
    &&& seen.len() == graph.len()
    &&& has_task(graph, root)
    &&& seen[root.index as int]
    &&& graph.len() <= usize::MAX
    &&& forall|i: int|
        0 <= i < seen.len() && #[trigger] seen[i] ==> in_chain(
            graph,
            root,
            src,
            RenderTaskId { index: i as usize },
        )
    &&& forall|i: int|
        0 <= i < seen.len() && #[trigger] seen[i] && !done.contains(i) ==> pending.contains(
            RenderTaskId { index: i as usize },
        )
    &&& forall|k: int|
        #![trigger pending[k]]
        0 <= k < pending.len() ==> has_task(graph, pending[k]) && seen[pending[k].index as int]
            && !done.contains(pending[k].index as int)
    &&& forall|j: int, l: int|
        #![trigger pending[j], pending[l]]
        0 <= j < l < pending.len() ==> pending[j] != pending[l]
    &&& done.finite()
    &&& forall|i: int| #[trigger] done.contains(i) ==> 0 <= i < graph.len() && seen[i]
    &&& forall|i: int, k: int|
        #![trigger graph[i].children[k]]
        done.contains(i) && 0 <= k < graph[i].children.len() && graph[i].children[k] != src
            ==> seen[graph[i].children[k].index as int]
}

/// A step of the walk: the last pending task is done once what it depends on
/// has been marked.
proof fn lemma_walk_step(
    graph: Graph,
    root: RenderTaskId,
    src: RenderTaskId,
    seen0: Seq<bool>,
    pending0: Seq<RenderTaskId>,
    done: Set<int>,
    seen: Seq<bool>,
    pending: Seq<RenderTaskId>,
)
    requires
        graph_wf(graph),
        walk_state(graph, root, src, seen0, pending0, done),
        pending0.len() > 0,
        seen.len() == seen0.len(),
        forall|i: int| 0 <= i < seen0.len() && seen0[i] ==> #[trigger] seen[i],
        forall|i: int|
            0 <= i < seen0.len() && !seen0[i] && #[trigger] seen[i] ==> task(
                graph,
                pending0.last(),
            ).children.contains(RenderTaskId { index: i as usize }) && i != src.index,
        forall|k: int|
            #![trigger task(graph, pending0.last()).children[k]]
            0 <= k < task(graph, pending0.last()).children.len() && task(
                graph,
                pending0.last(),
            ).children[k] != src ==> seen[task(graph, pending0.last()).children[k].index as int],
        pending.len() >= pending0.len() - 1,
        forall|j: int|
            0 <= j < pending0.len() - 1 ==> #[trigger] pending[j] == pending0.drop_last()[j],
        forall|j: int|
            #![trigger pending[j]]
            pending0.len() - 1 <= j < pending.len() ==> has_task(graph, pending[j])
                && !seen0[pending[j].index as int] && seen[pending[j].index as int],
        forall|i: int|
            0 <= i < seen0.len() && !seen0[i] && #[trigger] seen[i] ==> pending.contains(
                RenderTaskId { index: i as usize },
            ),
        forall|j: int, l: int|
            #![trigger pending[j], pending[l]]
            pending0.len() - 1 <= j < l < pending.len() ==> pending[j] != pending[l],
    ensures
        walk_state(graph, root, src, seen, pending, done.insert(pending0.last().index as int)),
        !done.contains(pending0.last().index as int),
        done.insert(pending0.last().index as int).len() == done.len() + 1,
        done.len() < graph.len(),
{
    let id = pending0.last();
    let n = pending0.len() - 1;
    let now = done.insert(id.index as int);
    assert(pending0[n] == id);
    assert forall|i: int| 0 <= i < seen.len() && #[trigger] seen[i] implies in_chain(
        graph,
        root,
        src,
        RenderTaskId { index: i as usize },
    ) by {
        if !seen0[i] {
            assert(seen0[id.index as int]);
            assert(RenderTaskId { index: id.index as int as usize } == id);
            lemma_child_in_chain(graph, root, src, id, RenderTaskId { index: i as usize });
        }
    }
    assert forall|i: int|
        0 <= i < seen.len() && #[trigger] seen[i] && !now.contains(i) implies pending.contains(
        RenderTaskId { index: i as usize },
    ) by {
        if seen0[i] {
            let t = RenderTaskId { index: i as usize };
            assert(pending0.contains(t));
            let j = choose|j: int| 0 <= j < pending0.len() && pending0[j] == t;
            assert(j != n);
            assert(pending[j] == pending0.drop_last()[j]);
            assert(pending[j] == t);
        }
    }
    assert forall|k: int| #![trigger pending[k]] 0 <= k < pending.len() implies has_task(
        graph,
        pending[k],
    ) && seen[pending[k].index as int] && !now.contains(pending[k].index as int) by {
        if k < n {
            assert(pending[k] == pending0.drop_last()[k]);
            assert(pending0[k] == pending[k]);
            assert(pending0[k] != pending0[n]);
        } else {
            assert(seen0[id.index as int]);
        }
    }
    assert forall|j: int, l: int|
        #![trigger pending[j], pending[l]]
        0 <= j < l < pending.len() implies pending[j] != pending[l] by {
        if j < n {
            assert(pending[j] == pending0.drop_last()[j]);
            assert(pending[j] == pending0[j]);
            if l < n {
                assert(pending[l] == pending0.drop_last()[l]);
                assert(pending[l] == pending0[l]);
            } else {
                assert(seen0[pending0[j].index as int]);
            }
        }
    }
    assert forall|i: int, k: int|
        #![trigger graph[i].children[k]]
        now.contains(i) && 0 <= k < graph[i].children.len() && graph[i].children[k]
            != src implies seen[graph[i].children[k].index as int] by {
        if i == id.index {
            assert(task(graph, id).children[k] == graph[i].children[k]);
        } else {
            assert(has_task(graph, graph[i].children[k]));
            assert(seen0[graph[i].children[k].index as int]);
        }
    }
    lemma_int_range(0, graph.len() as int);
    assert(now.subset_of(set_int_range(0, graph.len() as int)));
    lemma_len_subset(now, set_int_range(0, graph.len() as int));
}

/// Once nothing is pending, the tasks that are done are those of the chain.
proof fn lemma_walk_end(
    graph: Graph,
    root: RenderTaskId,
    src: RenderTaskId,
    seen: Seq<bool>,
    pending: Seq<RenderTaskId>,
    done: Set<int>,
)
    requires
        graph_wf(graph),
        walk_state(graph, root, src, seen, pending, done),
        pending.len() == 0,
    ensures
        forall|i: int|
            #![trigger done.contains(i)]
            0 <= i < graph.len() ==> (done.contains(i) <==> in_chain(
                graph,
                root,
                src,
                RenderTaskId { index: i as usize },
            )),
{
    let closed = Set::new(|id: RenderTaskId| has_task(graph, id) && seen[id.index as int]);
    assert forall|id: RenderTaskId, child: RenderTaskId|
        #![trigger closed.contains(id), task(graph, id).children.contains(child)]
        closed.contains(id) && task(graph, id).children.contains(child) && child
            != src implies closed.contains(child) by {
        assert(seen[id.index as int]);
        assert(done.contains(id.index as int));
        let j = choose|j: int|
            0 <= j < task(graph, id).children.len() && task(graph, id).children[j] == child;
        assert(graph[id.index as int].children[j] == child);
        assert(has_task(graph, child));
    }
    assert forall|i: int| #![trigger done.contains(i)] 0 <= i < graph.len() implies (done.contains(i)
        <==> in_chain(graph, root, src, RenderTaskId { index: i as usize })) by {
        let id = RenderTaskId { index: i as usize };
        if done.contains(i) {
            assert(seen[i]);
        }
        if in_chain(graph, root, src, id) {
            reveal(in_chain);
            let path = choose|path: Seq<RenderTaskId>|
                chain_path(graph, root, src, path) && #[trigger] path.last() == id;
            lemma_closed_holds_path(graph, root, src, closed, path, path.len() - 1);
            assert(closed.contains(id));
            assert(seen[i]);
        }
    }
}

/// Marks the tasks that `id` depends on, but for the source, and lists those
/// that were not marked before. Tells whether `id` samples the source.
fn mark_children(
    rg_builder: &RenderTaskGraphBuilder,
    id: RenderTaskId,
    src_task_id: RenderTaskId,
    seen: &mut Vec<bool>,
    pending: &mut Vec<RenderTaskId>,
) -> (reads_src: bool)
    requires
        has_task(rg_builder@, id),
        old(seen)@.len() == rg_builder@.len(),
        forall|k: int|
            0 <= k < task(rg_builder@, id).children.len() ==> has_task(
                rg_builder@,
                #[trigger] task(rg_builder@, id).children[k],
            ),
    ensures
        reads_src == task(rg_builder@, id).children.contains(src_task_id),
        final(seen)@.len() == old(seen)@.len(),
        forall|i: int| 0 <= i < old(seen)@.len() && old(seen)@[i] ==> #[trigger] final(seen)@[i],
        forall|i: int|
            0 <= i < old(seen)@.len() && !old(seen)@[i] && #[trigger] final(seen)@[i] ==> task(
                rg_builder@,
                id,
            ).children.contains(RenderTaskId { index: i as usize }) && i != src_task_id.index,
        forall|k: int|
            #![trigger task(rg_builder@, id).children[k]]
            0 <= k < task(rg_builder@, id).children.len() && task(rg_builder@, id).children[k]
                != src_task_id ==> final(seen)@[task(rg_builder@, id).children[k].index as int],
        final(pending)@.len() >= old(pending)@.len(),
        forall|j: int|
            0 <= j < old(pending)@.len() ==> #[trigger] final(pending)@[j] == old(pending)@[j],
        forall|j: int|
            #![trigger final(pending)@[j]]
            old(pending)@.len() <= j < final(pending)@.len() ==> has_task(
                rg_builder@,
                final(pending)@[j],
            ) && !old(seen)@[final(pending)@[j].index as int]
                && final(seen)@[final(pending)@[j].index as int],
        forall|i: int|
            0 <= i < old(seen)@.len() && !old(seen)@[i] && #[trigger] final(seen)@[i]
                ==> final(pending)@.contains(RenderTaskId { index: i as usize }),
        forall|j: int, l: int|
            #![trigger final(pending)@[j], final(pending)@[l]]
            old(pending)@.len() <= j < l < final(pending)@.len() ==> final(pending)@[j]
                != final(pending)@[l],
{
    let child_count: usize = rg_builder.get_task(id).children.len();
    let ghost children = task(rg_builder@, id).children;
    let ghost seen0 = seen@;
    let ghost pending0 = pending@;
    let mut reads_src: bool = false;
    let mut k: usize = 0;
    while k < child_count
        invariant
            has_task(rg_builder@, id),
            children == task(rg_builder@, id).children,
            child_count == children.len(),
            k <= child_count,
            seen0.len() == rg_builder@.len(),
            seen@.len() == seen0.len(),
            forall|j: int| 0 <= j < children.len() ==> has_task(rg_builder@, #[trigger] children[j]),
            reads_src <==> exists|j: int| 0 <= j < k && #[trigger] children[j] == src_task_id,
            forall|i: int| 0 <= i < seen0.len() && seen0[i] ==> #[trigger] seen@[i],
            forall|i: int|
                0 <= i < seen0.len() && !seen0[i] && #[trigger] seen@[i] ==> children.contains(
                    RenderTaskId { index: i as usize },
                ) && i != src_task_id.index,
            forall|j: int|
                0 <= j < k && #[trigger] children[j] != src_task_id
                    ==> seen@[children[j].index as int],
            pending@.len() >= pending0.len(),
            forall|j: int| 0 <= j < pending0.len() ==> #[trigger] pending@[j] == pending0[j],
            forall|j: int|
                #![trigger pending@[j]]
                pending0.len() <= j < pending@.len() ==> has_task(rg_builder@, pending@[j])
                    && !seen0[pending@[j].index as int] && seen@[pending@[j].index as int],
            forall|i: int|
                0 <= i < seen0.len() && !seen0[i] && #[trigger] seen@[i] ==> pending@.contains(
                    RenderTaskId { index: i as usize },
                ),
            forall|j: int, l: int|
                #![trigger pending@[j], pending@[l]]
                pending0.len() <= j < l < pending@.len() ==> pending@[j] != pending@[l],
        decreases child_count - k,
    {
        let child = rg_builder.get_task(id).children[k];
        assert(child == children[k as int]);
        if child == src_task_id {
            reads_src = true;
        } else if !seen[child.index] {
            let ghost seen1 = seen@;
            let ghost pending1 = pending@;
            seen.set(child.index, true);
            pending.push(child);
            proof {
                assert(pending@.last() == child);
                assert forall|i: int|
                    0 <= i < seen0.len() && !seen0[i]
                        && #[trigger] seen@[i] implies pending@.contains(
                    RenderTaskId { index: i as usize },
                ) by {
                    let t = RenderTaskId { index: i as usize };
                    if i != child.index {
                        assert(seen1[i]);
                        let j = choose|j: int| 0 <= j < pending1.len() && pending1[j] == t;
                        assert(pending@[j] == t);
                    }
                }
            }
        }
        k = k + 1;
    }
    reads_src
}

/// Walks the filter chain rooted at `task_id` and makes every task in it that
/// samples `src_task_id` depend on `dep_task_id` as well.
///
/// The tasks that sample the chain's source sit at the start of the chain, not
/// at the root, which is its output, and there may be several of them.
pub fn order_readers_after(
    rg_builder: &mut RenderTaskGraphBuilder,
    task_id: RenderTaskId,
    src_task_id: RenderTaskId,
    dep_task_id: RenderTaskId,
)
    requires
        graph_wf(old(rg_builder)@),
        has_task(old(rg_builder)@, task_id),
    ensures
        final(rg_builder)@ == readers_ordered(
            old(rg_builder)@,
            task_id,
            src_task_id,
            dep_task_id,
        ),
{
    let ghost graph = rg_builder@;
    let count: usize = rg_builder.task_count();
    let mut seen: Vec<bool> = Vec::new();
    while seen.len() < count
        invariant
            seen@.len() <= count,
            forall|i: int| 0 <= i < seen@.len() ==> !#[trigger] seen@[i],
        decreases count - seen@.len(),
    {
        seen.push(false);
    }
    let mut pending: Vec<RenderTaskId> = Vec::new();
    let ghost mut done: Set<int> = Set::empty();
    seen.set(task_id.index, true);
    pending.push(task_id);
    proof {
        lemma_root_in_chain(graph, task_id, src_task_id);
        assert(pending@[0] == task_id);
        assert(walk_state(graph, task_id, src_task_id, seen@, pending@, done));
    }
    while pending.len() > 0
        invariant
            graph_wf(graph),
            count == graph.len(),
            rg_builder@.len() == count,
            walk_state(graph, task_id, src_task_id, seen@, pending@, done),
            forall|i: int|
                0 <= i < count ==> #[trigger] rg_builder@[i] == (if done.contains(i)
                    && graph[i].children.contains(src_task_id) {
                    TaskView { children: graph[i].children.push(dep_task_id), ..graph[i] }
                } else {
                    graph[i]
                }),
        decreases count - done.len(),
    {
        let ghost pending0 = pending@;
        let ghost seen0 = seen@;
        let id = pending[pending.len() - 1];
        assert(pending@[pending@.len() - 1] == id);
        pending.pop();
        assert(pending@ =~= pending0.drop_last());
        assert(rg_builder@[id.index as int] == graph[id.index as int]);
        let reads_src: bool = mark_children(
            rg_builder,
            id,
            src_task_id,
            &mut seen,
            &mut pending,
        );
        proof {
            lemma_walk_step(graph, task_id, src_task_id, seen0, pending0, done, seen@, pending@);
            done = done.insert(id.index as int);
        }
        if reads_src {
            rg_builder.add_dependency(id, dep_task_id);
        }
    }
    proof {
        lemma_walk_end(graph, task_id, src_task_id, seen@, pending@, done);
        assert(rg_builder@ =~= readers_ordered(graph, task_id, src_task_id, dep_task_id));
    }
}

} // verus!
