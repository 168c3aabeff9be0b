//! What holds of surfaces and their tasks over more than one step.

use vstd::prelude::*;
use vstd::seq_lib::lemma_sorted_unique;

use crate::backdrop::{
    ascending, entry_hashes, entry_words, number_order, reads_dirty_source, signature_hash,
    source_order, sources_by_slice, BackdropSource, SourceProjection,
};
use crate::command_buffer::{
    surface_targets, target_keys, tile_target, tile_targets, BuilderKindView, BuilderView,
    CommandBufferIndex, CommandTarget,
};
use crate::filter_chain::{is_reader, readers_ordered};
use crate::fx_hash::digest;
use crate::geometry::{DeviceRect, PictureRect, Rect};
use crate::render_task_graph::{has_task, task, Graph, RenderTaskId};
use crate::routing::{goes_on_top, routed_task, routed_tile, DrawState, PrimitiveDrawHeader};
use crate::splice::{opened, reads_tile, spliced_graph, spliced_tile, SubGraph};
use crate::surface::{keys_known, prim_targets, started, top_kind, top_tiles};
use crate::tile::{has_key, TileKey, TileView, SUB_SLICE_COUNT};

verus! {

/// What a rectangle overlaps, every rectangle that covers it overlaps.
proof fn lemma_cover_overlaps(outer: Rect, inner: Rect, other: Rect)
    requires
        outer.covers(inner),
        !inner.empty(),
        inner.overlaps(other),
    ensures
        outer.overlaps(other),
{
}

/// What covers a rectangle covers what that covers.
proof fn lemma_cover_trans(a: Rect, b: Rect, c: Rect)
    requires
        a.covers(b),
        b.covers(c),
        !b.empty(),
    ensures
        a.covers(c),
{
}

/// A rectangle that covers something covers itself.
proof fn lemma_cover_self(rect: Rect)
    ensures
        rect.covers(rect),
{
}

/// Whatever was covered by a deferred output of a tile still is when another
/// output is added, and so is that output.
pub proof fn law_outputs_stay_covered(tile: TileView, added: PictureRect, rect: PictureRect)
    requires
        tile.output_covers(rect) || rect == added,
    ensures
        tile.with_output(added).output_covers(rect),
{
    let after = tile.with_output(added);
    let keep = |r: PictureRect| !added.covers(r);
    let rects = tile.deferred_output_rects;
    if !tile.output_covers(added) {
        let last = after.deferred_output_rects.len() - 1;
        assert(after.deferred_output_rects[last] == added);
        lemma_cover_self(added);
        if rect != added && !rect.empty() {
            let i = choose|i: int|
                0 <= i < rects.len() && (#[trigger] rects[i]).covers(rect);
            if added.covers(rects[i]) {
                assert(!rects[i].empty());
                lemma_cover_trans(added, rects[i], rect);
                assert(after.deferred_output_rects[last].covers(rect));
            } else {
                rects.lemma_filter_contains(keep, i);
                let kept = rects.filter(keep);
                let j = choose|j: int| 0 <= j < kept.len() && kept[j] == rects[i];
                assert(after.deferred_output_rects[j] == rects[i]);
            }
        } else {
            assert(after.deferred_output_rects[last].covers(rect));
        }
    }
}

/// Whether no rectangle of the list covers another one.
pub open spec fn none_covers_another(rects: Seq<PictureRect>) -> bool {
    forall|i: int, j: int|
        #![trigger rects[i], rects[j]]
        0 <= i < rects.len() && 0 <= j < rects.len() && i != j ==> !rects[i].covers(rects[j])
}

/// Filtering keeps what holds of every two elements.
proof fn lemma_filter_none_covers(rects: Seq<PictureRect>, keep: spec_fn(PictureRect) -> bool)
    requires
        none_covers_another(rects),
    ensures
        none_covers_another(rects.filter(keep)),
    decreases rects.len(),
{
    reveal(Seq::filter);
    if rects.len() > 0 {
        let shorter = rects.drop_last();
        assert(none_covers_another(shorter)) by {
            assert forall|i: int, j: int|
                #![trigger shorter[i], shorter[j]]
                0 <= i < shorter.len() && 0 <= j < shorter.len() && i != j implies !shorter[i]
                .covers(shorter[j]) by {
                assert(!rects[i].covers(rects[j]));
            }
        }
        lemma_filter_none_covers(shorter, keep);
        let kept = shorter.filter(keep);
        let after = rects.filter(keep);
        assert forall|i: int, j: int|
            #![trigger after[i], after[j]]
            0 <= i < after.len() && 0 <= j < after.len() && i != j implies !after[i].covers(
            after[j],
        ) by {
            let n = rects.len() - 1;
            if i < kept.len() && j < kept.len() {
                assert(!kept[i].covers(kept[j]));
            } else if i < kept.len() {
                assert(kept.contains(kept[i]));
                shorter.lemma_filter_contains_rev(keep, kept[i]);
                let a = choose|a: int| 0 <= a < shorter.len() && shorter[a] == kept[i];
                assert(!rects[a].covers(rects[n]));
            } else {
                assert(kept.contains(kept[j]));
                shorter.lemma_filter_contains_rev(keep, kept[j]);
                let b = choose|b: int| 0 <= b < shorter.len() && shorter[b] == kept[j];
                assert(!rects[n].covers(rects[b]));
            }
        }
    }
}

/// The deferred outputs of a tile are kept without repetition: where none of
/// them covers another, none does after one is added.
pub proof fn law_outputs_stay_apart(tile: TileView, added: PictureRect)
    requires
        none_covers_another(tile.deferred_output_rects),
    ensures
        none_covers_another(tile.with_output(added).deferred_output_rects),
{
    let rects = tile.deferred_output_rects;
    let keep = |r: PictureRect| !added.covers(r);
    if !tile.output_covers(added) {
        let kept = rects.filter(keep);
        let after = kept.push(added);
        lemma_filter_none_covers(rects, keep);
        assert forall|i: int, j: int|
            #![trigger after[i], after[j]]
            0 <= i < after.len() && 0 <= j < after.len() && i != j implies !after[i].covers(
            after[j],
        ) by {
            if i < kept.len() && j < kept.len() {
                assert(!kept[i].covers(kept[j]));
            } else if i < kept.len() {
                assert(kept.contains(kept[i]));
                rects.lemma_filter_contains_rev(keep, kept[i]);
                let a = choose|a: int| 0 <= a < rects.len() && rects[a] == kept[i];
                assert(!rects[a].covers(added));
            } else {
                rects.lemma_filter_pred(keep, j);
            }
        }
    }
}

/// A deferred output that overlaps what is read is seen.
pub proof fn lemma_covered_overlaps(tile: TileView, inner: PictureRect, other: PictureRect)
    requires
        tile.output_covers(inner),
        !inner.empty(),
        inner.overlaps(other),
    ensures
        tile.output_overlaps(other),
{
    let rects = tile.deferred_output_rects;
    let i = choose|i: int| 0 <= i < rects.len() && (#[trigger] rects[i]).covers(inner);
    lemma_cover_overlaps(rects[i], inner, other);
}

/// A backdrop filter sees the output of one that was drawn before it, where the
/// two overlap: it reads the task that draws that output.
pub proof fn law_overlapping_filter_sees_output(
    graph: Graph,
    tile: TileView,
    first: SubGraph,
    next: RenderTaskId,
    second: PictureRect,
)
    requires
        reads_tile(graph, tile, first.resolve_rect),
        !first.resolve_rect.empty(),
        first.resolve_rect.overlaps(second),
    ensures
        ({
            let after = spliced_tile(graph, tile, first, next);
            opened(after, second).current_task_id == after.final_task()
                && after.deferred_task_id is Some
        }),
{
    let ready = opened(tile, first.resolve_rect);
    let started = if ready.deferred_task_id is Some {
        ready
    } else {
        TileView { deferred_task_id: Some(next), ..ready }
    };
    law_outputs_stay_covered(started, first.resolve_rect, first.resolve_rect);
    lemma_covered_overlaps(
        spliced_tile(graph, tile, first, next),
        first.resolve_rect,
        second,
    );
}

/// Backdrop filters that do not overlap read the same task of a tile, so that
/// neither has to wait for the other.
pub proof fn law_disjoint_filters_share_source(
    graph: Graph,
    tile: TileView,
    first: SubGraph,
    next: RenderTaskId,
    second: PictureRect,
)
    requires
        reads_tile(graph, tile, first.resolve_rect),
        !spliced_tile(graph, tile, first, next).output_overlaps(second),
    ensures
        opened(spliced_tile(graph, tile, first, next), second).current_task_id == opened(
            tile,
            first.resolve_rect,
        ).current_task_id,
{
}

/// A tile that a sub-graph does not read is left as it is.
pub proof fn law_tile_off_the_filter(
    graph: Graph,
    tile: TileView,
    sub: SubGraph,
    next: RenderTaskId,
    commands: CommandBufferIndex,
)
    requires
        !tile.dirty_rect.overlaps(sub.resolve_rect),
    ensures
        spliced_tile(graph, tile, sub, next) == tile,
        spliced_graph(graph, tile, sub, commands) == graph,
{
}

/// Primitives keep the order in which they are drawn: what overlaps something
/// that is drawn on top of the deferred outputs is drawn on top as well.
pub proof fn law_draw_order_kept(
    tile: TileView,
    first: PictureRect,
    is_backdrop_render: bool,
    second: PictureRect,
)
    requires
        tile.deferred_task_id is None ==> tile.deferred_output_rects.len() == 0,
        goes_on_top(tile, first, is_backdrop_render),
        !first.empty(),
        first.overlaps(second),
    ensures
        goes_on_top(routed_tile(tile, first, is_backdrop_render), second, false),
        routed_task(routed_tile(tile, first, is_backdrop_render), second, false) == routed_task(
            tile,
            first,
            is_backdrop_render,
        ),
{
    law_outputs_stay_covered(tile, first, first);
    lemma_covered_overlaps(tile.with_output(first), first, second);
}

/// Every task of a filter chain that samples the source waits for the task that
/// completes it, and nothing else changes.
pub proof fn law_readers_wait(
    graph: Graph,
    root: RenderTaskId,
    src: RenderTaskId,
    dep: RenderTaskId,
    id: RenderTaskId,
)
    requires
        has_task(graph, id),
    ensures
        is_reader(graph, root, src, id) ==> task(
            readers_ordered(graph, root, src, dep),
            id,
        ).children.contains(dep),
        !is_reader(graph, root, src, id) ==> task(readers_ordered(graph, root, src, dep), id)
            == task(graph, id),
        forall|child: RenderTaskId|
            task(graph, id).children.contains(child) ==> #[trigger] task(
                readers_ordered(graph, root, src, dep),
                id,
            ).children.contains(child),
{
    let before = task(graph, id).children;
    let after = task(readers_ordered(graph, root, src, dep), id).children;
    assert(RenderTaskId { index: id.index as int as usize } == id);
    if is_reader(graph, root, src, id) {
        assert(after[before.len() as int] == dep);
    }
    assert forall|child: RenderTaskId| before.contains(child) implies #[trigger] after.contains(
        child,
    ) by {
        let k = choose|k: int| 0 <= k < before.len() && before[k] == child;
        assert(after[k] == child);
    }
}

/// The sources of other slices are copied from back to front, and in the order
/// in which they were registered within a slice. Each is listed once.
pub proof fn law_sources_back_to_front(sources: Seq<BackdropSource>)
    ensures
        sources_by_slice(sources).to_multiset() == Seq::new(
            sources.len(),
            |i: int| i,
        ).to_multiset(),
        forall|a: int, b: int|
            #![trigger sources_by_slice(sources)[a], sources_by_slice(sources)[b]]
            0 <= a < b < sources_by_slice(sources).len() ==> {
                let first = sources_by_slice(sources)[a];
                let second = sources_by_slice(sources)[b];
                ||| sources[first].slice_index < sources[second].slice_index
                ||| sources[first].slice_index == sources[second].slice_index && first <= second
            },
{
    let all = Seq::new(sources.len(), |i: int| i);
    let leq = source_order(sources);
    all.lemma_sort_by_ensures(leq);
    let order = sources_by_slice(sources);
    assert forall|a: int, b: int|
        #![trigger order[a], order[b]]
        0 <= a < b < order.len() implies {
        ||| sources[order[a]].slice_index < sources[order[b]].slice_index
        ||| sources[order[a]].slice_index == sources[order[b]].slice_index && order[a] <= order[b]
    } by {
        assert(leq(order[a], order[b]));
    }
}

/// The tiles that commands may go to are tiles of the surface.
proof fn lemma_tile_targets_known(graph: Graph, kind: BuilderKindView, s: int, k: int)
    requires
        kind is Tiled,
        0 <= k < tile_targets(graph, kind.tiles(), s).len(),
    ensures
        tile_targets(graph, kind.tiles(), s)[k].tile_key is Some,
        has_key(kind.tiles(), tile_targets(graph, kind.tiles(), s)[k].tile_key->0),
{
    let tiles = kind.tiles();
    let keep = |t: (TileKey, TileView)| t.0.sub_slice_index.0 == s;
    let kept = tiles.filter(keep);
    assert(kept.contains(kept[k]));
    tiles.lemma_filter_contains_rev(keep, kept[k]);
    let i = choose|i: int| 0 <= i < tiles.len() && tiles[i] == kept[k];
    assert(tiles[i].0 == tile_target(graph, kept[k]).tile_key->0);
}

/// After a surface has been started or finished, every tile that a primitive is
/// drawn to is one of the current surface.
pub proof fn law_targets_are_current(
    stack: Seq<BuilderView>,
    graph: Graph,
    vis: PrimitiveDrawHeader,
)
    requires
        vis.state matches DrawState::Visible { sub_slice_index }
            ==> sub_slice_index.in_range(),
    ensures
        keys_known(
            stack,
            target_keys(prim_targets(surface_targets(graph, top_kind(stack)), vis)),
        ),
{
    let kind = top_kind(stack);
    let all = surface_targets(graph, kind);
    let hits = prim_targets(all, vis);
    let tiled = |t: CommandTarget| t.tile_key is Some;
    let keys = target_keys(hits);
    assert forall|k: int| 0 <= k < keys.len() implies has_key(
        top_tiles(stack),
        #[trigger] keys[k],
    ) by {
        let hit = hits.filter(tiled)[k];
        assert(hits.filter(tiled).contains(hit));
        hits.lemma_filter_contains_rev(tiled, hit);
        hits.lemma_filter_pred(tiled, k);
        match vis.state {
            DrawState::Visible { sub_slice_index } => {
                let s = sub_slice_index.0 as int;
                let near = |t: CommandTarget| t.dirty_rect.overlaps(vis.pic_coverage_rect);
                assert(all[s].filter(near).contains(hit));
                all[s].lemma_filter_contains_rev(near, hit);
                let i = choose|i: int| 0 <= i < all[s].len() && all[s][i] == hit;
                match kind {
                    BuilderKindView::Tiled { .. } => {
                        lemma_tile_targets_known(graph, kind, s, i);
                    },
                    _ => {},
                }
            },
            _ => {},
        }
    }
}

/// A surface that is started without anything to draw, and taken off again,
/// leaves the surfaces below as they were; there is no buffer that commands may
/// go to while it is there.
pub proof fn law_empty_surface_leaves_no_trace(
    stack: Seq<BuilderView>,
    graph: Graph,
    is_sub_graph: bool,
)
    ensures
        stack.push(started(None, is_sub_graph)).drop_last() == stack,
        !started(None, is_sub_graph).establishes_sub_graph,
        forall|s: int|
            0 <= s < SUB_SLICE_COUNT ==> #[trigger] surface_targets(
                graph,
                started(None, is_sub_graph).kind,
            )[s] == Seq::<CommandTarget>::empty(),
{
    assert(stack.push(started(None, is_sub_graph)).drop_last() =~= stack);
}

/// What a source contributes to the signature of a backdrop filter: its hash, or
/// nothing.
spec fn contribution(
    pair: (BackdropSource, SourceProjection),
    slice: usize,
    area: DeviceRect,
) -> Seq<u64> {
    match entry_words(pair.0, slice, area, pair.1) {
        Some(words) => seq![digest(words)],
        None => Seq::empty(),
    }
}

/// What sources contribute, in turn.
spec fn contributions(
    pairs: Seq<(BackdropSource, SourceProjection)>,
    slice: usize,
    area: DeviceRect,
) -> Seq<u64>
    decreases pairs.len(),
{
    if pairs.len() == 0 {
        Seq::empty()
    } else {
        contributions(pairs.drop_last(), slice, area) + contribution(pairs.last(), slice, area)
    }
}

/// The hashes that sources contribute, source by source.
proof fn lemma_contributions(
    sources: Seq<BackdropSource>,
    projections: Seq<SourceProjection>,
    n: int,
    slice: usize,
    area: DeviceRect,
)
    requires
        sources.len() == projections.len(),
        0 <= n <= sources.len(),
    ensures
        entry_hashes(sources.take(n), slice, area, projections) == contributions(
            sources.zip_with(projections).take(n),
            slice,
            area,
        ),
    decreases n,
{
    let pairs = sources.zip_with(projections);
    if n > 0 {
        lemma_contributions(sources, projections, n - 1, slice, area);
        assert(sources.take(n).drop_last() =~= sources.take(n - 1));
        assert(pairs.take(n).drop_last() =~= pairs.take(n - 1));
        assert(sources.take(n).last() == sources[n - 1]);
        assert(pairs.take(n).last() == (sources[n - 1], projections[n - 1]));
        assert(entry_hashes(sources.take(n), slice, area, projections) =~= contributions(
            pairs.take(n),
            slice,
            area,
        ));
    } else {
        assert(entry_hashes(sources.take(n), slice, area, projections) =~= contributions(
            pairs.take(n),
            slice,
            area,
        ));
    }
}

/// Leaving out one source leaves out what it contributes.
proof fn lemma_contributions_without(
    pairs: Seq<(BackdropSource, SourceProjection)>,
    j: int,
    slice: usize,
    area: DeviceRect,
)
    requires
        0 <= j < pairs.len(),
    ensures
        contributions(pairs, slice, area).to_multiset() == contributions(
            pairs.remove(j),
            slice,
            area,
        ).to_multiset().add(contribution(pairs[j], slice, area).to_multiset()),
    decreases pairs.len(),
{
    let last = pairs.len() - 1;
    let shorter = contributions(pairs.drop_last(), slice, area);
    let tail = contribution(pairs.last(), slice, area);
    vstd::seq_lib::lemma_multiset_commutative(shorter, tail);
    if j == last {
        assert(pairs.remove(j) =~= pairs.drop_last());
    } else {
        let without = pairs.remove(j);
        lemma_contributions_without(pairs.drop_last(), j, slice, area);
        assert(without.drop_last() =~= pairs.drop_last().remove(j));
        assert(without.last() == pairs.last());
        vstd::seq_lib::lemma_multiset_commutative(
            contributions(without.drop_last(), slice, area),
            tail,
        );
        assert(contributions(pairs, slice, area).to_multiset() =~= contributions(
            without,
            slice,
            area,
        ).to_multiset().add(contribution(pairs[j], slice, area).to_multiset()));
    }
}

/// What sources contribute does not depend on their order.
proof fn lemma_contributions_unordered(
    a: Seq<(BackdropSource, SourceProjection)>,
    b: Seq<(BackdropSource, SourceProjection)>,
    slice: usize,
    area: DeviceRect,
)
    requires
        a.to_multiset() == b.to_multiset(),
    ensures
        contributions(a, slice, area).to_multiset() == contributions(b, slice, area).to_multiset(),
    decreases a.len(),
{
    broadcast use vstd::seq_lib::group_to_multiset_ensures;

    if a.len() == 0 {
        assert(a.to_multiset().len() == 0);
        assert(b.to_multiset().len() == b.len());
    } else {
        let x = a.last();
        assert(a[a.len() - 1] == x);
        assert(a.contains(x));
        assert(a.to_multiset().contains(x));
        assert(b.contains(x));
        let j = choose|j: int| 0 <= j < b.len() && b[j] == x;
        let shorter = a.remove(a.len() - 1);
        assert(shorter =~= a.drop_last());
        assert(shorter.to_multiset() =~= b.remove(j).to_multiset());
        lemma_contributions_unordered(shorter, b.remove(j), slice, area);
        lemma_contributions_without(a, a.len() - 1, slice, area);
        lemma_contributions_without(b, j, slice, area);
    }
}

/// A source that is among some is among them in any order.
proof fn lemma_dirty_unordered(
    sources: Seq<BackdropSource>,
    projections: Seq<SourceProjection>,
    sources2: Seq<BackdropSource>,
    projections2: Seq<SourceProjection>,
    slice: usize,
    area: DeviceRect,
)
    requires
        sources.len() == projections.len(),
        sources2.len() == projections2.len(),
        sources.zip_with(projections).to_multiset() == sources2.zip_with(
            projections2,
        ).to_multiset(),
        reads_dirty_source(sources, slice, area, projections),
    ensures
        reads_dirty_source(sources2, slice, area, projections2),
{
    broadcast use vstd::seq_lib::group_to_multiset_ensures;

    let i = choose|i: int|
        0 <= i < sources.len() && (#[trigger] sources[i]).producer_task_id is Some && entry_words(
            sources[i],
            slice,
            area,
            projections[i],
        ) is Some;
    let a = sources.zip_with(projections);
    let b = sources2.zip_with(projections2);
    assert(a[i] == (sources[i], projections[i]));
    assert(a.contains(a[i]));
    assert(a.to_multiset().contains(a[i]));
    assert(b.contains(a[i]));
    let j = choose|j: int| 0 <= j < b.len() && b[j] == a[i];
    assert(sources2[j] == sources[i] && projections2[j] == projections[i]);
}

/// The signature of a backdrop filter does not depend on the order in which the
/// sources were registered.
pub proof fn law_signature_ignores_order(
    sources: Seq<BackdropSource>,
    projections: Seq<SourceProjection>,
    sources2: Seq<BackdropSource>,
    projections2: Seq<SourceProjection>,
    slice: usize,
    capture_rect: PictureRect,
    area: DeviceRect,
)
    requires
        sources.len() == projections.len(),
        sources2.len() == projections2.len(),
        sources.zip_with(projections).to_multiset() == sources2.zip_with(
            projections2,
        ).to_multiset(),
    ensures
        signature_hash(entry_hashes(sources, slice, area, projections), slice, capture_rect)
            == signature_hash(
            entry_hashes(sources2, slice, area, projections2),
            slice,
            capture_rect,
        ),
        reads_dirty_source(sources, slice, area, projections) == reads_dirty_source(
            sources2,
            slice,
            area,
            projections2,
        ),
{
    let a = sources.zip_with(projections);
    let b = sources2.zip_with(projections2);
    lemma_contributions(sources, projections, sources.len() as int, slice, area);
    lemma_contributions(sources2, projections2, sources2.len() as int, slice, area);
    assert(sources.take(sources.len() as int) =~= sources);
    assert(sources2.take(sources2.len() as int) =~= sources2);
    assert(a.take(a.len() as int) =~= a);
    assert(b.take(b.len() as int) =~= b);
    lemma_contributions_unordered(a, b, slice, area);
    let x = entry_hashes(sources, slice, area, projections);
    let y = entry_hashes(sources2, slice, area, projections2);
    x.lemma_sort_by_ensures(number_order());
    y.lemma_sort_by_ensures(number_order());
    lemma_sorted_unique(ascending(x), ascending(y), number_order());
    if reads_dirty_source(sources, slice, area, projections) {
        lemma_dirty_unordered(sources, projections, sources2, projections2, slice, area);
    }
    if reads_dirty_source(sources2, slice, area, projections2) {
        lemma_dirty_unordered(sources2, projections2, sources, projections, slice, area);
    }
}

} // verus!
