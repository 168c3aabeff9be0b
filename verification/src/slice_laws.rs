//! What a task copies of the slices behind it, and what a backdrop filter's signature is
//! made of: said of the sources one by one.

use vstd::prelude::*;

use crate::backdrop::{
    ascending, entry_hashes, entry_words, mapped_between, number_order, reads_dirty_source,
    signature_hash, source_copies, source_copy, source_order, source_producers, sources_by_slice,
    BackdropSource, BackdropSourceKind, SourceProjection,
};
use crate::fx_hash::{digest, fx_digest, FxWord};
use crate::geometry::{DeviceIntRect, DeviceRect, PictureRect};
use crate::merge_laws::{lemma_initialized_kept, lemma_initialized_others};
use crate::render_task_graph::{
    has_task, task, Graph, PictureTaskView, RenderTaskId, ResolveOpView, ResolveSource,
    TaskKindView, TaskView,
};
use crate::resolve::{initialized, lemma_order_in_range, ProjectionView};

verus! {

/// Whether the rectangle has a width and a height.
pub open spec fn has_pixels(rect: DeviceIntRect) -> bool {
    rect.min.x < rect.max.x && rect.min.y < rect.max.y
}

/// Whether the source belongs to a slice behind, and a part of it goes to the pixels of
/// the area.
pub open spec fn lies_behind(
    source: BackdropSource,
    part: SourceProjection,
    slice_index: usize,
    area: DeviceRect,
) -> bool {
    &&& source.slice_index < slice_index
    &&& area.common(source.device_rect) is Some
    &&& has_pixels(part.rect)
}

/// Whether there is something of the source to copy: of a texture, there have to be
/// pixels that it is copied from.
pub open spec fn has_content(source: BackdropSource, part: SourceProjection) -> bool {
    source.kind is Texture ==> !source.device_rect.empty() && !source.surface_rect.empty()
        && has_pixels(part.src_rect)
}

/// Whether `copy` takes the part of the source to where it goes.
pub open spec fn copies_part(
    copy: ResolveSource,
    source: BackdropSource,
    part: SourceProjection,
) -> bool {
    match source.kind {
        BackdropSourceKind::Texture(texture) => copy == (ResolveSource::Texture {
            source: texture,
            src_rect: part.src_rect,
            dest_rect: part.rect,
        }),
        BackdropSourceKind::Color(color) => copy == (ResolveSource::Color {
            color,
            dest_rect: part.rect,
        }),
    }
}

/// Whether the list runs from back to front: by slice, and by registration within one.
pub open spec fn back_to_front(picked: Seq<int>, sources: Seq<BackdropSource>) -> bool {
    forall|a: int, b: int|
        #![trigger picked[a], picked[b]]
        0 <= a < b < picked.len() ==> {
            ||| sources[picked[a]].slice_index < sources[picked[b]].slice_index
            ||| sources[picked[a]].slice_index == sources[picked[b]].slice_index && picked[a]
                < picked[b]
        }
}

/// Whether `copies` are those of exactly the sources that lie behind and have content,
/// from back to front. `picked` says which source each comes from.
pub open spec fn copies_all_behind(
    copies: Seq<ResolveSource>,
    picked: Seq<int>,
    sources: Seq<BackdropSource>,
    parts: Seq<SourceProjection>,
    slice_index: usize,
    area: DeviceRect,
) -> bool {
    &&& picked.len() == copies.len()
    &&& back_to_front(picked, sources)
    &&& forall|k: int|
        #![trigger picked.contains(k)]
        picked.contains(k) <==> 0 <= k < sources.len() && lies_behind(
            sources[k],
            parts[k],
            slice_index,
            area,
        ) && has_content(sources[k], parts[k])
    &&& forall|j: int|
        #![trigger copies[j]]
        0 <= j < copies.len() ==> copies_part(copies[j], sources[picked[j]], parts[picked[j]])
}

/// Whether `producers` are the tasks that draw exactly the sources that lie behind and
/// are drawn anew, from back to front.
pub open spec fn produces_all_behind(
    producers: Seq<RenderTaskId>,
    picked: Seq<int>,
    sources: Seq<BackdropSource>,
    parts: Seq<SourceProjection>,
    slice_index: usize,
    area: DeviceRect,
) -> bool {
    &&& picked.len() == producers.len()
    &&& back_to_front(picked, sources)
    &&& forall|k: int|
        #![trigger picked.contains(k)]
        picked.contains(k) <==> 0 <= k < sources.len() && lies_behind(
            sources[k],
            parts[k],
            slice_index,
            area,
        ) && sources[k].producer_task_id is Some
    &&& forall|j: int|
        #![trigger producers[j]]
        0 <= j < producers.len() ==> sources[picked[j]].producer_task_id == Some(producers[j])
}

/// The indices of a list that satisfy a condition, in turn.
spec fn kept(order: Seq<int>, keep: spec_fn(int) -> bool) -> Seq<int>
    decreases order.len(),
{
    if order.len() == 0 {
        Seq::empty()
    } else if keep(order.last()) {
        kept(order.drop_last(), keep).push(order.last())
    } else {
        kept(order.drop_last(), keep)
    }
}

/// What is kept of a list from back to front runs from back to front.
proof fn lemma_kept(order: Seq<int>, keep: spec_fn(int) -> bool, sources: Seq<BackdropSource>)
    requires
        back_to_front(order, sources),
    ensures
        back_to_front(kept(order, keep), sources),
        forall|k: int| #[trigger]
            kept(order, keep).contains(k) <==> order.contains(k) && keep(k),
    decreases order.len(),
{
    if order.len() > 0 {
        let shorter = order.drop_last();
        let last = order[order.len() - 1];
        assert forall|a: int, b: int|
            #![trigger shorter[a], shorter[b]]
            0 <= a < b < shorter.len() implies {
            ||| sources[shorter[a]].slice_index < sources[shorter[b]].slice_index
            ||| sources[shorter[a]].slice_index == sources[shorter[b]].slice_index && shorter[a]
                < shorter[b]
        } by {
            assert(shorter[a] == order[a] && shorter[b] == order[b]);
        }
        lemma_kept(shorter, keep, sources);
        let before = kept(shorter, keep);
        let all = kept(order, keep);
        assert forall|k: int| #[trigger] all.contains(k) <==> order.contains(k) && keep(k) by {
            if all.contains(k) {
                let j = choose|j: int| 0 <= j < all.len() && all[j] == k;
                if j < before.len() {
                    assert(before[j] == k);
                    assert(before.contains(k));
                    let i = choose|i: int| 0 <= i < shorter.len() && shorter[i] == k;
                    assert(order[i] == k);
                } else {
                    assert(k == last);
                }
            }
            if order.contains(k) && keep(k) {
                let i = choose|i: int| 0 <= i < order.len() && order[i] == k;
                if i < shorter.len() {
                    assert(shorter[i] == k);
                    assert(before.contains(k));
                    let j = choose|j: int| 0 <= j < before.len() && before[j] == k;
                    assert(all[j] == k);
                } else {
                    assert(all[all.len() - 1] == k);
                }
            }
        }
        assert forall|a: int, b: int|
            #![trigger all[a], all[b]]
            0 <= a < b < all.len() implies {
            ||| sources[all[a]].slice_index < sources[all[b]].slice_index
            ||| sources[all[a]].slice_index == sources[all[b]].slice_index && all[a] < all[b]
        } by {
            assert(all[a] == before[a]);
            if b < before.len() {
                assert(all[b] == before[b]);
            } else {
                assert(before.contains(before[a]));
                let i = choose|i: int| 0 <= i < shorter.len() && shorter[i] == before[a];
                assert(order[i] == all[a]);
            }
        }
    }
}

/// The sources by slice are all sources, from back to front, each once.
proof fn lemma_order_strict(sources: Seq<BackdropSource>)
    ensures
        back_to_front(sources_by_slice(sources), sources),
        forall|k: int| #[trigger]
            sources_by_slice(sources).contains(k) <==> 0 <= k < sources.len(),
{
    let all = Seq::new(sources.len(), |i: int| i);
    let order = sources_by_slice(sources);
    let leq = source_order(sources);
    all.lemma_sort_by_ensures(leq);
    assert(all.no_duplicates());
    all.lemma_multiset_has_no_duplicates();
    assert(order.to_multiset() =~= all.to_multiset());
    order.lemma_multiset_has_no_duplicates_conv();
    lemma_order_in_range(sources);
    assert forall|k: int| #[trigger] order.contains(k) <==> 0 <= k < sources.len() by {
        if 0 <= k < sources.len() {
            assert(all[k] == k);
            assert(all.contains(k));
            all.to_multiset_ensures();
            order.to_multiset_ensures();
            assert(all.to_multiset().count(k) > 0);
            assert(order.to_multiset().count(k) > 0);
        }
    }
    assert forall|a: int, b: int|
        #![trigger order[a], order[b]]
        0 <= a < b < order.len() implies {
        ||| sources[order[a]].slice_index < sources[order[b]].slice_index
        ||| sources[order[a]].slice_index == sources[order[b]].slice_index && order[a] < order[b]
    } by {
        assert(leq(order[a], order[b]));
        assert(order[a] != order[b]);
    }
}

/// Whether a source is copied.
spec fn is_copied(
    sources: Seq<BackdropSource>,
    parts: Seq<SourceProjection>,
    slice_index: usize,
    area: DeviceRect,
) -> spec_fn(int) -> bool {
    |k: int|
        lies_behind(sources[k], parts[k], slice_index, area) && has_content(sources[k], parts[k])
}

/// Whether a source is waited for.
spec fn is_awaited(
    sources: Seq<BackdropSource>,
    parts: Seq<SourceProjection>,
    slice_index: usize,
    area: DeviceRect,
) -> spec_fn(int) -> bool {
    |k: int|
        lies_behind(sources[k], parts[k], slice_index, area)
            && sources[k].producer_task_id is Some
}

/// The copies of the sources of a list come from those that are kept of it.
proof fn lemma_copies_of_kept(
    sources: Seq<BackdropSource>,
    order: Seq<int>,
    slice_index: usize,
    area: DeviceRect,
    parts: Seq<SourceProjection>,
)
    ensures
        ({
            let copies = source_copies(sources, order, slice_index, area, parts);
            let picked = kept(order, is_copied(sources, parts, slice_index, area));
            let producers = source_producers(sources, order, slice_index, area, parts);
            let awaited = kept(order, is_awaited(sources, parts, slice_index, area));
            &&& picked.len() == copies.len()
            &&& forall|j: int|
                #![trigger copies[j]]
                0 <= j < copies.len() ==> copies_part(
                    copies[j],
                    sources[picked[j]],
                    parts[picked[j]],
                )
            &&& awaited.len() == producers.len()
            &&& forall|j: int|
                #![trigger producers[j]]
                0 <= j < producers.len() ==> sources[awaited[j]].producer_task_id == Some(
                    producers[j],
                )
        }),
    decreases order.len(),
{
    if order.len() > 0 {
        let shorter = order.drop_last();
        lemma_copies_of_kept(sources, shorter, slice_index, area, parts);
        let source = sources[order.last()];
        let part = parts[order.last()];
        assert(source.shows(slice_index, area, part.rect) == lies_behind(
            source,
            part,
            slice_index,
            area,
        ));
        assert(source_copy(source, part) is Some == has_content(source, part));
        let copies0 = source_copies(sources, shorter, slice_index, area, parts);
        let copies = source_copies(sources, order, slice_index, area, parts);
        let picked0 = kept(shorter, is_copied(sources, parts, slice_index, area));
        let picked = kept(order, is_copied(sources, parts, slice_index, area));
        assert forall|j: int|
            #![trigger copies[j]]
            0 <= j < copies.len() implies copies_part(
            copies[j],
            sources[picked[j]],
            parts[picked[j]],
        ) by {
            if j < copies0.len() {
                assert(copies[j] == copies0[j]);
                assert(picked[j] == picked0[j]);
            }
        }
        let producers0 = source_producers(sources, shorter, slice_index, area, parts);
        let producers = source_producers(sources, order, slice_index, area, parts);
        let awaited0 = kept(shorter, is_awaited(sources, parts, slice_index, area));
        let awaited = kept(order, is_awaited(sources, parts, slice_index, area));
        assert forall|j: int|
            #![trigger producers[j]]
            0 <= j < producers.len() implies sources[awaited[j]].producer_task_id == Some(
            producers[j],
        ) by {
            if j < producers0.len() {
                assert(producers[j] == producers0[j]);
                assert(awaited[j] == awaited0[j]);
            }
        }
    }
}

/// Every source that lies behind a slice and has content is copied once, from back to
/// front, and nothing else is. Every one that lies behind and is drawn anew is waited
/// for.
pub proof fn law_all_sources_behind_are_copied(
    sources: Seq<BackdropSource>,
    parts: Seq<SourceProjection>,
    slice_index: usize,
    area: DeviceRect,
)
    ensures
        exists|picked: Seq<int>| #[trigger]
            copies_all_behind(
                source_copies(sources, sources_by_slice(sources), slice_index, area, parts),
                picked,
                sources,
                parts,
                slice_index,
                area,
            ),
        exists|picked: Seq<int>| #[trigger]
            produces_all_behind(
                source_producers(sources, sources_by_slice(sources), slice_index, area, parts),
                picked,
                sources,
                parts,
                slice_index,
                area,
            ),
{
    let order = sources_by_slice(sources);
    lemma_order_strict(sources);
    lemma_copies_of_kept(sources, order, slice_index, area, parts);
    let picked = kept(order, is_copied(sources, parts, slice_index, area));
    lemma_kept(order, is_copied(sources, parts, slice_index, area), sources);
    assert forall|k: int|
        #![trigger picked.contains(k)]
        picked.contains(k) <==> 0 <= k < sources.len() && lies_behind(
            sources[k],
            parts[k],
            slice_index,
            area,
        ) && has_content(sources[k], parts[k]) by {
        assert(order.contains(k) <==> 0 <= k < sources.len());
    }
    assert(copies_all_behind(
        source_copies(sources, order, slice_index, area, parts),
        picked,
        sources,
        parts,
        slice_index,
        area,
    ));
    let awaited = kept(order, is_awaited(sources, parts, slice_index, area));
    lemma_kept(order, is_awaited(sources, parts, slice_index, area), sources);
    assert forall|k: int|
        #![trigger awaited.contains(k)]
        awaited.contains(k) <==> 0 <= k < sources.len() && lies_behind(
            sources[k],
            parts[k],
            slice_index,
            area,
        ) && sources[k].producer_task_id is Some by {
        assert(order.contains(k) <==> 0 <= k < sources.len());
    }
    assert(produces_all_behind(
        source_producers(sources, order, slice_index, area, parts),
        awaited,
        sources,
        parts,
        slice_index,
        area,
    ));
}

/// Whether a task copies all that the slices behind show before it draws, as it is and
/// where it is. It copies nothing where there is nothing.
pub open spec fn copies_behind_first(
    op: Option<ResolveOpView>,
    id: RenderTaskId,
    copied: Seq<int>,
    sources: Seq<BackdropSource>,
    parts: Seq<SourceProjection>,
    slice_index: usize,
    area: DeviceRect,
) -> bool {
    match op {
        None => copies_all_behind(Seq::empty(), copied, sources, parts, slice_index, area),
        Some(op) => {
            &&& op.sources.len() > 0
            &&& copies_all_behind(op.sources, copied, sources, parts, slice_index, area)
            &&& op.src_task_ids.len() == 0
            &&& op.dest_task_id == id
            &&& op.dest_to_src_raster.scale_x.bits == 0x3f80_0000
            &&& op.dest_to_src_raster.scale_y.bits == 0x3f80_0000
            &&& op.dest_to_src_raster.offset_x.bits == 0
            &&& op.dest_to_src_raster.offset_y.bits == 0
        },
    }
}

/// Whether a task starts from all that the slices behind show: it waits for those that
/// are drawn anew, and copies what there is of them first. Nothing else of it has
/// changed. `awaited` and `copied` say which sources these are.
pub open spec fn starts_from_all_behind(
    before: TaskView,
    after: TaskView,
    id: RenderTaskId,
    awaited: Seq<int>,
    copied: Seq<int>,
    sources: Seq<BackdropSource>,
    parts: Seq<SourceProjection>,
    slice_index: usize,
    area: DeviceRect,
) -> bool {
    let old_len = before.children.len() as int;
    let op = after.kind->Picture_0.resolve_op;
    &&& after.location == before.location
    &&& after.kind is Picture
    &&& after.kind->Picture_0 == (PictureTaskView {
        resolve_op: op,
        ..before.kind->Picture_0
    })
    &&& after.children.len() >= old_len
    &&& after.children.take(old_len) == before.children
    &&& produces_all_behind(
        after.children.skip(old_len),
        awaited,
        sources,
        parts,
        slice_index,
        area,
    )
    &&& copies_behind_first(op, id, copied, sources, parts, slice_index, area)
}

/// Making tasks start from what the slices behind show does so for every one that would
/// start from a cleared target, and for no other. Such a task copies every source that
/// lies behind its slice and has content, from back to front.
pub proof fn law_cleared_tasks_start_from_behind(
    graph: Graph,
    ids: Seq<RenderTaskId>,
    slice_index: usize,
    sources: Seq<BackdropSource>,
    projections: Map<RenderTaskId, ProjectionView>,
    id: RenderTaskId,
)
    requires
        forall|k: int| 0 <= k < ids.len() ==> has_task(graph, #[trigger] ids[k]),
        has_task(graph, id),
    ensures
        ({
            let before = task(graph, id);
            let after = task(initialized(graph, ids, slice_index, sources, projections), id);
            let cleared = before.kind matches TaskKindView::Picture(info)
                && info.clear_color is Some && info.resolve_op is None;
            &&& initialized(graph, ids, slice_index, sources, projections).len() == graph.len()
            &&& !(ids.contains(id) && cleared) ==> after == before
            &&& ids.contains(id) && cleared ==> exists|awaited: Seq<int>, copied: Seq<int>|
                #[trigger] starts_from_all_behind(
                    before,
                    after,
                    id,
                    awaited,
                    copied,
                    sources,
                    projections[id].sources,
                    slice_index,
                    projections[id].wanted_device_rect,
                )
        }),
    decreases ids.len(),
{
    if ids.len() > 0 {
        let shorter = ids.drop_last();
        let last = ids[ids.len() - 1];
        assert forall|k: int| 0 <= k < shorter.len() implies has_task(
            graph,
            #[trigger] shorter[k],
        ) by {
            assert(shorter[k] == ids[k]);
        }
        law_cleared_tasks_start_from_behind(
            graph,
            shorter,
            slice_index,
            sources,
            projections,
            id,
        );
        lemma_initialized_kept(graph, shorter, slice_index, sources, projections);
        assert(ids.contains(id) <==> shorter.contains(id) || id == last) by {
            if shorter.contains(id) {
                let k = choose|k: int| 0 <= k < shorter.len() && shorter[k] == id;
                assert(ids[k] == id);
            }
            if ids.contains(id) && id != last {
                let k = choose|k: int| 0 <= k < ids.len() && ids[k] == id;
                assert(shorter[k] == id);
            }
        }
        let middle = initialized(graph, shorter, slice_index, sources, projections);
        if id != last {
            assert(id.index != last.index);
        } else if !shorter.contains(id) {
            lemma_initialized_others(graph, shorter, slice_index, sources, projections, id);
            let before = task(graph, id);
            let after = task(initialized(graph, ids, slice_index, sources, projections), id);
            let cleared = before.kind matches TaskKindView::Picture(info)
                && info.clear_color is Some && info.resolve_op is None;
            if cleared {
                let parts = projections[id].sources;
                let area = projections[id].wanted_device_rect;
                let order = sources_by_slice(sources);
                law_all_sources_behind_are_copied(sources, parts, slice_index, area);
                let copies = source_copies(sources, order, slice_index, area, parts);
                let producers = source_producers(sources, order, slice_index, area, parts);
                let copied = choose|picked: Seq<int>| #[trigger]
                    copies_all_behind(copies, picked, sources, parts, slice_index, area);
                let awaited = choose|picked: Seq<int>| #[trigger]
                    produces_all_behind(producers, picked, sources, parts, slice_index, area);
                let n = before.children.len() as int;
                assert(after.children == before.children + producers);
                assert(after.children.take(n) =~= before.children);
                assert(after.children.skip(n) =~= producers);
                if copies.len() == 0 {
                    assert(copies =~= Seq::empty());
                }
                assert(starts_from_all_behind(
                    before,
                    after,
                    id,
                    awaited,
                    copied,
                    sources,
                    parts,
                    slice_index,
                    area,
                ));
            }
        }
    }
}

/// The values that a source contributes to a signature: its slice, where its part goes
/// and, of a texture, its identity and where the part comes from or, of a colour, its
/// four components. One that does not lie behind or has no content contributes nothing.
pub proof fn law_words_of_a_source(
    source: BackdropSource,
    part: SourceProjection,
    slice_index: usize,
    area: DeviceRect,
)
    ensures
        ({
            let words = entry_words(source, slice_index, area, part);
            &&& words is Some <==> lies_behind(source, part, slice_index, area) && has_content(
                source,
                part,
            )
            &&& words matches Some(words) ==> {
                &&& words.len() == 5 + (if source.kind is Texture {
                    5int
                } else {
                    4
                })
                &&& words[0] == FxWord::Usize(source.slice_index)
                &&& words[1] == FxWord::I32(part.rect.min.x)
                &&& words[2] == FxWord::I32(part.rect.min.y)
                &&& words[3] == FxWord::I32(part.rect.max.x)
                &&& words[4] == FxWord::I32(part.rect.max.y)
                &&& source.kind matches BackdropSourceKind::Texture(texture) ==> {
                    &&& words[5] == FxWord::U64(texture.id)
                    &&& words[6] == FxWord::I32(part.src_rect.min.x)
                    &&& words[7] == FxWord::I32(part.src_rect.min.y)
                    &&& words[8] == FxWord::I32(part.src_rect.max.x)
                    &&& words[9] == FxWord::I32(part.src_rect.max.y)
                }
                &&& source.kind matches BackdropSourceKind::Color(color) ==> {
                    &&& words[5] == FxWord::U32(color.r.bits)
                    &&& words[6] == FxWord::U32(color.g.bits)
                    &&& words[7] == FxWord::U32(color.b.bits)
                    &&& words[8] == FxWord::U32(color.a.bits)
                }
            }
        }),
{
}

/// A part of a texture is read exactly if the source covers something on the device and in
/// its texture, and what is mapped covers a pixel. It is what is mapped.
pub proof fn law_part_of_a_texture(from: DeviceRect, to: DeviceRect, mapped: DeviceIntRect)
    ensures
        mapped_between(from, to, mapped) is Some <==> !from.empty() && !to.empty() && mapped.min.x
            < mapped.max.x && mapped.min.y < mapped.max.y,
        mapped_between(from, to, mapped) matches Some(part) ==> part == mapped,
{
}

/// A digest is of all that has been written, in turn, and of nothing else.
pub proof fn law_digest_is_of_all_words(words: Seq<FxWord>)
    ensures
        digest(words) == fx_digest(usize::BITS as nat, words),
{
}

/// Whether `entries` are the hashes of exactly the sources that lie behind and have
/// content, in the order of registration. `picked` says which source each is of.
pub open spec fn hashes_all_behind(
    entries: Seq<u64>,
    picked: Seq<int>,
    sources: Seq<BackdropSource>,
    parts: Seq<SourceProjection>,
    slice_index: usize,
    area: DeviceRect,
) -> bool {
    &&& picked.len() == entries.len()
    &&& forall|a: int, b: int|
        0 <= a < b < picked.len() ==> #[trigger] picked[a] < #[trigger] picked[b]
    &&& forall|k: int|
        #![trigger picked.contains(k)]
        picked.contains(k) <==> 0 <= k < sources.len() && lies_behind(
            sources[k],
            parts[k],
            slice_index,
            area,
        ) && has_content(sources[k], parts[k])
    &&& forall|j: int|
        0 <= j < picked.len() ==> #[trigger] entries[j] == digest(
            entry_words(sources[picked[j]], slice_index, area, parts[picked[j]])->0,
        )
}

/// The hashes that are fed to a signature are those of the sources that lie behind and
/// have content, each once and in the order of registration.
pub proof fn law_entries_of_a_signature(
    sources: Seq<BackdropSource>,
    parts: Seq<SourceProjection>,
    slice_index: usize,
    area: DeviceRect,
)
    ensures
        exists|picked: Seq<int>| #[trigger]
            hashes_all_behind(
                entry_hashes(sources, slice_index, area, parts),
                picked,
                sources,
                parts,
                slice_index,
                area,
            ),
        reads_dirty_source(sources, slice_index, area, parts) <==> exists|k: int|
            #![trigger sources[k]]
            0 <= k < sources.len() && sources[k].producer_task_id is Some && lies_behind(
                sources[k],
                parts[k],
                slice_index,
                area,
            ) && has_content(sources[k], parts[k]),
    decreases sources.len(),
{
    let entries = entry_hashes(sources, slice_index, area, parts);
    if sources.len() == 0 {
        let picked = Seq::<int>::empty();
        assert(picked.len() == entries.len());
        assert(hashes_all_behind(entries, picked, sources, parts, slice_index, area));
    } else {
        let shorter = sources.drop_last();
        let n = shorter.len() as int;
        law_entries_of_a_signature(shorter, parts, slice_index, area);
        let entries0 = entry_hashes(shorter, slice_index, area, parts);
        let picked0 = choose|picked: Seq<int>| #[trigger]
            hashes_all_behind(entries0, picked, shorter, parts, slice_index, area);
        law_words_of_a_source(sources[n], parts[n], slice_index, area);
        let adds = lies_behind(sources[n], parts[n], slice_index, area) && has_content(
            sources[n],
            parts[n],
        );
        let picked = if adds {
            picked0.push(n)
        } else {
            picked0
        };
        assert forall|j: int| 0 <= j < picked0.len() implies 0 <= #[trigger] picked0[j] < n by {
            assert(picked0.contains(picked0[j]));
        }
        assert(picked.len() == entries.len());
        assert forall|k: int|
            #![trigger picked.contains(k)]
            picked.contains(k) <==> 0 <= k < sources.len() && lies_behind(
                sources[k],
                parts[k],
                slice_index,
                area,
            ) && has_content(sources[k], parts[k]) by {
            if 0 <= k < n {
                assert(shorter[k] == sources[k]);
            }
            if picked0.contains(k) {
                let j = choose|j: int| 0 <= j < picked0.len() && picked0[j] == k;
                assert(picked[j] == k);
            }
            if picked.contains(k) && k != n {
                let j = choose|j: int| 0 <= j < picked.len() && picked[j] == k;
                assert(picked0[j] == k);
                assert(picked0.contains(k));
            }
            if adds {
                assert(picked[picked0.len() as int] == n);
            } else if picked.contains(n) {
                let j = choose|j: int| 0 <= j < picked0.len() && picked0[j] == n;
            }
        }
        assert forall|j: int| 0 <= j < picked.len() implies #[trigger] entries[j] == digest(
            entry_words(sources[picked[j]], slice_index, area, parts[picked[j]])->0,
        ) by {
            if j < picked0.len() {
                assert(entries[j] == entries0[j]);
                assert(shorter[picked0[j]] == sources[picked0[j]]);
            }
        }
        assert forall|a: int, b: int| 0 <= a < b < picked.len() implies #[trigger] picked[a]
            < #[trigger] picked[b] by {
            if b < picked0.len() {
                assert(picked0[a] < picked0[b]);
            }
        }
        assert(hashes_all_behind(entries, picked, sources, parts, slice_index, area));
    }
    assert forall|k: int| 0 <= k < sources.len() implies (entry_words(
        #[trigger] sources[k],
        slice_index,
        area,
        parts[k],
    ) is Some) == (lies_behind(sources[k], parts[k], slice_index, area) && has_content(
        sources[k],
        parts[k],
    )) by {
        law_words_of_a_source(sources[k], parts[k], slice_index, area);
    }
}

/// Whether a list holds the numbers of another, each as often, in ascending order.
pub open spec fn puts_in_order(sorted: Seq<u64>, entries: Seq<u64>) -> bool {
    &&& sorted.to_multiset() == entries.to_multiset()
    &&& forall|a: int, b: int|
        0 <= a < b < sorted.len() ==> #[trigger] sorted[a] <= #[trigger] sorted[b]
}

/// The hash of a signature is that of the slice, the four edges of the captured part, and
/// the entries in ascending order: a list of the same numbers, each as often as it was.
pub proof fn law_hash_of_a_signature(
    entries: Seq<u64>,
    slice_index: usize,
    capture_rect: PictureRect,
)
    ensures
        exists|sorted: Seq<u64>| #[trigger]
            puts_in_order(sorted, entries) && signature_hash(entries, slice_index, capture_rect)
                == digest(
                seq![
                    FxWord::Usize(slice_index),
                    FxWord::U32(capture_rect.min.x.bits),
                    FxWord::U32(capture_rect.min.y.bits),
                    FxWord::U32(capture_rect.max.x.bits),
                    FxWord::U32(capture_rect.max.y.bits),
                    FxWord::U64List(sorted),
                ],
            ),
{
    let order = number_order();
    let sorted = ascending(entries);
    entries.lemma_sort_by_ensures(order);
    assert forall|a: int, b: int| 0 <= a < b < sorted.len() implies #[trigger] sorted[a]
        <= #[trigger] sorted[b] by {
        assert(order(sorted[a], sorted[b]));
    }
    assert(puts_in_order(sorted, entries));
}

} // verus!
