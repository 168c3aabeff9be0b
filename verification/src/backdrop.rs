//! What lies behind a backdrop filter in other slices, and what is copied of it.

use vstd::prelude::*;
use vstd::relations::sorted_by;
use vstd::seq_lib::lemma_sorted_unique;

use crate::fx_hash::{
    digest, fx_finish, fx_i32, fx_new, fx_u32, fx_u64, fx_u64_list, fx_usize, FxWord,
};
use crate::geometry::{DeviceIntRect, DeviceRect, PictureRect};
use crate::render_task_graph::{
    has_task, task, with_edges_to, ColorF, RenderTaskGraphBuilder, RenderTaskId, RenderTaskKind,
    ResolveSource, TextureSource,
};

verus! {

/// What a backdrop source shows.
#[derive(Clone, Copy, Debug, PartialEq, Eq, Structural)]
pub enum BackdropSourceKind {
    Texture(TextureSource),
    Color(ColorF),
}

/// A part of a slice that a backdrop filter of a later slice may read.
#[derive(Clone, Copy, Debug, PartialEq, Eq, Structural)]
pub struct BackdropSource {
    /// The slice that the source belongs to.
    pub slice_index: usize,
    /// What the source shows.
    pub kind: BackdropSourceKind,
    /// Where the source is on the device.
    pub device_rect: DeviceRect,
    /// Where the source is in its texture.
    pub surface_rect: DeviceRect,
    /// The task that draws the source in this frame, if it is drawn anew.
    pub producer_task_id: Option<RenderTaskId>,
}

/// What a backdrop filter reads of the slices behind it.
#[derive(Clone, Copy, Debug, PartialEq, Eq, Structural)]
pub struct BackdropInputSignature {
    /// A hash of the sources that are read, and of what is read of them.
    pub hash: u64,
    /// Whether one of the sources is drawn anew in this frame.
    pub has_dirty_source: bool,
}

/// Where the part of a source that is read comes from and goes to.
#[derive(Clone, Copy, Debug, PartialEq, Eq, Structural)]
pub struct SourceProjection {
    /// The part that is read, in whole pixels of where it goes.
    pub rect: DeviceIntRect,
    /// The part that is read, mapped from the device to the texture of the
    /// source and rounded to whole pixels.
    pub src_rect: DeviceIntRect,
}

/// What `mapped` shows of a source that is at `from` on the device and at `to`
/// in its texture, unless one of them covers nothing.
pub open spec fn mapped_between(
    from: DeviceRect,
    to: DeviceRect,
    mapped: DeviceIntRect,
) -> Option<DeviceIntRect> {
    if from.empty() || to.empty() || mapped.empty() {
        None
    } else {
        Some(mapped)
    }
}

/// The part of a texture that is read, where `mapped` is what the mapping from
/// `from` to `to` makes of the part of the device that is read. There is none
/// where one of them covers nothing.
pub fn map_device_rect_between(
    from: DeviceRect,
    to: DeviceRect,
    mapped: DeviceIntRect,
) -> (r: Option<DeviceIntRect>)
    ensures
        r == mapped_between(from, to, mapped),
{
    if from.is_empty() || to.is_empty() {
        return None;
    }
    if mapped.is_empty() {
        None
    } else {
        Some(mapped)
    }
}

impl BackdropSource {
    /// Whether the source lies behind the slice, and shows something of `area`
    /// in the pixels of `rect`.
    pub open spec fn shows(
        self,
        current_slice_index: usize,
        area: DeviceRect,
        rect: DeviceIntRect,
    ) -> bool {
        &&& self.slice_index < current_slice_index
        &&& area.common(self.device_rect) is Some
        &&& !rect.empty()
    }

    /// The part of its texture that is read.
    pub open spec fn texture_rect(self, projection: SourceProjection) -> Option<DeviceIntRect> {
        mapped_between(self.device_rect, self.surface_rect, projection.src_rect)
    }

    fn is_shown(
        &self,
        current_slice_index: usize,
        area: &DeviceRect,
        rect: &DeviceIntRect,
    ) -> (r: bool)
        ensures
            r == self.shows(current_slice_index, *area, *rect),
    {
        self.slice_index < current_slice_index && area.intersection(&self.device_rect).is_some()
            && !rect.is_empty()
    }
}

/// The corners of a rectangle in whole pixels, as values to hash.
pub open spec fn rect_words(rect: DeviceIntRect) -> Seq<FxWord> {
    seq![
        FxWord::I32(rect.min.x),
        FxWord::I32(rect.min.y),
        FxWord::I32(rect.max.x),
        FxWord::I32(rect.max.y),
    ]
}

/// The values that a source contributes to the signature of a backdrop filter,
/// if it contributes: its slice, the part that is read, and what is read there.
pub open spec fn entry_words(
    source: BackdropSource,
    current_slice_index: usize,
    capture_device_rect: DeviceRect,
    projection: SourceProjection,
) -> Option<Seq<FxWord>> {
    let place = seq![FxWord::Usize(source.slice_index)] + rect_words(projection.rect);
    if !source.shows(current_slice_index, capture_device_rect, projection.rect) {
        None
    } else {
        match source.kind {
            BackdropSourceKind::Texture(texture) => match source.texture_rect(projection) {
                Some(src_rect) => Some(
                    place + seq![FxWord::U64(texture.id)] + rect_words(src_rect),
                ),
                None => None,
            },
            BackdropSourceKind::Color(color) => Some(
                place + seq![
                    FxWord::U32(color.r.bits),
                    FxWord::U32(color.g.bits),
                    FxWord::U32(color.b.bits),
                    FxWord::U32(color.a.bits),
                ],
            ),
        }
    }
}

/// The hashes that the sources contribute, in turn.
pub open spec fn entry_hashes(
    sources: Seq<BackdropSource>,
    current_slice_index: usize,
    capture_device_rect: DeviceRect,
    projections: Seq<SourceProjection>,
) -> Seq<u64>
    decreases sources.len(),
{
    if sources.len() == 0 {
        Seq::empty()
    } else {
        let earlier = entry_hashes(
            sources.drop_last(),
            current_slice_index,
            capture_device_rect,
            projections,
        );
        match entry_words(
            sources.last(),
            current_slice_index,
            capture_device_rect,
            projections[sources.len() - 1],
        ) {
            Some(words) => earlier.push(digest(words)),
            None => earlier,
        }
    }
}

/// Whether a source contributes that is drawn anew in this frame.
pub open spec fn reads_dirty_source(
    sources: Seq<BackdropSource>,
    current_slice_index: usize,
    capture_device_rect: DeviceRect,
    projections: Seq<SourceProjection>,
) -> bool {
    exists|i: int|
        0 <= i < sources.len() && (#[trigger] sources[i]).producer_task_id is Some && entry_words(
            sources[i],
            current_slice_index,
            capture_device_rect,
            projections[i],
        ) is Some
}

/// The hash of what a backdrop filter reads: of its slice, of the part of its
/// picture that it captures, and of what the sources contribute, in ascending
/// order.
pub open spec fn signature_hash(
    entries: Seq<u64>,
    current_slice_index: usize,
    capture_rect: PictureRect,
) -> u64 {
    digest(
        seq![
            FxWord::Usize(current_slice_index),
            FxWord::U32(capture_rect.min.x.bits),
            FxWord::U32(capture_rect.min.y.bits),
            FxWord::U32(capture_rect.max.x.bits),
            FxWord::U32(capture_rect.max.y.bits),
            FxWord::U64List(ascending(entries)),
        ],
    )
}

/// The order of the numbers.
pub open spec fn number_order() -> spec_fn(u64, u64) -> bool {
    |a: u64, b: u64| a <= b
}

/// The numbers in ascending order.
pub open spec fn ascending(values: Seq<u64>) -> Seq<u64> {
    values.sort_by(number_order())
}

/// The hash that a source contributes to the signature of a backdrop filter, if
/// it contributes.
pub fn entry_hash(
    source: &BackdropSource,
    current_slice_index: usize,
    capture_device_rect: &DeviceRect,
    projection: &SourceProjection,
) -> (r: Option<u64>)
    ensures
        r == (match entry_words(
            *source,
            current_slice_index,
            *capture_device_rect,
            *projection,
        ) {
            Some(words) => Some(digest(words)),
            None => None,
        }),
{
    if !source.is_shown(current_slice_index, capture_device_rect, &projection.rect) {
        return None;
    }
    let mut hasher = fx_new();
    fx_usize(&mut hasher, source.slice_index);
    fx_i32(&mut hasher, projection.rect.min.x);
    fx_i32(&mut hasher, projection.rect.min.y);
    fx_i32(&mut hasher, projection.rect.max.x);
    fx_i32(&mut hasher, projection.rect.max.y);
    match source.kind {
        BackdropSourceKind::Texture(texture) => {
            let src_rect = match map_device_rect_between(
                source.device_rect,
                source.surface_rect,
                projection.src_rect,
            ) {
                Some(src_rect) => src_rect,
                None => return None,
            };
            fx_u64(&mut hasher, texture.id);
            fx_i32(&mut hasher, src_rect.min.x);
            fx_i32(&mut hasher, src_rect.min.y);
            fx_i32(&mut hasher, src_rect.max.x);
            fx_i32(&mut hasher, src_rect.max.y);
        },
        BackdropSourceKind::Color(color) => {
            fx_u32(&mut hasher, color.r.bits);
            fx_u32(&mut hasher, color.g.bits);
            fx_u32(&mut hasher, color.b.bits);
            fx_u32(&mut hasher, color.a.bits);
        },
    }
    assert(crate::fx_hash::fx_written(hasher) =~= entry_words(
        *source,
        current_slice_index,
        *capture_device_rect,
        *projection,
    )->0);
    Some(fx_finish(&hasher))
}

/// Puts a number into a list that is in ascending order.
fn insert_ascending(values: &mut Vec<u64>, value: u64)
    requires
        sorted_by(old(values)@, number_order()),
    ensures
        sorted_by(final(values)@, number_order()),
        final(values)@.to_multiset() == old(values)@.to_multiset().insert(value),
{
    let mut i: usize = 0;
    while i < values.len() && values[i] <= value
        invariant
            i <= values@.len(),
            values@ == old(values)@,
            forall|j: int| 0 <= j < i ==> #[trigger] values@[j] <= value,
        decreases values@.len() - i,
    {
        i = i + 1;
    }
    let ghost before = values@;
    values.insert(i, value);
    proof {
        let order = number_order();
        assert forall|a: int, b: int| 0 <= a < b < values@.len() implies #[trigger] order(
            values@[a],
            values@[b],
        ) by {
            let a0 = if a < i { a } else { a - 1 };
            let b0 = if b < i { b } else { b - 1 };
            if a != i && b != i {
                assert(order(before[a0], before[b0]));
            } else if a == i && b > i + 1 {
                assert(order(before[i as int], before[b0]));
            }
        }
        lemma_insert_multiset(before, i as int, value);
    }
}

/// Putting an element anywhere into a sequence adds it to the elements.
proof fn lemma_insert_multiset<A>(s: Seq<A>, i: int, value: A)
    requires
        0 <= i <= s.len(),
    ensures
        s.insert(i, value).to_multiset() == s.to_multiset().insert(value),
{
    broadcast use vstd::seq_lib::group_to_multiset_ensures;

    let longer = s.insert(i, value);
    assert(longer.remove(i) =~= s);
    assert(longer[i] == value);
    assert(longer.contains(value));
    assert(longer.to_multiset() =~= s.to_multiset().insert(value));
}

/// What a backdrop filter reads, from the hashes that the sources contribute.
pub fn signature_of_entries(
    entries: &Vec<u64>,
    current_slice_index: usize,
    capture_rect: &PictureRect,
    has_dirty_source: bool,
) -> (r: BackdropInputSignature)
    ensures
        r == (BackdropInputSignature {
            hash: signature_hash(entries@, current_slice_index, *capture_rect),
            has_dirty_source,
        }),
{
    let mut sorted: Vec<u64> = Vec::new();
    let mut i: usize = 0;
    assert(entries@.take(0) =~= Seq::<u64>::empty());
    while i < entries.len()
        invariant
            i <= entries@.len(),
            sorted_by(sorted@, number_order()),
            sorted@.to_multiset() == entries@.take(i as int).to_multiset(),
        decreases entries@.len() - i,
    {
        insert_ascending(&mut sorted, entries[i]);
        proof {
            broadcast use vstd::seq_lib::group_to_multiset_ensures;

            assert(entries@.take(i + 1) =~= entries@.take(i as int).push(entries@[i as int]));
        }
        i = i + 1;
    }
    proof {
        assert(entries@.take(entries@.len() as int) =~= entries@);
        entries@.lemma_sort_by_ensures(number_order());
        lemma_sorted_unique(sorted@, ascending(entries@), number_order());
    }
    let mut hasher = fx_new();
    fx_usize(&mut hasher, current_slice_index);
    fx_u32(&mut hasher, capture_rect.min.x.bits);
    fx_u32(&mut hasher, capture_rect.min.y.bits);
    fx_u32(&mut hasher, capture_rect.max.x.bits);
    fx_u32(&mut hasher, capture_rect.max.y.bits);
    fx_u64_list(&mut hasher, &sorted);
    assert(crate::fx_hash::fx_written(hasher) =~= seq![
        FxWord::Usize(current_slice_index),
        FxWord::U32(capture_rect.min.x.bits),
        FxWord::U32(capture_rect.min.y.bits),
        FxWord::U32(capture_rect.max.x.bits),
        FxWord::U32(capture_rect.max.y.bits),
        FxWord::U64List(ascending(entries@)),
    ]);
    BackdropInputSignature { hash: fx_finish(&hasher), has_dirty_source }
}

/// What a backdrop filter of a slice reads, where `capture_device_rect` is the
/// part of the device that it captures, and `projections` says of every source
/// which part of it that is.
pub fn backdrop_signature(
    sources: &Vec<BackdropSource>,
    current_slice_index: usize,
    capture_rect: &PictureRect,
    capture_device_rect: &DeviceRect,
    projections: &Vec<SourceProjection>,
) -> (r: BackdropInputSignature)
    requires
        projections@.len() == sources@.len(),
    ensures
        r == (BackdropInputSignature {
            hash: signature_hash(
                entry_hashes(
                    sources@,
                    current_slice_index,
                    *capture_device_rect,
                    projections@,
                ),
                current_slice_index,
                *capture_rect,
            ),
            has_dirty_source: reads_dirty_source(
                sources@,
                current_slice_index,
                *capture_device_rect,
                projections@,
            ),
        }),
{
    let mut has_dirty_source: bool = false;
    let mut entries: Vec<u64> = Vec::new();
    let mut i: usize = 0;
    assert(sources@.take(0) =~= Seq::<BackdropSource>::empty());
    while i < sources.len()
        invariant
            i <= sources@.len(),
            projections@.len() == sources@.len(),
            entries@ == entry_hashes(
                sources@.take(i as int),
                current_slice_index,
                *capture_device_rect,
                projections@,
            ),
            has_dirty_source == reads_dirty_source(
                sources@.take(i as int),
                current_slice_index,
                *capture_device_rect,
                projections@,
            ),
        decreases sources@.len() - i,
    {
        let ghost earlier = sources@.take(i as int);
        let ghost upto = sources@.take(i + 1);
        let ghost dirty_before = has_dirty_source;
        proof {
            assert(upto.drop_last() =~= earlier);
            assert(upto.last() == sources@[i as int]);
        }
        let hash = entry_hash(
            &sources[i],
            current_slice_index,
            capture_device_rect,
            &projections[i],
        );
        if let Some(hash) = hash {
            if sources[i].producer_task_id.is_some() {
                has_dirty_source = true;
            }
            entries.push(hash);
        }
        proof {
            if dirty_before {
                let j = choose|j: int|
                    0 <= j < earlier.len() && (#[trigger] earlier[j]).producer_task_id is Some
                        && entry_words(
                        earlier[j],
                        current_slice_index,
                        *capture_device_rect,
                        projections@[j],
                    ) is Some;
                assert(upto[j] == earlier[j]);
            }
            assert(upto[i as int] == sources@[i as int]);
            if reads_dirty_source(upto, current_slice_index, *capture_device_rect, projections@) {
                let j = choose|j: int|
                    0 <= j < upto.len() && (#[trigger] upto[j]).producer_task_id is Some
                        && entry_words(
                        upto[j],
                        current_slice_index,
                        *capture_device_rect,
                        projections@[j],
                    ) is Some;
                if j < i {
                    assert(earlier[j] == upto[j]);
                }
            }
        }
        i = i + 1;
    }
    assert(sources@.take(sources@.len() as int) =~= sources@);
    signature_of_entries(&entries, current_slice_index, capture_rect, has_dirty_source)
}

/// The order of the sources by slice, and by registration within a slice.
pub open spec fn source_order(sources: Seq<BackdropSource>) -> spec_fn(int, int) -> bool {
    |a: int, b: int|
        sources[a].slice_index < sources[b].slice_index || (sources[a].slice_index
            == sources[b].slice_index && a <= b)
}

/// The sources by slice, and by registration within a slice, each as its index.
pub open spec fn sources_by_slice(sources: Seq<BackdropSource>) -> Seq<int> {
    Seq::new(sources.len(), |i: int| i).sort_by(source_order(sources))
}

/// What is copied of a source.
pub open spec fn source_copy(
    source: BackdropSource,
    projection: SourceProjection,
) -> Option<ResolveSource> {
    match source.kind {
        BackdropSourceKind::Texture(texture) => match source.texture_rect(projection) {
            Some(src_rect) => Some(
                ResolveSource::Texture { source: texture, src_rect, dest_rect: projection.rect },
            ),
            None => None,
        },
        BackdropSourceKind::Color(color) => Some(
            ResolveSource::Color { color, dest_rect: projection.rect },
        ),
    }
}

/// What is copied of the sources that `order` lists, in turn: of those that lie
/// behind the slice and show something of the wanted area.
pub open spec fn source_copies(
    sources: Seq<BackdropSource>,
    order: Seq<int>,
    current_slice_index: usize,
    wanted_device_rect: DeviceRect,
    projections: Seq<SourceProjection>,
) -> Seq<ResolveSource>
    decreases order.len(),
{
    if order.len() == 0 {
        Seq::empty()
    } else {
        let earlier = source_copies(
            sources,
            order.drop_last(),
            current_slice_index,
            wanted_device_rect,
            projections,
        );
        let source = sources[order.last()];
        let projection = projections[order.last()];
        if source.shows(current_slice_index, wanted_device_rect, projection.rect) && source_copy(
            source,
            projection,
        ) is Some {
            earlier.push(source_copy(source, projection)->0)
        } else {
            earlier
        }
    }
}

/// The tasks that draw the sources that `order` lists, in turn: of those that
/// lie behind the slice and show something of the wanted area.
pub open spec fn source_producers(
    sources: Seq<BackdropSource>,
    order: Seq<int>,
    current_slice_index: usize,
    wanted_device_rect: DeviceRect,
    projections: Seq<SourceProjection>,
) -> Seq<RenderTaskId>
    decreases order.len(),
{
    if order.len() == 0 {
        Seq::empty()
    } else {
        let earlier = source_producers(
            sources,
            order.drop_last(),
            current_slice_index,
            wanted_device_rect,
            projections,
        );
        let source = sources[order.last()];
        let projection = projections[order.last()];
        if source.shows(current_slice_index, wanted_device_rect, projection.rect)
            && source.producer_task_id is Some {
            earlier.push(source.producer_task_id->0)
        } else {
            earlier
        }
    }
}

/// The numbers of a list, as integers.
pub open spec fn as_ints(values: Seq<usize>) -> Seq<int> {
    values.map_values(|i: usize| i as int)
}

/// The sources by slice, and by registration within a slice.
fn order_by_slice(sources: &Vec<BackdropSource>) -> (order: Vec<usize>)
    ensures
        as_ints(order@) == sources_by_slice(sources@),
        forall|k: int| 0 <= k < order@.len() ==> #[trigger] order@[k] < sources@.len(),
{
    let mut order: Vec<usize> = Vec::new();
    let mut i: usize = 0;
    let ghost leq = source_order(sources@);
    let ghost all = Seq::new(sources@.len(), |k: int| k);
    proof {
        assert(as_ints(order@) =~= all.take(0));
    }
    while i < sources.len()
        invariant
            i <= sources@.len(),
            leq == source_order(sources@),
            all == Seq::new(sources@.len(), |k: int| k),
            order@.len() == i,
            forall|k: int| 0 <= k < i ==> #[trigger] order@[k] < i,
            sorted_by(as_ints(order@), leq),
            as_ints(order@).to_multiset() == all.take(i as int).to_multiset(),
        decreases sources@.len() - i,
    {
        let slice_index: usize = sources[i].slice_index;
        let mut k: usize = 0;
        while k < order.len() && sources[order[k]].slice_index <= slice_index
            invariant
                k <= order@.len(),
                i < sources@.len(),
                slice_index == sources@[i as int].slice_index,
                order@.len() == i,
                forall|j: int| 0 <= j < i ==> #[trigger] order@[j] < i,
                forall|j: int|
                    0 <= j < k ==> sources@[#[trigger] order@[j] as int].slice_index
                        <= slice_index,
            decreases order@.len() - k,
        {
            k = k + 1;
        }
        let ghost before = as_ints(order@);
        order.insert(k, i);
        proof {
            let after = as_ints(order@);
            assert(after =~= before.insert(k as int, i as int));
            assert forall|a: int, b: int| 0 <= a < b < after.len() implies #[trigger] leq(
                after[a],
                after[b],
            ) by {
                let a0 = if a < k { a } else { a - 1 };
                let b0 = if b < k { b } else { b - 1 };
                if a != k && b != k {
                    assert(leq(before[a0], before[b0]));
                } else if a == k && b > k + 1 {
                    assert(leq(before[k as int], before[b0]));
                }
            }
            lemma_insert_multiset(before, k as int, i as int);
            lemma_insert_multiset(all.take(i as int), i as int, i as int);
            assert(all.take(i + 1) =~= all.take(i as int).insert(i as int, i as int));
        }
        i = i + 1;
    }
    proof {
        assert(all.take(all.len() as int) =~= all);
        all.lemma_sort_by_ensures(leq);
        lemma_sorted_unique(as_ints(order@), sources_by_slice(sources@), leq);
    }
    order
}

/// Lists what is copied of the sources into the target of a picture task, where
/// `wanted_device_rect` is the part of the device that the target shows, and
/// `projections` says of every source which part of it that is. Makes the task
/// depend on those that draw the sources.
pub fn cross_slice_resolve_sources(
    sources: &Vec<BackdropSource>,
    current_slice_index: usize,
    wanted_device_rect: &DeviceRect,
    projections: &Vec<SourceProjection>,
    resolve_task_id: RenderTaskId,
    rg_builder: &mut RenderTaskGraphBuilder,
) -> (copies: Vec<ResolveSource>)
    requires
        projections@.len() == sources@.len(),
        has_task(old(rg_builder)@, resolve_task_id),
    ensures
        task(old(rg_builder)@, resolve_task_id).kind is Picture ==> {
            &&& copies@ == source_copies(
                sources@,
                sources_by_slice(sources@),
                current_slice_index,
                *wanted_device_rect,
                projections@,
            )
            &&& final(rg_builder)@ == with_edges_to(
                old(rg_builder)@,
                resolve_task_id,
                source_producers(
                    sources@,
                    sources_by_slice(sources@),
                    current_slice_index,
                    *wanted_device_rect,
                    projections@,
                ),
            )
        },
        !(task(old(rg_builder)@, resolve_task_id).kind is Picture) ==> copies@.len() == 0
            && final(rg_builder)@ == old(rg_builder)@,
{
    let mut copies: Vec<ResolveSource> = Vec::new();
    match &rg_builder.get_task(resolve_task_id).kind {
        RenderTaskKind::Picture(_) => {},
        _ => return copies,
    }
    let order = order_by_slice(sources);
    let ghost graph = rg_builder@;
    let ghost ints = as_ints(order@);
    let mut k: usize = 0;
    proof {
        assert(ints.take(0) =~= Seq::<int>::empty());
        assert(with_edges_to(graph, resolve_task_id, Seq::empty()) =~= graph);
    }
    while k < order.len()
        invariant
            k <= order@.len(),
            ints == as_ints(order@),
            projections@.len() == sources@.len(),
            forall|j: int| 0 <= j < order@.len() ==> #[trigger] order@[j] < sources@.len(),
            has_task(graph, resolve_task_id),
            rg_builder@ == with_edges_to(
                graph,
                resolve_task_id,
                source_producers(
                    sources@,
                    ints.take(k as int),
                    current_slice_index,
                    *wanted_device_rect,
                    projections@,
                ),
            ),
            copies@ == source_copies(
                sources@,
                ints.take(k as int),
                current_slice_index,
                *wanted_device_rect,
                projections@,
            ),
        decreases order@.len() - k,
    {
        let source = sources[order[k]];
        let projection = projections[order[k]];
        proof {
            assert(ints.take(k + 1).drop_last() =~= ints.take(k as int));
            assert(ints.take(k + 1).last() == order@[k as int]);
        }
        if source.is_shown(current_slice_index, wanted_device_rect, &projection.rect) {
            if let Some(producer_task_id) = source.producer_task_id {
                let ghost earlier = source_producers(
                    sources@,
                    ints.take(k as int),
                    current_slice_index,
                    *wanted_device_rect,
                    projections@,
                );
                rg_builder.add_dependency(resolve_task_id, producer_task_id);
                assert(rg_builder@ =~= with_edges_to(
                    graph,
                    resolve_task_id,
                    earlier.push(producer_task_id),
                )) by {
                    assert((task(graph, resolve_task_id).children + earlier).push(producer_task_id)
                        =~= task(graph, resolve_task_id).children + earlier.push(
                        producer_task_id,
                    ));
                }
            }
            match source.kind {
                BackdropSourceKind::Texture(texture) => {
                    if let Some(src_rect) = map_device_rect_between(
                        source.device_rect,
                        source.surface_rect,
                        projection.src_rect,
                    ) {
                        copies.push(
                            ResolveSource::Texture {
                                source: texture,
                                src_rect,
                                dest_rect: projection.rect,
                            },
                        );
                    }
                },
                BackdropSourceKind::Color(color) => {
                    copies.push(ResolveSource::Color { color, dest_rect: projection.rect });
                },
            }
        }
        k = k + 1;
    }
    assert(ints.take(ints.len() as int) =~= ints);
    copies
}

} // verus!
