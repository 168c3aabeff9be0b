//! Command buffers, and the surfaces whose commands they hold.

use vstd::prelude::*;

use crate::geometry::PictureRect;
use crate::render_task_graph::{
    has_task, is_picture, task, Graph, RenderTaskGraphBuilder, RenderTaskId, RenderTaskKind,
};
use crate::tile::{distinct_keys, SubSliceIndex, TileKey, TileMap, TileView, Tiles, SUB_SLICE_COUNT};

verus! {

/// A command buffer.
#[derive(Clone, Copy, Debug, PartialEq, Eq, Hash, Structural)]
pub struct CommandBufferIndex(pub usize);

/// The commands of a buffer, each as one word.
pub struct CommandBuffer {
    pub commands: Vec<u32>,
}

/// The command buffers of a frame.
pub struct CommandBufferList {
    cmd_buffers: Vec<CommandBuffer>,
}

impl View for CommandBufferList {
    type V = Seq<Seq<u32>>;

    closed spec fn view(&self) -> Seq<Seq<u32>> {
        Seq::new(self.cmd_buffers@.len(), |i: int| self.cmd_buffers@[i].commands@)
    }
}

impl CommandBufferList {
    /// A frame without command buffers.
    pub fn new() -> (r: Self)
        ensures
            r@ == Seq::<Seq<u32>>::empty(),
    {
        let r = CommandBufferList { cmd_buffers: Vec::new() };
        assert(r@ =~= Seq::<Seq<u32>>::empty());
        r
    }

    /// The number of buffers.
    pub fn len(&self) -> (r: usize)
        ensures
            r == self@.len(),
    {
        self.cmd_buffers.len()
    }

    /// Adds a buffer without commands, under the next index.
    pub fn create_cmd_buffer(&mut self) -> (index: CommandBufferIndex)
        ensures
            index.0 == old(self)@.len(),
            final(self)@ == old(self)@.push(Seq::empty()),
    {
        let index = CommandBufferIndex(self.cmd_buffers.len());
        self.cmd_buffers.push(CommandBuffer { commands: Vec::new() });
        assert(self@ =~= old(self)@.push(Seq::empty()));
        index
    }
}

/// The tasks that a surface is drawn by.
pub enum CommandBufferBuilderKind {
    /// One task or more for every tile.
    Tiled { tiles: TileMap },
    /// One task, and the output of the chain of tasks that filters it, if there
    /// is one.
    Simple {
        render_task_id: RenderTaskId,
        root_task_id: Option<RenderTaskId>,
        dirty_rect: PictureRect,
    },
    /// None: the surface is not drawn.
    Invalid,
}

/// A [`CommandBufferBuilderKind`], with a sequence for its tiles.
#[verifier::ext_equal]
pub enum BuilderKindView {
    Tiled { tiles: Tiles },
    Simple {
        render_task_id: RenderTaskId,
        root_task_id: Option<RenderTaskId>,
        dirty_rect: PictureRect,
    },
    Invalid,
}

impl View for CommandBufferBuilderKind {
    type V = BuilderKindView;

    open spec fn view(&self) -> BuilderKindView {
        match *self {
            CommandBufferBuilderKind::Tiled { tiles } => BuilderKindView::Tiled { tiles: tiles@ },
            CommandBufferBuilderKind::Simple { render_task_id, root_task_id, dirty_rect } => {
                BuilderKindView::Simple { render_task_id, root_task_id, dirty_rect }
            },
            CommandBufferBuilderKind::Invalid => BuilderKindView::Invalid,
        }
    }
}

impl BuilderKindView {
    /// The tiles of the surface, of which only a tiled one has any.
    pub open spec fn tiles(self) -> Tiles {
        match self {
            BuilderKindView::Tiled { tiles } => tiles,
            _ => Seq::empty(),
        }
    }

    /// The output of a simple surface: that of the chain which filters it, or
    /// else its own.
    pub open spec fn output_task(self) -> RenderTaskId {
        match self->root_task_id {
            Some(id) => id,
            None => self->render_task_id,
        }
    }
}

/// A surface that commands are being added to.
pub struct CommandBufferBuilder {
    /// The tasks that draw the surface.
    pub kind: CommandBufferBuilderKind,
    /// Whether the surface is the root of a sub-graph, which reads back what has
    /// been drawn on its parent.
    pub establishes_sub_graph: bool,
    /// The task within the sub-graph that the parent is copied to, and the part
    /// of the parent that is read.
    pub resolve_source: Option<(RenderTaskId, PictureRect)>,
    /// Tasks that the finished surface needs besides.
    pub extra_dependencies: Vec<RenderTaskId>,
}

/// A [`CommandBufferBuilder`], with sequences for its lists.
#[verifier::ext_equal]
pub struct BuilderView {
    pub kind: BuilderKindView,
    pub establishes_sub_graph: bool,
    pub resolve_source: Option<(RenderTaskId, PictureRect)>,
    pub extra_dependencies: Seq<RenderTaskId>,
}

impl View for CommandBufferBuilder {
    type V = BuilderView;

    open spec fn view(&self) -> BuilderView {
        BuilderView {
            kind: self.kind@,
            establishes_sub_graph: self.establishes_sub_graph,
            resolve_source: self.resolve_source,
            extra_dependencies: self.extra_dependencies@,
        }
    }
}

/// Whether no task composites two of the tiles.
pub open spec fn distinct_composites(tiles: Tiles) -> bool {
    forall|i: int, j: int|
        #![trigger tiles[i], tiles[j]]
        0 <= i < j < tiles.len() && tiles[i].1.composite_task_id is Some
            ==> tiles[i].1.composite_task_id != tiles[j].1.composite_task_id
}

/// Whether the tiles of a surface are what they have to be.
pub open spec fn tiles_wf(tiles: Tiles, graph: Graph) -> bool {
    &&& distinct_keys(tiles)
    &&& distinct_composites(tiles)
    &&& forall|i: int|
        0 <= i < tiles.len() ==> (#[trigger] tiles[i]).1.wf(graph)
            && tiles[i].0.sub_slice_index.in_range()
}

impl BuilderView {
    /// A surface that has just been started.
    pub open spec fn started(kind: BuilderKindView, establishes_sub_graph: bool) -> Self {
        BuilderView {
            kind,
            establishes_sub_graph,
            resolve_source: None,
            extra_dependencies: Seq::empty(),
        }
    }

    /// Whether the tasks of the surface are what they have to be, and only a
    /// simple surface is the root of a sub-graph.
    pub open spec fn wf(self, graph: Graph) -> bool {
        &&& match self.kind {
            BuilderKindView::Tiled { tiles } => tiles_wf(tiles, graph)
                && !self.establishes_sub_graph,
            BuilderKindView::Simple { render_task_id, root_task_id, .. } => {
                &&& is_picture(graph, render_task_id)
                &&& root_task_id matches Some(id) ==> has_task(graph, id)
            },
            BuilderKindView::Invalid => !self.establishes_sub_graph,
        }
        &&& self.resolve_source matches Some(source) ==> is_picture(graph, source.0)
        &&& forall|i: int|
            0 <= i < self.extra_dependencies.len() ==> has_task(
                graph,
                #[trigger] self.extra_dependencies[i],
            )
    }
}

impl CommandBufferBuilder {
    /// A surface that is not drawn.
    pub fn empty() -> (r: Self)
        ensures
            r@ == BuilderView::started(BuilderKindView::Invalid, false),
    {
        CommandBufferBuilder {
            kind: CommandBufferBuilderKind::Invalid,
            establishes_sub_graph: false,
            resolve_source: None,
            extra_dependencies: Vec::new(),
        }
    }

    /// A surface that is drawn by its tiles.
    pub fn new_tiled(tiles: TileMap) -> (r: Self)
        ensures
            r@ == BuilderView::started(BuilderKindView::Tiled { tiles: tiles@ }, false),
    {
        CommandBufferBuilder {
            kind: CommandBufferBuilderKind::Tiled { tiles },
            establishes_sub_graph: false,
            resolve_source: None,
            extra_dependencies: Vec::new(),
        }
    }

    /// A surface that is drawn by one task.
    pub fn new_simple(
        render_task_id: RenderTaskId,
        establishes_sub_graph: bool,
        root_task_id: Option<RenderTaskId>,
        dirty_rect: PictureRect,
    ) -> (r: Self)
        ensures
            r@ == BuilderView::started(
                BuilderKindView::Simple { render_task_id, root_task_id, dirty_rect },
                establishes_sub_graph,
            ),
    {
        CommandBufferBuilder {
            kind: CommandBufferBuilderKind::Simple { render_task_id, root_task_id, dirty_rect },
            establishes_sub_graph,
            resolve_source: None,
            extra_dependencies: Vec::new(),
        }
    }
}

/// A buffer that commands for a surface may go to.
#[derive(Clone, Copy, Debug, PartialEq, Eq, Structural)]
pub struct CommandTarget {
    /// What is drawn from the buffer.
    pub dirty_rect: PictureRect,
    /// The buffer.
    pub cmd_buffer_index: CommandBufferIndex,
    /// The tile that the buffer draws, if it draws one.
    pub tile_key: Option<TileKey>,
}

/// The buffers that commands may go to, for every sub-slice.
pub type Targets = Seq<Seq<CommandTarget>>;

/// The buffer that commands for a tile go to.
pub open spec fn tile_target(graph: Graph, tile: (TileKey, TileView)) -> CommandTarget {
    CommandTarget {
        dirty_rect: tile.1.dirty_rect,
        cmd_buffer_index: task(graph, tile.1.current_task_id).picture().cmd_buffer_index,
        tile_key: Some(tile.0),
    }
}

/// The buffers of the tiles of a sub-slice.
pub open spec fn tile_targets(graph: Graph, tiles: Tiles, sub_slice: int) -> Seq<CommandTarget> {
    tiles.filter(|t: (TileKey, TileView)| t.0.sub_slice_index.0 == sub_slice).map_values(
        |t: (TileKey, TileView)| tile_target(graph, t),
    )
}

/// The buffers that commands for a surface may go to: those of the tiles of each
/// sub-slice, or the one of a simple surface for every sub-slice.
pub open spec fn surface_targets(graph: Graph, kind: BuilderKindView) -> Targets {
    Seq::new(
        SUB_SLICE_COUNT as nat,
        |s: int|
            match kind {
                BuilderKindView::Tiled { tiles } => tile_targets(graph, tiles, s),
                BuilderKindView::Simple { render_task_id, dirty_rect, .. } => seq![
                    CommandTarget {
                        dirty_rect,
                        cmd_buffer_index: task(graph, render_task_id).picture().cmd_buffer_index,
                        tile_key: None,
                    },
                ],
                BuilderKindView::Invalid => Seq::empty(),
            },
    )
}

/// The targets among `targets` that draw a part of `rect`.
pub open spec fn targets_for_rect(
    targets: Seq<CommandTarget>,
    rect: PictureRect,
) -> Seq<CommandTarget> {
    targets.filter(|t: CommandTarget| t.dirty_rect.overlaps(rect))
}

/// The buffers of the targets.
pub open spec fn target_buffers(targets: Seq<CommandTarget>) -> Seq<CommandBufferIndex> {
    targets.map_values(|t: CommandTarget| t.cmd_buffer_index)
}

/// The tiles of those targets that draw one.
pub open spec fn target_keys(targets: Seq<CommandTarget>) -> Seq<TileKey> {
    targets.filter(|t: CommandTarget| t.tile_key is Some).map_values(
        |t: CommandTarget| t.tile_key->0,
    )
}

/// Filtering a sequence that is one longer.
pub proof fn lemma_filter_take<A>(s: Seq<A>, n: int, keep: spec_fn(A) -> bool)
    requires
        0 <= n < s.len(),
    ensures
        s.take(n + 1).filter(keep) == (if keep(s[n]) {
            s.take(n).filter(keep).push(s[n])
        } else {
            s.take(n).filter(keep)
        }),
{
    reveal(Seq::filter);
    assert(s.take(n + 1).drop_last() =~= s.take(n));
    assert(s.take(n + 1).last() == s[n]);
}

/// Filtering nothing.
pub proof fn lemma_filter_none<A>(s: Seq<A>, keep: spec_fn(A) -> bool)
    ensures
        s.take(0).filter(keep) == Seq::<A>::empty(),
        s.take(s.len() as int) == s,
{
    reveal(Seq::filter);
    assert(s.take(0).filter(keep) =~= Seq::<A>::empty());
    assert(s.take(s.len() as int) =~= s);
}

/// The buffers that commands for the current surface may go to.
pub struct CommandBufferTargets {
    available_cmd_buffers: Vec<Vec<CommandTarget>>,
}

impl View for CommandBufferTargets {
    type V = Targets;

    closed spec fn view(&self) -> Targets {
        Seq::new(self.available_cmd_buffers@.len(), |s: int| self.available_cmd_buffers@[s]@)
    }
}

impl CommandBufferTargets {
    /// No buffers, for any sub-slice.
    pub fn new() -> (r: Self)
        ensures
            r@ == Seq::new(SUB_SLICE_COUNT as nat, |s: int| Seq::<CommandTarget>::empty()),
    {
        let mut available_cmd_buffers: Vec<Vec<CommandTarget>> = Vec::new();
        while available_cmd_buffers.len() < SUB_SLICE_COUNT
            invariant
                available_cmd_buffers@.len() <= SUB_SLICE_COUNT,
                forall|s: int|
                    0 <= s < available_cmd_buffers@.len() ==> (
                    #[trigger] available_cmd_buffers@[s])@ == Seq::<CommandTarget>::empty(),
            decreases SUB_SLICE_COUNT - available_cmd_buffers@.len(),
        {
            available_cmd_buffers.push(Vec::new());
        }
        let r = CommandBufferTargets { available_cmd_buffers };
        assert(r@ =~= Seq::new(
            SUB_SLICE_COUNT as nat,
            |s: int| Seq::<CommandTarget>::empty(),
        ));
        r
    }

    /// Forgets all buffers.
    fn clear(&mut self)
        requires
            old(self)@.len() == SUB_SLICE_COUNT,
        ensures
            final(self)@.len() == SUB_SLICE_COUNT,
            forall|s: int|
                0 <= s < SUB_SLICE_COUNT ==> #[trigger] final(self)@[s] == Seq::<
                    CommandTarget,
                >::empty(),
    {
        let mut s: usize = 0;
        while s < SUB_SLICE_COUNT
            invariant
                s <= SUB_SLICE_COUNT,
                self@.len() == SUB_SLICE_COUNT,
                forall|t: int|
                    0 <= t < s ==> #[trigger] self@[t] == Seq::<CommandTarget>::empty(),
            decreases SUB_SLICE_COUNT - s,
        {
            let ghost before = self@;
            self.available_cmd_buffers[s].clear();
            assert(self@ =~= before.update(s as int, Seq::empty()));
            s = s + 1;
        }
    }

    /// Adds a buffer for a sub-slice.
    fn push(&mut self, sub_slice: usize, target: CommandTarget)
        requires
            sub_slice < old(self)@.len(),
        ensures
            final(self)@ == old(self)@.update(
                sub_slice as int,
                old(self)@[sub_slice as int].push(target),
            ),
    {
        self.available_cmd_buffers[sub_slice].push(target);
        assert(self@ =~= old(self)@.update(
            sub_slice as int,
            old(self)@[sub_slice as int].push(target),
        ));
    }

    /// Takes the buffers of a surface in place of the present ones.
    pub fn init(&mut self, cb: &CommandBufferBuilder, rg_builder: &RenderTaskGraphBuilder)
        requires
            old(self)@.len() == SUB_SLICE_COUNT,
            cb@.wf(rg_builder@),
        ensures
            final(self)@ == surface_targets(rg_builder@, cb@.kind),
    {
        let ghost graph = rg_builder@;
        self.clear();
        match &cb.kind {
            CommandBufferBuilderKind::Tiled { tiles } => {
                let ghost make = |t: (TileKey, TileView)| tile_target(graph, t);
                let mut i: usize = 0;
                proof {
                    assert forall|s: int| 0 <= s < SUB_SLICE_COUNT implies #[trigger] self@[s]
                        == tile_targets(graph, tiles@.take(0), s) by {
                        lemma_filter_none(
                            tiles@,
                            |t: (TileKey, TileView)| t.0.sub_slice_index.0 == s,
                        );
                        assert(self@[s] =~= tile_targets(graph, tiles@.take(0), s));
                    }
                }
                while i < tiles.len()
                    invariant
                        i <= tiles@.len(),
                        graph == rg_builder@,
                        tiles_wf(tiles@, graph),
                        self@.len() == SUB_SLICE_COUNT,
                        forall|s: int|
                            0 <= s < SUB_SLICE_COUNT ==> #[trigger] self@[s] == tile_targets(
                                graph,
                                tiles@.take(i as int),
                                s,
                            ),
                    decreases tiles@.len() - i,
                {
                    let ghost before = self@;
                    let key = tiles.key_at(i);
                    let tile = tiles.tile_at(i);
                    assert(tiles@[i as int].1.wf(graph));
                    match &rg_builder.get_task(tile.current_task_id).kind {
                        RenderTaskKind::Picture(info) => {
                            let target = CommandTarget {
                                dirty_rect: tile.dirty_rect,
                                cmd_buffer_index: info.cmd_buffer_index,
                                tile_key: Some(key),
                            };
                            assert(target == tile_target(graph, tiles@[i as int]));
                            self.push(key.sub_slice_index.as_usize(), target);
                        },
                        _ => {
                            assert(false);
                        },
                    }
                    proof {
                        assert forall|s: int| 0 <= s < SUB_SLICE_COUNT implies #[trigger] self@[s]
                            == tile_targets(graph, tiles@.take(i + 1), s) by {
                            lemma_filter_take(
                                tiles@,
                                i as int,
                                |t: (TileKey, TileView)| t.0.sub_slice_index.0 == s,
                            );
                            assert(before[s] == tile_targets(graph, tiles@.take(i as int), s));
                            assert(self@[s] =~= tile_targets(graph, tiles@.take(i + 1), s));
                        }
                    }
                    i = i + 1;
                }
                assert(tiles@.take(tiles@.len() as int) =~= tiles@);
            },
            CommandBufferBuilderKind::Simple { render_task_id, dirty_rect, .. } => {
                match &rg_builder.get_task(*render_task_id).kind {
                    RenderTaskKind::Picture(info) => {
                        let target = CommandTarget {
                            dirty_rect: *dirty_rect,
                            cmd_buffer_index: info.cmd_buffer_index,
                            tile_key: None,
                        };
                        let mut s: usize = 0;
                        while s < SUB_SLICE_COUNT
                            invariant
                                s <= SUB_SLICE_COUNT,
                                self@.len() == SUB_SLICE_COUNT,
                                forall|t: int|
                                    0 <= t < s ==> #[trigger] self@[t] == seq![target],
                                forall|t: int|
                                    s <= t < SUB_SLICE_COUNT ==> #[trigger] self@[t] == Seq::<
                                        CommandTarget,
                                    >::empty(),
                            decreases SUB_SLICE_COUNT - s,
                        {
                            self.push(s, target);
                            assert(Seq::<CommandTarget>::empty().push(target) =~= seq![target]);
                            s = s + 1;
                        }
                    },
                    _ => {
                        assert(false);
                    },
                }
            },
            CommandBufferBuilderKind::Invalid => {},
        }
        assert(self@ =~= surface_targets(rg_builder@, cb@.kind));
    }

    /// For a given rect and sub-slice, lists the command buffers to write
    /// commands to, and the tiles among what they draw. Tells whether any
    /// buffer is listed.
    pub fn get_cmd_buffer_targets_for_rect(
        &self,
        rect: &PictureRect,
        sub_slice_index: SubSliceIndex,
        targets: &mut Vec<CommandBufferIndex>,
        tile_keys: &mut Vec<TileKey>,
    ) -> (r: bool)
        requires
            self@.len() == SUB_SLICE_COUNT,
            sub_slice_index.in_range(),
        ensures
            final(targets)@ == old(targets)@ + target_buffers(
                targets_for_rect(self@[sub_slice_index.0 as int], *rect),
            ),
            final(tile_keys)@ == old(tile_keys)@ + target_keys(
                targets_for_rect(self@[sub_slice_index.0 as int], *rect),
            ),
            r == (final(targets)@.len() > 0),
    {
        let s: usize = sub_slice_index.as_usize();
        let ghost available = self@[s as int];
        let ghost near = |t: CommandTarget| t.dirty_rect.overlaps(*rect);
        let ghost tiled = |t: CommandTarget| t.tile_key is Some;
        let ghost targets0 = targets@;
        let ghost keys0 = tile_keys@;
        let mut i: usize = 0;
        proof {
            lemma_filter_none(available, near);
            lemma_filter_none(Seq::<CommandTarget>::empty(), tiled);
            assert(targets_for_rect(available.take(0), *rect) =~= Seq::<CommandTarget>::empty());
            assert(Seq::<CommandTarget>::empty().take(0) =~= Seq::<CommandTarget>::empty());
            assert(targets0 + target_buffers(targets_for_rect(available.take(0), *rect))
                =~= targets0);
            assert(keys0 + target_keys(targets_for_rect(available.take(0), *rect)) =~= keys0);
        }
        while i < self.available_cmd_buffers[s].len()
            invariant
                s == sub_slice_index.0,
                s < self@.len(),
                available == self@[s as int],
                available == self.available_cmd_buffers@[s as int]@,
                i <= available.len(),
                near == (|t: CommandTarget| t.dirty_rect.overlaps(*rect)),
                tiled == (|t: CommandTarget| t.tile_key is Some),
                targets@ == targets0 + target_buffers(
                    targets_for_rect(available.take(i as int), *rect),
                ),
                tile_keys@ == keys0 + target_keys(
                    targets_for_rect(available.take(i as int), *rect),
                ),
            decreases available.len() - i,
        {
            let target = self.available_cmd_buffers[s][i];
            let ghost hits = targets_for_rect(available.take(i as int), *rect);
            proof {
                assert(target == available[i as int]);
                lemma_filter_take(available, i as int, near);
            }
            if target.dirty_rect.intersects(rect) {
                targets.push(target.cmd_buffer_index);
                proof {
                    let more = hits.push(target);
                    assert(targets_for_rect(available.take(i + 1), *rect) == more);
                    lemma_filter_take(more, hits.len() as int, tiled);
                    assert(more.take(hits.len() as int) =~= hits);
                    assert(more.take(hits.len() as int + 1) =~= more);
                    assert(target_buffers(more) =~= target_buffers(hits).push(
                        target.cmd_buffer_index,
                    ));
                    assert(target_keys(more) =~= (if target.tile_key is Some {
                        target_keys(hits).push(target.tile_key->0)
                    } else {
                        target_keys(hits)
                    }));
                    assert(targets@ =~= targets0 + target_buffers(more));
                }
                if let Some(tile_key) = target.tile_key {
                    tile_keys.push(tile_key);
                    assert(tile_keys@ =~= keys0 + target_keys(hits.push(target)));
                }
            }
            i = i + 1;
        }
        assert(available.take(available.len() as int) =~= available);
        targets.len() > 0
    }
}

} // verus!
