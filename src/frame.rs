//! Assembly of a frame: the ordered, flat lists of drawables and lights.
use vstd::prelude::*;
use crate::camera::{camera_choice, RenderError};
use crate::collect::{
    advance_clock, advance_clocks, candidates_below, collected, depth_is, depth_item, is_candidate,
    sort_by_depth, stable_depth_sort_of, EntityDepthItem,
};
use crate::resolve::{
    drawables_on, light_items, placed_depth, resolved, suppressed, DrawItem, LightItem,
};
use crate::scene::AnimationClock;
use crate::scene::{nth_ancestor, Scene, SceneView};

verus! {

/// Everything the rasterizer needs for one frame.
pub struct FramePlan {
    /// The entity whose camera the frame is drawn through.
    pub camera: usize,
    /// The work list, in drawing order.
    pub order: Vec<EntityDepthItem>,
    /// The drawables, in drawing order.
    pub drawables: Vec<DrawItem>,
    /// The lights, in drawing order.
    pub lights: Vec<LightItem>,
}

/// Whether entity `e` is drawn: it is neither suppressed nor marked not active, and it
/// has a transform.
pub open spec fn shown(v: SceneView, e: usize) -> bool {
    placed_depth(v, e) is Some
}

/// The drawables that entity `e` adds to a frame.
pub open spec fn drawables_of(v: SceneView, e: usize) -> Seq<DrawItem> {
    if shown(v, e) {
        drawables_on(v, e)
    } else {
        seq![]
    }
}

/// The lights that entity `e` adds to a frame.
pub open spec fn lights_of(v: SceneView, e: usize) -> Seq<LightItem> {
    if shown(v, e) {
        light_items(e, v.nodes[e as int].lights.kinds_spec())
    } else {
        seq![]
    }
}

/// The drawables of a frame: those of each entry of `order`, in turn.
pub open spec fn frame_drawables(v: SceneView, order: Seq<EntityDepthItem>) -> Seq<DrawItem>
    decreases order.len(),
{
    if order.len() == 0 {
        seq![]
    } else {
        frame_drawables(v, order.drop_last()) + drawables_of(v, order.last().entity)
    }
}

/// The lights of a frame: those of each entry of `order`, in turn.
pub open spec fn frame_lights(v: SceneView, order: Seq<EntityDepthItem>) -> Seq<LightItem>
    decreases order.len(),
{
    if order.len() == 0 {
        seq![]
    } else {
        frame_lights(v, order.drop_last()) + lights_of(v, order.last().entity)
    }
}

/// `p` is the frame of `v` drawn through `camera`.
pub open spec fn plan_of(v: SceneView, camera: usize, p: FramePlan) -> bool {
    &&& p.camera == camera
    &&& stable_depth_sort_of(p.order@, collected(v))
    &&& p.drawables@ == frame_drawables(v, p.order@)
    &&& p.lights@ == frame_lights(v, p.order@)
}

proof fn lemma_frame_split(v: SceneView, a: Seq<EntityDepthItem>, b: Seq<EntityDepthItem>)
    ensures
        frame_drawables(v, a + b) == frame_drawables(v, a) + frame_drawables(v, b),
        frame_lights(v, a + b) == frame_lights(v, a) + frame_lights(v, b),
    decreases b.len(),
{
    if b.len() == 0 {
        assert(a + b =~= a);
        assert(frame_drawables(v, a) + frame_drawables(v, b) =~= frame_drawables(v, a));
        assert(frame_lights(v, a) + frame_lights(v, b) =~= frame_lights(v, a));
    } else {
        assert((a + b).drop_last() =~= a + b.drop_last());
        assert((a + b).last() == b.last());
        lemma_frame_split(v, a, b.drop_last());
        assert(frame_drawables(v, a + b) =~= frame_drawables(v, a) + frame_drawables(v, b));
        assert(frame_lights(v, a + b) =~= frame_lights(v, a) + frame_lights(v, b));
    }
}

/// Of two entries of the work list, the shallower one's drawables all come before the
/// deeper one's in the frame, and so do its lights.
pub proof fn lemma_frame_follows_depth(v: SceneView, order: Seq<EntityDepthItem>, i: int, j: int)
    requires
        v.wf(),
        stable_depth_sort_of(order, collected(v)),
        0 <= i < order.len(),
        0 <= j < order.len(),
        order[i].depth < order[j].depth,
    ensures
        exists|a: Seq<DrawItem>, b: Seq<DrawItem>, c: Seq<DrawItem>|
            frame_drawables(v, order) == a + drawables_of(v, order[i].entity) + b + drawables_of(
                v,
                order[j].entity,
            ) + c,
        exists|a: Seq<LightItem>, b: Seq<LightItem>, c: Seq<LightItem>|
            frame_lights(v, order) == a + lights_of(v, order[i].entity) + b + lights_of(
                v,
                order[j].entity,
            ) + c,
{
    if j < i {
        assert(order[j].depth <= order[i].depth);
    }
    let p = order.take(i);
    let x = seq![order[i]];
    let q = order.subrange(i + 1, j);
    let y = seq![order[j]];
    let r = order.skip(j + 1);
    assert(order =~= p + x + q + y + r);
    lemma_frame_split(v, p + x + q + y, r);
    lemma_frame_split(v, p + x + q, y);
    lemma_frame_split(v, p + x, q);
    lemma_frame_split(v, p, x);
    assert(x.drop_last() =~= Seq::<EntityDepthItem>::empty());
    assert(x.last() == order[i]);
    assert(frame_drawables(v, Seq::<EntityDepthItem>::empty()) =~= Seq::<DrawItem>::empty());
    assert(frame_lights(v, Seq::<EntityDepthItem>::empty()) =~= Seq::<LightItem>::empty());
    assert(y.drop_last() =~= Seq::<EntityDepthItem>::empty());
    assert(frame_drawables(v, x) =~= drawables_of(v, order[i].entity));
    assert(frame_drawables(v, y) =~= drawables_of(v, order[j].entity));
    assert(frame_lights(v, x) =~= lights_of(v, order[i].entity));
    assert(frame_lights(v, y) =~= lights_of(v, order[j].entity));
    assert(frame_drawables(v, order) == frame_drawables(v, p) + drawables_of(v, order[i].entity)
        + frame_drawables(v, q) + drawables_of(v, order[j].entity) + frame_drawables(v, r));
    assert(frame_lights(v, order) == frame_lights(v, p) + lights_of(v, order[i].entity)
        + frame_lights(v, q) + lights_of(v, order[j].entity) + frame_lights(v, r));
}

/// Entries of the work list in discovery order name the candidate entities in ascending
/// order, each with its depth.
pub proof fn lemma_collected(v: SceneView)
    requires
        v.wf(),
    ensures
        forall|i: int, j: int|
            0 <= i < j < collected(v).len() ==> (#[trigger] collected(v)[i]).entity < (
            #[trigger] collected(v)[j]).entity,
        forall|k: int|
            0 <= k < collected(v).len() ==> {
                &&& v.valid((#[trigger] collected(v)[k]).entity as int)
                &&& is_candidate(v.nodes[collected(v)[k].entity as int])
                &&& collected(v)[k] == depth_item(v, collected(v)[k].entity)
            },
        forall|e: usize|
            v.valid(e as int) && is_candidate(v.nodes[e as int]) ==> collected(v).contains(
                #[trigger] depth_item(v, e),
            ),
{
    crate::collect::lemma_candidates_below(v, v.len());
    let c = candidates_below(v, v.len());
    let s = collected(v);
    assert forall|i: int, j: int| 0 <= i < j < s.len() implies (#[trigger] s[i]).entity < (
    #[trigger] s[j]).entity by {
        assert(s[i].entity == c[i] && s[j].entity == c[j]);
    }
    assert forall|e: usize| v.valid(e as int) && is_candidate(v.nodes[e as int]) implies s.contains(
        #[trigger] depth_item(v, e),
    ) by {
        assert(c.contains(e));
        let i = choose|i: int| 0 <= i < c.len() && c[i] == e;
        assert(s[i] == depth_item(v, e));
    }
}

/// The work list of a frame lists each entity that carries a drawable, a light or a blend
/// component once, with its depth, in ascending depth (strictly ascending between
/// different depths); entities of equal depth come in the order in which they are
/// discovered, that is by ascending entity.
pub proof fn lemma_depth_ordering(v: SceneView, order: Seq<EntityDepthItem>)
    requires
        v.wf(),
        stable_depth_sort_of(order, collected(v)),
    ensures
        forall|i: int, j: int|
            0 <= i < j < order.len() ==> (#[trigger] order[i]).depth <= (#[trigger] order[j]).depth,
        forall|i: int, j: int|
            0 <= i < j < order.len() && (#[trigger] order[i]).depth == (#[trigger] order[j]).depth
                ==> order[i].entity < order[j].entity,
        forall|k: int|
            0 <= k < order.len() ==> {
                &&& v.valid((#[trigger] order[k]).entity as int)
                &&& is_candidate(v.nodes[order[k].entity as int])
                &&& order[k] == depth_item(v, order[k].entity)
            },
        forall|e: usize|
            v.valid(e as int) && is_candidate(v.nodes[e as int]) ==> order.contains(
                #[trigger] depth_item(v, e),
            ),
{
    lemma_collected(v);
    let s = collected(v);
    crate::collect::lemma_stable_depth_sort_members(order, s);
    assert forall|k: int| 0 <= k < order.len() implies {
        &&& v.valid((#[trigger] order[k]).entity as int)
        &&& is_candidate(v.nodes[order[k].entity as int])
        &&& order[k] == depth_item(v, order[k].entity)
    } by {
        assert(order.contains(order[k]));
        let i = choose|i: int| 0 <= i < s.len() && s[i] == order[k];
    }
    assert forall|e: usize| v.valid(e as int) && is_candidate(v.nodes[e as int]) implies order.contains(
        #[trigger] depth_item(v, e),
    ) by {
        assert(s.contains(depth_item(v, e)));
    }
    assert forall|i: int, j: int|
        0 <= i < j < order.len() && (#[trigger] order[i]).depth == (#[trigger] order[j]).depth
        implies order[i].entity < order[j].entity by {
        let d = order[i].depth;
        crate::collect::lemma_filter_keeps_order(order, d, i, j);
        crate::collect::lemma_filter_ascending(s, d);
        assert(order.filter(depth_is(d)) == s.filter(depth_is(d)));
        let (a, b) = choose|a: int, b: int|
            0 <= a < b < order.filter(depth_is(d)).len() && order.filter(depth_is(d))[a] == order[i]
                && order.filter(depth_is(d))[b] == order[j];
        assert(s.filter(depth_is(d))[a].entity < s.filter(depth_is(d))[b].entity);
    }
}

proof fn lemma_nth_ancestor_valid(v: SceneView, e: usize, k: nat)
    requires
        v.wf(),
        v.valid(e as int),
    ensures
        nth_ancestor(v, e, k) matches Some(a) ==> v.valid(a as int),
    decreases k,
{
    if k > 0 {
        match v.nodes[e as int].parent {
            Some(p) => lemma_nth_ancestor_valid(v, p, (k - 1) as nat),
            None => {},
        }
    }
}

proof fn lemma_marked_ancestor_suppresses(v: SceneView, e: usize, a: usize, k: nat, steps: nat)
    requires
        v.wf(),
        v.valid(e as int),
        1 <= k <= steps,
        nth_ancestor(v, e, k) == Some(a),
        v.valid(a as int),
        v.nodes[a as int].not_active,
    ensures
        suppressed(v, e, steps, v.len()),
    decreases k,
{
    assert(v.nodes[e as int].parent is Some);
    let p = v.nodes[e as int].parent->0;
    assert(v.valid(p as int));
    assert(nth_ancestor(v, p, (k - 1) as nat) == Some(a));
    if k > 1 {
        lemma_marked_ancestor_suppresses(v, p, a, (k - 1) as nat, (steps - 1) as nat);
    } else {
        assert(p == a);
    }
}

/// An entity under an ancestor marked not active, however deep, adds no drawable and no
/// light to a frame, and is not placed.
pub proof fn lemma_suppression(v: SceneView, e: usize, a: usize, k: nat)
    requires
        v.wf(),
        v.valid(e as int),
        1 <= k,
        nth_ancestor(v, e, k) == Some(a),
        v.nodes[a as int].not_active,
    ensures
        drawables_of(v, e) == Seq::<DrawItem>::empty(),
        lights_of(v, e) == Seq::<LightItem>::empty(),
        placed_depth(v, e) is None,
        drawables_on(v, e) == Seq::<DrawItem>::empty(),
{
    crate::scene::lemma_nth_ancestor_bounded(v, e, k);
    lemma_nth_ancestor_valid(v, e, k);
    lemma_marked_ancestor_suppresses(v, e, a, k, v.len());
}

/// An entity with a transform, not marked not active and with no ancestor that is marked
/// or resolves as a blend composite, adds what it resolves to and its lights to a frame.
pub proof fn lemma_unsuppressed_renders(v: SceneView, e: usize)
    requires
        v.wf(),
        v.valid(e as int),
        !suppressed(v, e, v.len(), v.len()),
        !v.nodes[e as int].not_active,
        v.nodes[e as int].depth is Some,
    ensures
        drawables_of(v, e) == resolved(v, e, v.len()),
        lights_of(v, e) == light_items(e, v.nodes[e as int].lights.kinds_spec()),
{
}

/// Setting the animation cursors twice to the same session time leaves them as setting
/// them once: planning a frame again at the same time advances nothing further, and
/// since planning keeps the scene's entities and hierarchy, it plans the same frame.
pub proof fn lemma_repeat_frame(clocks: Seq<AnimationClock>, total_time: i64)
    ensures
        advance_clocks(advance_clocks(clocks, total_time), total_time) == advance_clocks(
            clocks,
            total_time,
        ),
{
    assert(advance_clocks(advance_clocks(clocks, total_time), total_time) =~= advance_clocks(
        clocks,
        total_time,
    ));
}

impl Scene {
    /// Plans the frame drawn through `camera`: sets the animation cursors to
    /// `total_time`, orders the work list by depth, and lists the drawables and lights of
    /// each entry in turn.
    pub fn render_objects(&mut self, total_time: i64, camera: usize) -> (r: FramePlan)
        requires
            old(self).wf(),
        ensures
            final(self)@ == old(self)@,
            final(self).clocks@ == advance_clocks(old(self).clocks@, total_time),
            final(self).wf(),
            plan_of(old(self)@, camera, r),
    {
        let ghost v = self@;
        let mut entity_depth_array: Vec<EntityDepthItem> = Vec::new();
        self.collect_renderable_entities(&mut entity_depth_array, total_time);
        assert(entity_depth_array@ =~= collected(v));
        let order = sort_by_depth(&entity_depth_array);
        proof {
            lemma_depth_ordering(v, order@);
        }
        let mut drawables: Vec<DrawItem> = Vec::new();
        let mut lights: Vec<LightItem> = Vec::new();
        let mut i: usize = 0;
        while i < order.len()
            invariant
                self@ == v,
                self.wf(),
                stable_depth_sort_of(order@, collected(v)),
                i <= order@.len(),
                forall|k: int| 0 <= k < order@.len() ==> #[trigger] v.valid(order@[k].entity as int),
                drawables@ == frame_drawables(v, order@.take(i as int)),
                lights@ == frame_lights(v, order@.take(i as int)),
            decreases order@.len() - i,
        {
            let entity = order[i].entity;
            assert(v.valid(order@[i as int].entity as int));
            let on_lights = self.get_all_lights_on_object(entity);
            let (mut on_drawables, placed) = self.get_all_drawables_on_object(entity);
            proof {
                let s = order@.take(i + 1);
                assert(s.drop_last() =~= order@.take(i as int));
                assert(s.last() == order@[i as int]);
            }
            if placed.is_some() {
                drawables.append(&mut on_drawables);
                let mut on_lights = on_lights;
                lights.append(&mut on_lights);
            }
            i += 1;
        }
        assert(order@.take(order@.len() as int) =~= order@);
        FramePlan { camera, order, drawables, lights }
    }

    /// Plans one frame at session time `total_time`: the error when the scene has no
    /// camera; nothing when no camera can be drawn through; else the frame drawn through
    /// the selected camera. Animation cursors are set only when a frame is planned.
    pub fn render(&mut self, total_time: i64) -> (r: Result<Option<FramePlan>, RenderError>)
        requires
            old(self).wf(),
        ensures
            final(self)@ == old(self)@,
            final(self).wf(),
            match r {
                Err(err) => camera_choice(old(self)@, Err(err)) && final(self).clocks@ == old(
                    self,
                ).clocks@,
                Ok(None) => camera_choice(old(self)@, Ok(None)) && final(self).clocks@ == old(
                    self,
                ).clocks@,
                Ok(Some(p)) => {
                    &&& camera_choice(old(self)@, Ok(Some(p.camera)))
                    &&& plan_of(old(self)@, p.camera, p)
                    &&& final(self).clocks@ == advance_clocks(old(self).clocks@, total_time)
                },
            },
    {
        match self.get_camera() {
            Err(err) => Err(err),
            Ok(None) => Ok(None),
            Ok(Some(camera)) => Ok(Some(self.render_objects(total_time, camera))),
        }
    }
}

} // verus!
