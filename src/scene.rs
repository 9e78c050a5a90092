//! The scene snapshot: entities, their hierarchy and the components that drawing reads.
use vstd::prelude::*;

verus! {

/// The renderer's `lumenpyx::blending::BlendMode`, a `Copy` enum of blend modes. The
/// library only carries its values from blend components to composites.
#[verifier::external_type_specification]
#[verifier::external_body]
pub struct ExBlendMode(lumenpyx::blending::BlendMode);

/// Marks an entity as a blend node: its two first drawable children are composited
/// with `lumen_blend_mode` into one drawable that stands for the whole subtree.
#[derive(Clone, Copy)]
pub struct BlendComponent {
    pub lumen_blend_mode: lumenpyx::blending::BlendMode,
}

impl BlendComponent {
    /// A blend component compositing with `lumen_blend_mode`.
    pub fn new(lumen_blend_mode: lumenpyx::blending::BlendMode) -> (r: Self)
        ensures
            r.lumen_blend_mode == lumen_blend_mode,
    {
        BlendComponent { lumen_blend_mode }
    }
}

/// A component that prevents an entity and its children from being rendered.
#[derive(Clone, Copy, PartialEq, Eq, Structural, Debug)]
pub struct NotActive;

/// The drawable components an entity can carry, in the order in which an entity's
/// drawables are listed.
#[derive(Clone, Copy, PartialEq, Eq, Structural, Debug)]
pub enum DrawableKind {
    Circle,
    Rectangle,
    Sprite,
    Sphere,
    Animation,
    Cylinder,
    AnimationStateMachine,
    TextBox,
}

/// The light components an entity can carry, in the order in which they are listed.
#[derive(Clone, Copy, PartialEq, Eq, Structural, Debug)]
pub enum LightKind {
    Point,
    Area,
    Directional,
}

/// Which drawable components an entity carries (at most one of each).
#[derive(Clone, Copy, PartialEq, Eq, Structural, Debug)]
pub struct DrawableSet {
    pub circle: bool,
    pub rectangle: bool,
    pub sprite: bool,
    pub sphere: bool,
    pub animation: bool,
    pub cylinder: bool,
    pub animation_state_machine: bool,
    pub text_box: bool,
}

/// Which light components an entity carries (at most one of each).
#[derive(Clone, Copy, PartialEq, Eq, Structural, Debug)]
pub struct LightSet {
    pub point: bool,
    pub area: bool,
    pub directional: bool,
}

/// `k` once when `on`, else nothing.
pub open spec fn present<T>(on: bool, k: T) -> Seq<T> {
    if on {
        seq![k]
    } else {
        seq![]
    }
}

fn push_present<T>(r: &mut Vec<T>, on: bool, k: T)
    ensures
        final(r)@ == old(r)@ + present(on, k),
{
    if on {
        r.push(k);
    }
    assert(r@ =~= old(r)@ + present(on, k));
}

impl DrawableSet {
    /// No drawable component.
    pub fn empty() -> (r: Self)
        ensures
            r.kinds_spec().len() == 0,
            !r.any(),
    {
        DrawableSet {
            circle: false,
            rectangle: false,
            sprite: false,
            sphere: false,
            animation: false,
            cylinder: false,
            animation_state_machine: false,
            text_box: false,
        }
    }

    pub open spec fn any(self) -> bool {
        self.circle || self.rectangle || self.sprite || self.sphere || self.animation
            || self.cylinder || self.animation_state_machine || self.text_box
    }

    /// Whether any drawable component is carried.
    pub fn carries_any(&self) -> (r: bool)
        ensures
            r == self.any(),
    {
        self.circle || self.rectangle || self.sprite || self.sphere || self.animation
            || self.cylinder || self.animation_state_machine || self.text_box
    }

    /// The carried kinds, in the fixed listing order.
    pub open spec fn kinds_spec(self) -> Seq<DrawableKind> {
        present(self.circle, DrawableKind::Circle) + present(self.rectangle, DrawableKind::Rectangle)
            + present(self.sprite, DrawableKind::Sprite) + present(self.sphere, DrawableKind::Sphere)
            + present(self.animation, DrawableKind::Animation) + present(
            self.cylinder,
            DrawableKind::Cylinder,
        ) + present(self.animation_state_machine, DrawableKind::AnimationStateMachine) + present(
            self.text_box,
            DrawableKind::TextBox,
        )
    }

    /// The carried kinds, in the fixed listing order.
    pub fn kinds(&self) -> (r: Vec<DrawableKind>)
        ensures
            r@ == self.kinds_spec(),
            r@.len() > 0 <==> self.any(),
    {
        let mut r: Vec<DrawableKind> = Vec::new();
        push_present(&mut r, self.circle, DrawableKind::Circle);
        assert(r@ =~= present(self.circle, DrawableKind::Circle));
        push_present(&mut r, self.rectangle, DrawableKind::Rectangle);
        push_present(&mut r, self.sprite, DrawableKind::Sprite);
        push_present(&mut r, self.sphere, DrawableKind::Sphere);
        push_present(&mut r, self.animation, DrawableKind::Animation);
        push_present(&mut r, self.cylinder, DrawableKind::Cylinder);
        push_present(&mut r, self.animation_state_machine, DrawableKind::AnimationStateMachine);
        push_present(&mut r, self.text_box, DrawableKind::TextBox);
        r
    }
}

impl LightSet {
    /// No light component.
    pub fn empty() -> (r: Self)
        ensures
            r.kinds_spec().len() == 0,
            !r.any(),
    {
        LightSet { point: false, area: false, directional: false }
    }

    pub open spec fn any(self) -> bool {
        self.point || self.area || self.directional
    }

    /// Whether any light component is carried.
    pub fn carries_any(&self) -> (r: bool)
        ensures
            r == self.any(),
    {
        self.point || self.area || self.directional
    }

    /// The carried kinds, in the fixed listing order.
    pub open spec fn kinds_spec(self) -> Seq<LightKind> {
        present(self.point, LightKind::Point) + present(self.area, LightKind::Area) + present(
            self.directional,
            LightKind::Directional,
        )
    }

    /// The carried kinds, in the fixed listing order.
    pub fn kinds(&self) -> (r: Vec<LightKind>)
        ensures
            r@ == self.kinds_spec(),
            r@.len() > 0 <==> self.any(),
    {
        let mut r: Vec<LightKind> = Vec::new();
        push_present(&mut r, self.point, LightKind::Point);
        assert(r@ =~= present(self.point, LightKind::Point));
        push_present(&mut r, self.area, LightKind::Area);
        push_present(&mut r, self.directional, LightKind::Directional);
        r
    }
}


/// The time cursor of one animation component of an entity.
///
/// Times are session ticks; `elapsed` is what the animation shows, the session time
/// minus the time at which the animation was started.
#[derive(Clone, Copy, PartialEq, Eq, Structural, Debug)]
pub struct AnimationClock {
    pub entity: usize,
    /// `true` for an animation state machine, `false` for a plain animation.
    pub state_machine: bool,
    pub start_time: i64,
    pub elapsed: i128,
}

/// One entity of the scene and the components that drawing reads.
#[derive(Clone, Copy)]
pub struct Node {
    pub parent: Option<usize>,
    pub drawables: DrawableSet,
    pub lights: LightSet,
    pub blend: Option<BlendComponent>,
    pub not_active: bool,
    /// The `z` of the entity's transform, as an integer whose order is the order of
    /// `z` (0 stands for `z = 0`); `None` when the entity has no transform.
    pub depth: Option<i64>,
    /// `Some(is_active)` when the entity carries a camera.
    pub camera: Option<bool>,
}

impl Node {
    /// An entity with no component and no parent.
    pub fn new() -> (r: Self)
        ensures
            r.parent is None,
            !r.drawables.any(),
            !r.lights.any(),
            r.blend is None,
            !r.not_active,
            r.depth is None,
            r.camera is None,
    {
        Node {
            parent: None,
            drawables: DrawableSet::empty(),
            lights: LightSet::empty(),
            blend: None,
            not_active: false,
            depth: None,
            camera: None,
        }
    }
}

/// A snapshot of the scene for one frame.
///
/// Entities are the indices of `nodes`; `children[e]` lists the children of `e` in
/// hierarchy order; `clocks` lists the animation components.
pub struct Scene {
    pub nodes: Vec<Node>,
    pub children: Vec<Vec<usize>>,
    pub clocks: Vec<AnimationClock>,
}

/// What drawing reads of a scene: its entities and hierarchy.
pub ghost struct SceneView {
    pub nodes: Seq<Node>,
    pub children: Seq<Seq<usize>>,
}

impl SceneView {
    pub open spec fn len(self) -> nat {
        self.nodes.len()
    }

    pub open spec fn valid(self, e: int) -> bool {
        0 <= e < self.nodes.len()
    }

    /// Entity indices in range, and no entity listed twice among one entity's children.
    pub open spec fn indices_ok(self) -> bool {
        &&& self.nodes.len() <= usize::MAX
        &&& self.children.len() == self.nodes.len()
        &&& forall|e: int| #[trigger]
            self.valid(e) && self.nodes[e].parent is Some ==> self.valid(
                self.nodes[e].parent->0 as int,
            )
        &&& forall|e: int, j: int|
            self.valid(e) && 0 <= j < self.children[e].len() ==> #[trigger] self.valid(
                self.children[e][j] as int,
            )
        &&& forall|e: int| #[trigger] self.valid(e) ==> self.children[e].no_duplicates()
    }

    /// Parents and children agree: each listed child has the entity as its parent, and
    /// each entity with a parent is listed among its children.
    pub open spec fn linked(self) -> bool {
        &&& forall|e: int, j: int|
            self.valid(e) && 0 <= j < self.children[e].len() ==> self.nodes[#[trigger] self.children[e][j] as int].parent
                == Some(e as usize)
        &&& forall|c: int| #[trigger]
            self.valid(c) && self.nodes[c].parent is Some ==> self.children[self.nodes[c].parent->0 as int].contains(
                c as usize,
            )
    }

    /// No parent chain returns to an entity: every chain ends within as many steps as
    /// there are entities.
    pub open spec fn acyclic(self) -> bool {
        forall|e: int| #[trigger] self.valid(e) ==> nth_ancestor(self, e as usize, self.len()) is None
    }

    /// A well-formed hierarchy: indices in range, parents and children in agreement, no
    /// cycle.
    pub open spec fn wf(self) -> bool {
        &&& self.indices_ok()
        &&& self.linked()
        &&& self.acyclic()
    }
}

/// The `k`-th ancestor of `e` (`e` itself for `k = 0`).
pub open spec fn nth_ancestor(v: SceneView, e: usize, k: nat) -> Option<usize>
    decreases k,
{
    if k == 0 {
        Some(e)
    } else if !v.valid(e as int) {
        None
    } else {
        match v.nodes[e as int].parent {
            Some(p) => nth_ancestor(v, p, (k - 1) as nat),
            None => None,
        }
    }
}

/// One more step up from the `k`-th ancestor gives the `k + 1`-th.
pub proof fn lemma_nth_ancestor_step(v: SceneView, e: usize, k: nat)
    ensures
        nth_ancestor(v, e, k + 1) == match nth_ancestor(v, e, k) {
            Some(a) => if v.valid(a as int) {
                v.nodes[a as int].parent
            } else {
                None
            },
            None => None,
        },
    decreases k,
{
    if v.valid(e as int) {
        match v.nodes[e as int].parent {
            Some(p) => {
                if k > 0 {
                    lemma_nth_ancestor_step(v, p, (k - 1) as nat);
                } else {
                    assert(nth_ancestor(v, p, 0) == Some(p));
                }
            },
            None => {},
        }
    }
}

/// A chain that has ended stays ended.
pub proof fn lemma_nth_ancestor_ended(v: SceneView, e: usize, k: nat, k2: nat)
    requires
        nth_ancestor(v, e, k) is None,
        k <= k2,
    ensures
        nth_ancestor(v, e, k2) is None,
    decreases k2 - k,
{
    if k < k2 {
        lemma_nth_ancestor_step(v, e, k);
        lemma_nth_ancestor_ended(v, e, k + 1, k2);
    }
}

/// In a well-formed scene every ancestor lies fewer steps up than there are entities.
pub proof fn lemma_nth_ancestor_bounded(v: SceneView, e: usize, k: nat)
    requires
        v.wf(),
        v.valid(e as int),
        nth_ancestor(v, e, k) is Some,
    ensures
        k < v.len(),
{
    if k >= v.len() {
        lemma_nth_ancestor_ended(v, e, v.len(), k);
    }
}

/// `v` with `parent` made the parent of `child`, and `child` appended to its children.
pub open spec fn with_parent(v: SceneView, child: usize, parent: usize) -> SceneView {
    SceneView {
        nodes: v.nodes.update(child as int, Node { parent: Some(parent), ..v.nodes[child as int] }),
        children: v.children.update(parent as int, v.children[parent as int].push(child)),
    }
}

/// When `set_parent(child, parent)` links the two entities: both exist, they differ,
/// `child` has no parent yet, and the link closes no cycle.
pub open spec fn can_set_parent(v: SceneView, child: usize, parent: usize) -> bool {
    &&& v.valid(child as int)
    &&& v.valid(parent as int)
    &&& child != parent
    &&& v.nodes[child as int].parent is None
    &&& with_parent(v, child, parent).acyclic()
}

/// Ancestors of an entity of `v` stay the same when entities are appended.
proof fn lemma_nth_ancestor_extend(v: SceneView, w: SceneView, x: usize, k: nat)
    requires
        v.indices_ok(),
        w.nodes.len() >= v.nodes.len(),
        forall|y: int| 0 <= y < v.nodes.len() ==> #[trigger] w.nodes[y] == v.nodes[y],
        v.valid(x as int),
    ensures
        nth_ancestor(w, x, k) == nth_ancestor(v, x, k),
    decreases k,
{
    if k > 0 {
        assert(w.nodes[x as int] == v.nodes[x as int]);
        match v.nodes[x as int].parent {
            Some(p) => {
                assert(v.valid(x as int));
                lemma_nth_ancestor_extend(v, w, p, (k - 1) as nat);
            },
            None => {},
        }
    }
}

impl View for Scene {
    type V = SceneView;

    open spec fn view(&self) -> SceneView {
        SceneView { nodes: self.nodes@, children: self.children@.map_values(|c: Vec<usize>| c@) }
    }
}

impl Scene {
    /// The snapshot is well formed: its view is, and each clock belongs to an entity that
    /// carries an animation of that kind.
    pub open spec fn wf(&self) -> bool {
        &&& self@.wf()
        &&& forall|k: int|
            0 <= k < self.clocks@.len() ==> #[trigger] self.clock_ok(self.clocks@[k])
    }

    pub open spec fn clock_ok(&self, c: AnimationClock) -> bool {
        &&& c.entity < self.nodes@.len()
        &&& if c.state_machine {
            self.nodes@[c.entity as int].drawables.animation_state_machine
        } else {
            self.nodes@[c.entity as int].drawables.animation
        }
    }

    /// An empty scene.
    pub fn new() -> (r: Self)
        ensures
            r.wf(),
            r@.len() == 0,
            r.clocks@.len() == 0,
    {
        let r = Scene { nodes: Vec::new(), children: Vec::new(), clocks: Vec::new() };
        assert(r@.children =~= Seq::<Seq<usize>>::empty());
        r
    }

    /// Adds an entity with the components of `node` and no parent; returns its index.
    pub fn add_entity(&mut self, node: Node) -> (e: usize)
        requires
            old(self).wf(),
            old(self).nodes@.len() < usize::MAX,
        ensures
            final(self).wf(),
            e == old(self).nodes@.len(),
            final(self).nodes@ == old(self).nodes@.push(Node { parent: None, ..node }),
            final(self)@.children == old(self)@.children.push(Seq::<usize>::empty()),
            final(self).clocks@ == old(self).clocks@,
    {
        let e = self.nodes.len();
        let ghost v0 = self@;
        self.nodes.push(Node { parent: None, ..node });
        self.children.push(Vec::new());
        assert(self@.children =~= v0.children.push(Seq::<usize>::empty()));
        assert(forall|x: int| 0 <= x < e ==> #[trigger] self@.nodes[x] == v0.nodes[x]);
        assert(forall|x: int| 0 <= x < e ==> #[trigger] self@.children[x] == v0.children[x]);
        let ghost w = self@;
        assert forall|x: int| #[trigger] w.valid(x) && w.nodes[x].parent is Some implies w.valid(
            w.nodes[x].parent->0 as int,
        ) by {
            assert(v0.valid(x));
        }
        assert forall|x: int, j: int| w.valid(x) && 0 <= j < w.children[x].len() implies #[trigger] w.valid(
            w.children[x][j] as int,
        ) by {
            assert(v0.valid(x));
            assert(v0.valid(v0.children[x][j] as int));
        }
        assert forall|x: int| #[trigger] w.valid(x) implies w.children[x].no_duplicates() by {
            if x < e {
                assert(v0.valid(x));
            }
        }
        assert forall|x: int, j: int|
            w.valid(x) && 0 <= j < w.children[x].len() implies w.nodes[#[trigger] w.children[x][j] as int].parent
            == Some(x as usize) by {
            assert(v0.valid(x));
            assert(v0.valid(v0.children[x][j] as int));
        }
        assert forall|c: int| #[trigger] w.valid(c) && w.nodes[c].parent is Some implies w.children[w.nodes[c].parent->0 as int].contains(
            c as usize,
        ) by {
            assert(v0.valid(c));
        }
        assert forall|x: int| #[trigger] w.valid(x) implies nth_ancestor(w, x as usize, w.len()) is None by {
            if x < e {
                assert(v0.valid(x));
                lemma_nth_ancestor_ended(v0, x as usize, v0.len(), w.len());
                lemma_nth_ancestor_extend(v0, w, x as usize, w.len());
            } else {
                assert(nth_ancestor(w, x as usize, 1) is None);
                lemma_nth_ancestor_ended(w, x as usize, 1, w.len());
            }
        }
        assert(forall|k: int|
            0 <= k < self.clocks@.len() ==> old(self).clock_ok(#[trigger] self.clocks@[k])
                ==> self.clock_ok(self.clocks@[k]));
        e
    }

    /// Makes `parent` the parent of `child`, appending `child` to its children. Refuses
    /// (returns `false`, nothing changed) when an index is out of range, when `child` is
    /// `parent` or already has a parent, or when the link would close a cycle. The cycle
    /// check walks every chain, so building a large scene link by link is slow; a scene
    /// filled in directly is checked once with `is_well_formed`.
    pub fn set_parent(&mut self, child: usize, parent: usize) -> (ok: bool)
        requires
            old(self).wf(),
        ensures
            final(self).wf(),
            final(self).clocks@ == old(self).clocks@,
            ok == can_set_parent(old(self)@, child, parent),
            ok ==> final(self)@ == with_parent(old(self)@, child, parent),
            !ok ==> final(self)@ == old(self)@,
    {
        let n = self.nodes.len();
        if child >= n || parent >= n || child == parent || self.nodes[child].parent.is_some() {
            return false;
        }
        let ghost v0 = self@;
        let ghost w = with_parent(v0, child, parent);
        assert(v0.valid(parent as int) && v0.valid(child as int));
        let mut kids: Vec<usize> = Vec::new();
        self.children.set_and_swap(parent, &mut kids);
        kids.push(child);
        self.children.set_and_swap(parent, &mut kids);
        let node = self.nodes[child];
        self.nodes.set(child, Node { parent: Some(parent), ..node });
        assert(self@.children =~= w.children);
        assert(self@.nodes =~= w.nodes);
        assert(self@ == w);
        assert forall|x: int, j: int| v0.valid(x) && 0 <= j < v0.children[x].len() implies #[trigger] v0.children[x][j]
            != child by {
            assert(v0.nodes[v0.children[x][j] as int].parent == Some(x as usize));
        }
        assert(forall|x: int| #[trigger]
            w.valid(x) && x != parent ==> w.children[x] == v0.children[x]);
        assert(forall|x: int| #[trigger]
            w.valid(x) && x != child ==> w.nodes[x] == v0.nodes[x]);
        assert forall|x: int| #[trigger] w.valid(x) && w.nodes[x].parent is Some implies w.valid(
            w.nodes[x].parent->0 as int,
        ) by {
            assert(v0.valid(x));
        }
        assert forall|x: int, j: int| w.valid(x) && 0 <= j < w.children[x].len() implies #[trigger] w.valid(
            w.children[x][j] as int,
        ) by {
            assert(v0.valid(x));
            if x != parent || j < w.children[x].len() - 1 {
                assert(w.children[x][j] == v0.children[x][j]);
                assert(v0.valid(v0.children[x][j] as int));
            }
        }
        assert forall|x: int| #[trigger] w.valid(x) implies w.children[x].no_duplicates() by {
            assert(v0.valid(x));
            if x == parent {
                let s = w.children[x];
                assert forall|a: int, b: int| 0 <= a < s.len() && 0 <= b < s.len() && a != b implies s[a]
                    != s[b] by {
                    if a < s.len() - 1 && b < s.len() - 1 {
                        assert(s[a] == v0.children[x][a]);
                        assert(s[b] == v0.children[x][b]);
                    } else if a < s.len() - 1 {
                        assert(s[a] == v0.children[x][a]);
                    } else if b < s.len() - 1 {
                        assert(s[b] == v0.children[x][b]);
                    }
                }
            }
        }
        assert forall|x: int, j: int|
            w.valid(x) && 0 <= j < w.children[x].len() implies w.nodes[#[trigger] w.children[x][j] as int].parent
            == Some(x as usize) by {
            assert(v0.valid(x));
            if x != parent || j < w.children[x].len() - 1 {
                assert(w.children[x][j] == v0.children[x][j]);
                assert(v0.children[x][j] != child);
                assert(v0.valid(v0.children[x][j] as int));
                assert(w.valid(v0.children[x][j] as int));
                assert(w.nodes[v0.children[x][j] as int] == v0.nodes[v0.children[x][j] as int]);
            } else {
                assert(w.children[x][j] == child);
            }
        }
        assert forall|c: int| #[trigger] w.valid(c) && w.nodes[c].parent is Some implies w.children[w.nodes[c].parent->0 as int].contains(
            c as usize,
        ) by {
            assert(v0.valid(c));
            if c == child {
                assert(w.children[parent as int][w.children[parent as int].len() - 1] == child);
            } else {
                let p = v0.nodes[c].parent->0;
                assert(v0.children[p as int].contains(c as usize));
                let i = choose|i: int| 0 <= i < v0.children[p as int].len() && v0.children[p as int][i] == c as usize;
                assert(w.children[p as int][i] == c as usize);
            }
        }
        assert(w.indices_ok());
        assert(w.linked());
        if !self.is_acyclic() {
            let mut kids: Vec<usize> = Vec::new();
            self.children.set_and_swap(parent, &mut kids);
            assert(kids@ == w.children[parent as int]);
            kids.pop();
            assert(kids@ =~= v0.children[parent as int]);
            self.children.set_and_swap(parent, &mut kids);
            self.nodes.set(child, node);
            assert(kids@ == Seq::<usize>::empty());
            assert(self@.children =~= v0.children);
            assert(self@.nodes =~= v0.nodes);
            assert(self@ == v0);
            assert(forall|k: int|
                0 <= k < self.clocks@.len() ==> old(self).clock_ok(#[trigger] self.clocks@[k])
                    ==> self.clock_ok(self.clocks@[k]));
            return false;
        }
        assert(forall|k: int|
            0 <= k < self.clocks@.len() ==> old(self).clock_ok(#[trigger] self.clocks@[k])
                ==> self.clock_ok(self.clocks@[k]));
        true
    }

    /// Attaches an animation clock, started at session time `start_time`, to the
    /// animation (`state_machine == false`) or animation state machine of entity `e`.
    /// Refuses (returns `false`, nothing changed) when `e` is out of range or carries no
    /// such component.
    pub fn add_animation_clock(&mut self, e: usize, state_machine: bool, start_time: i64) -> (ok: bool)
        requires
            old(self).wf(),
        ensures
            final(self).wf(),
            final(self)@ == old(self)@,
            ok == (old(self)@.valid(e as int) && if state_machine {
                old(self)@.nodes[e as int].drawables.animation_state_machine
            } else {
                old(self)@.nodes[e as int].drawables.animation
            }),
            ok ==> final(self).clocks@ == old(self).clocks@.push(
                AnimationClock { entity: e, state_machine, start_time, elapsed: 0 },
            ),
            !ok ==> final(self).clocks@ == old(self).clocks@,
    {
        if e >= self.nodes.len() {
            return false;
        }
        let d = self.nodes[e].drawables;
        if (state_machine && !d.animation_state_machine) || (!state_machine && !d.animation) {
            return false;
        }
        let ghost c0 = self.clocks@;
        self.clocks.push(AnimationClock { entity: e, state_machine, start_time, elapsed: 0 });
        assert(forall|k: int| 0 <= k < c0.len() ==> #[trigger] self.clocks@[k] == c0[k]);
        assert(forall|k: int|
            0 <= k < c0.len() ==> old(self).clock_ok(#[trigger] c0[k]) ==> self.clock_ok(c0[k]));
        assert(self.clock_ok(self.clocks@[c0.len() as int]));
        true
    }

    /// Tells whether the snapshot is well formed.
    pub fn is_well_formed(&self) -> (r: bool)
        ensures
            r == self.wf(),
    {
        if !self.indices_and_clocks_ok() {
            return false;
        }
        self.is_linked() && self.is_acyclic()
    }

    fn indices_and_clocks_ok(&self) -> (r: bool)
        ensures
            r == (self@.indices_ok() && forall|k: int|
                0 <= k < self.clocks@.len() ==> #[trigger] self.clock_ok(self.clocks@[k])),
    {
        let n = self.nodes.len();
        if self.children.len() != n {
            return false;
        }
        let mut e: usize = 0;
        while e < n
            invariant
                n == self.nodes@.len(),
                self.children@.len() == n,
                e <= n,
                forall|x: int| #[trigger]
                    self@.valid(x) && x < e && self@.nodes[x].parent is Some ==> self@.valid(
                        self@.nodes[x].parent->0 as int,
                    ),
                forall|x: int, j: int|
                    self@.valid(x) && x < e && 0 <= j < self@.children[x].len()
                        ==> #[trigger] self@.valid(self@.children[x][j] as int),
                forall|x: int| #[trigger] self@.valid(x) && x < e ==> self@.children[x].no_duplicates(),
            decreases n - e,
        {
            match self.nodes[e].parent {
                Some(p) => {
                    if p >= n {
                        assert(self@.valid(e as int) && !self@.valid(p as int));
                        return false;
                    }
                },
                None => {},
            }
            let kids = &self.children[e];
            assert(kids@ == self@.children[e as int]);
            assert(self@.valid(e as int));
            let mut j: usize = 0;
            while j < kids.len()
                invariant
                    n == self.nodes@.len(),
                    self.children@.len() == n,
                    e < n,
                    kids@ == self@.children[e as int],
                    j <= kids@.len(),
                    forall|a: int| 0 <= a < j ==> #[trigger] kids@[a] < n,
                    forall|a: int, b: int| 0 <= a < b < j ==> kids@[a] != kids@[b],
                decreases kids@.len() - j,
            {
                if kids[j] >= n {
                    assert(!self@.valid(self@.children[e as int][j as int] as int));
                    return false;
                }
                let mut k: usize = 0;
                while k < j
                    invariant
                        n == self.nodes@.len(),
                        self.children@.len() == n,
                        e < n,
                        j < kids@.len(),
                        kids@ == self@.children[e as int],
                        k <= j,
                        forall|a: int| 0 <= a < k ==> kids@[a] != kids@[j as int],
                    decreases j - k,
                {
                    if kids[k] == kids[j] {
                        assert(self@.valid(e as int));
                        assert(!self@.children[e as int].no_duplicates());
                        return false;
                    }
                    k += 1;
                }
                j += 1;
            }
            e += 1;
        }
        let mut k: usize = 0;
        while k < self.clocks.len()
            invariant
                self@.indices_ok(),
                n == self.nodes@.len(),
                k <= self.clocks@.len(),
                forall|x: int| 0 <= x < k ==> #[trigger] self.clock_ok(self.clocks@[x]),
            decreases self.clocks@.len() - k,
        {
            let c = self.clocks[k];
            if c.entity >= n {
                assert(!self.clock_ok(self.clocks@[k as int]));
                return false;
            }
            assert(self@.valid(c.entity as int));
            let d = self.nodes[c.entity].drawables;
            if c.state_machine && !d.animation_state_machine {
                assert(!self.clock_ok(self.clocks@[k as int]));
                return false;
            }
            if !c.state_machine && !d.animation {
                assert(!self.clock_ok(self.clocks@[k as int]));
                return false;
            }
            k += 1;
        }
        true
    }

    fn is_linked(&self) -> (r: bool)
        requires
            self@.indices_ok(),
        ensures
            r == self@.linked(),
    {
        let ghost v = self@;
        let n = self.nodes.len();
        let mut e: usize = 0;
        while e < n
            invariant
                self@ == v,
                v.indices_ok(),
                n == v.len(),
                e <= n,
                forall|x: int, j: int|
                    0 <= x < e && 0 <= j < v.children[x].len() ==> v.nodes[#[trigger] v.children[x][j] as int].parent
                        == Some(x as usize),
                forall|c: int| #![trigger v.nodes[c]]
                    0 <= c < e && v.nodes[c].parent is Some ==> v.children[v.nodes[c].parent->0 as int].contains(
                        c as usize,
                    ),
            decreases n - e,
        {
            assert(v.valid(e as int));
            let kids = &self.children[e];
            assert(kids@ == v.children[e as int]);
            let mut j: usize = 0;
            while j < kids.len()
                invariant
                    self@ == v,
                    v.indices_ok(),
                    n == v.len(),
                    e < n,
                    kids@ == v.children[e as int],
                    j <= kids@.len(),
                    forall|a: int| 0 <= a < j ==> v.nodes[#[trigger] kids@[a] as int].parent == Some(e),
                decreases kids@.len() - j,
            {
                assert(v.valid(kids@[j as int] as int));
                if self.nodes[kids[j]].parent != Some(e) {
                    assert(v.nodes[v.children[e as int][j as int] as int].parent != Some(e));
                    return false;
                }
                j += 1;
            }
            match self.nodes[e].parent {
                Some(p) => {
                    assert(v.valid(p as int));
                    let siblings = &self.children[p];
                    assert(siblings@ == v.children[p as int]);
                    let mut k: usize = 0;
                    let mut found = false;
                    while k < siblings.len()
                        invariant
                            siblings@ == v.children[p as int],
                            k <= siblings@.len(),
                            found <==> exists|a: int| 0 <= a < k && siblings@[a] == e,
                        decreases siblings@.len() - k,
                    {
                        if siblings[k] == e {
                            found = true;
                        }
                        k += 1;
                    }
                    if !found {
                        assert(v.valid(e as int) && v.nodes[e as int].parent is Some);
                        assert(!v.children[p as int].contains(e));
                        return false;
                    }
                },
                None => {},
            }
            e += 1;
        }
        true
    }

    fn is_acyclic(&self) -> (r: bool)
        requires
            self@.indices_ok(),
        ensures
            r == self@.acyclic(),
    {
        let ghost v = self@;
        let n = self.nodes.len();
        let mut e: usize = 0;
        while e < n
            invariant
                self@ == v,
                v.indices_ok(),
                n == v.len(),
                e <= n,
                forall|x: int| 0 <= x < e ==> #[trigger] nth_ancestor(v, x as usize, n as nat) is None,
            decreases n - e,
        {
            let mut cur: Option<usize> = Some(e);
            let mut k: usize = 0;
            while k < n
                invariant
                    self@ == v,
                    v.indices_ok(),
                    n == v.len(),
                    e < n,
                    k <= n,
                    cur == nth_ancestor(v, e, k as nat),
                    cur matches Some(a) ==> v.valid(a as int),
                decreases n - k,
            {
                proof {
                    lemma_nth_ancestor_step(v, e, k as nat);
                }
                cur = match cur {
                    Some(a) => self.nodes[a].parent,
                    None => None,
                };
                k += 1;
            }
            if cur.is_some() {
                assert(v.valid(e as int));
                return false;
            }
            e += 1;
        }
        assert forall|x: int| #[trigger] v.valid(x) implies nth_ancestor(v, x as usize, v.len()) is None by {
            assert(nth_ancestor(v, x as usize, n as nat) is None);
        }
        true
    }
}

} // verus!
