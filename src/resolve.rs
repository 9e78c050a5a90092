//! Blend-tree resolution and subtree suppression.
//!
//! Resolution descends the hierarchy with a `fuel` bound: each step into a child uses one
//! unit. In a forest of `n` entities no downward path is longer than `n`, so the public
//! entry points start with `n` and the bound never cuts a real path short.
use vstd::prelude::*;
use crate::scene::{
    lemma_nth_ancestor_bounded, lemma_nth_ancestor_step, nth_ancestor, DrawableKind, LightKind, Scene,
    SceneView,
};

verus! {

/// One drawable handed to the rasterizer; it takes the pose of `entity`.
#[derive(Debug)]
pub enum DrawItem {
    /// A drawable component of `entity`.
    Shape { entity: usize, kind: DrawableKind },
    /// The composite of blend node `entity`: the first drawable of each of its two chosen
    /// children, shallower child first.
    Blend {
        entity: usize,
        mode: lumenpyx::blending::BlendMode,
        first: Box<DrawItem>,
        second: Box<DrawItem>,
    },
}

/// One light handed to the rasterizer; it takes the pose of `entity`.
#[derive(Clone, Copy, PartialEq, Eq, Structural, Debug)]
pub struct LightItem {
    pub entity: usize,
    pub kind: LightKind,
}

/// The depth by which blend children are ordered: the transform's, or 0 without one.
pub open spec fn depth_or_zero(v: SceneView, e: int) -> int {
    match v.nodes[e].depth {
        Some(z) => z as int,
        None => 0,
    }
}

pub open spec fn shape_items(e: usize, kinds: Seq<DrawableKind>) -> Seq<DrawItem> {
    kinds.map_values(|k: DrawableKind| DrawItem::Shape { entity: e, kind: k })
}

pub open spec fn light_items(e: usize, kinds: Seq<LightKind>) -> Seq<LightItem> {
    kinds.map_values(|k: LightKind| LightItem { entity: e, kind: k })
}

/// The drawables that entity `e` yields when its ancestors are not consulted: nothing when
/// it is marked not active; else its blend composite, if it resolves, then its own
/// drawable components in listing order.
pub open spec fn resolved(v: SceneView, e: usize, fuel: nat) -> Seq<DrawItem>
    decreases fuel, 2nat, 0nat,
{
    if !v.valid(e as int) || v.nodes[e as int].not_active {
        seq![]
    } else {
        let own = shape_items(e, v.nodes[e as int].drawables.kinds_spec());
        match blend_object(v, e, fuel) {
            Some(b) => seq![b] + own,
            None => own,
        }
    }
}

/// The first `need` entities of `kids`, in order, that yield at least one drawable.
pub open spec fn pick_viable(v: SceneView, kids: Seq<usize>, fuel: nat, need: nat) -> Seq<usize>
    decreases fuel, 3nat, kids.len(),
{
    if need == 0 || kids.len() == 0 {
        seq![]
    } else if resolved(v, kids[0], fuel).len() > 0 {
        seq![kids[0]] + pick_viable(v, kids.drop_first(), fuel, (need - 1) as nat)
    } else {
        pick_viable(v, kids.drop_first(), fuel, need)
    }
}

/// The two chosen children of a blend node ordered by depth; on equal depths the one
/// met first among the children comes first.
pub open spec fn by_depth(v: SceneView, a: usize, b: usize) -> (usize, usize) {
    if depth_or_zero(v, b as int) < depth_or_zero(v, a as int) {
        (b, a)
    } else {
        (a, b)
    }
}

/// The composite that blend node `e` stands for: `None` unless `e` carries a blend
/// component and a transform and at least two of its children yield a drawable.
pub open spec fn blend_object(v: SceneView, e: usize, fuel: nat) -> Option<DrawItem>
    decreases fuel, 1nat, 0nat,
{
    if fuel == 0 || !v.valid(e as int) {
        None
    } else {
        match (v.nodes[e as int].blend, v.nodes[e as int].depth) {
            (Some(bc), Some(_)) => {
                let picked = pick_viable(v, v.children[e as int], (fuel - 1) as nat, 2);
                if picked.len() < 2 {
                    None
                } else {
                    let (a, b) = by_depth(v, picked[0], picked[1]);
                    Some(
                        DrawItem::Blend {
                            entity: e,
                            mode: bc.lumen_blend_mode,
                            first: Box::new(resolved(v, a, (fuel - 1) as nat)[0]),
                            second: Box::new(resolved(v, b, (fuel - 1) as nat)[0]),
                        },
                    )
                }
            },
            _ => None,
        }
    }
}

/// Whether some ancestor of `e`, within `steps` steps up, is marked not active or
/// resolves as a blend composite (whose leaves are then drawn through it).
pub open spec fn suppressed(v: SceneView, e: usize, steps: nat, fuel: nat) -> bool
    decreases steps,
{
    if steps == 0 || !v.valid(e as int) {
        false
    } else {
        match v.nodes[e as int].parent {
            None => false,
            Some(p) => {
                ||| v.valid(p as int) && v.nodes[p as int].not_active
                ||| blend_object(v, p, fuel) is Some
                ||| suppressed(v, p, (steps - 1) as nat, fuel)
            },
        }
    }
}

/// The drawables that entity `e` contributes when its ancestors are consulted: nothing
/// when it is suppressed, else what it resolves to.
pub open spec fn drawables_on(v: SceneView, e: usize) -> Seq<DrawItem> {
    if suppressed(v, e, v.len(), v.len()) {
        seq![]
    } else {
        resolved(v, e, v.len())
    }
}

/// The depth at which entity `e` is placed in a frame: none when it is suppressed or
/// marked not active, else its transform's.
pub open spec fn placed_depth(v: SceneView, e: usize) -> Option<i64> {
    if suppressed(v, e, v.len(), v.len()) || v.nodes[e as int].not_active {
        None
    } else {
        v.nodes[e as int].depth
    }
}

/// The entity whose pose a drawable takes.
pub open spec fn item_entity(d: DrawItem) -> usize {
    match d {
        DrawItem::Shape { entity, .. } => entity,
        DrawItem::Blend { entity, .. } => entity,
    }
}

/// Every entity that `pick_viable` returns yields a drawable and is one of `kids`.
pub proof fn lemma_pick_viable(v: SceneView, kids: Seq<usize>, fuel: nat, need: nat)
    ensures
        pick_viable(v, kids, fuel, need).len() <= need,
        pick_viable(v, kids, fuel, need).len() <= kids.len(),
        forall|i: int|
            0 <= i < pick_viable(v, kids, fuel, need).len() ==> {
                &&& resolved(v, #[trigger] pick_viable(v, kids, fuel, need)[i], fuel).len() > 0
                &&& kids.contains(pick_viable(v, kids, fuel, need)[i])
            },
        kids.no_duplicates() ==> pick_viable(v, kids, fuel, need).no_duplicates(),
    decreases kids.len(),
{
    if need == 0 || kids.len() == 0 {
    } else {
        let rest = kids.drop_first();
        let need2 = if resolved(v, kids[0], fuel).len() > 0 { (need - 1) as nat } else { need };
        lemma_pick_viable(v, rest, fuel, need2);
        let p = pick_viable(v, kids, fuel, need);
        let q = pick_viable(v, rest, fuel, need2);
        assert forall|i: int| 0 <= i < q.len() implies kids.contains(#[trigger] q[i]) by {
            let j = choose|j: int| 0 <= j < rest.len() && rest[j] == q[i];
            assert(kids[j + 1] == q[i]);
        }
        if resolved(v, kids[0], fuel).len() > 0 {
            assert(p == seq![kids[0]] + q);
            assert forall|i: int| 0 <= i < p.len() implies {
                &&& resolved(v, #[trigger] p[i], fuel).len() > 0
                &&& kids.contains(p[i])
            } by {
                if i > 0 {
                    assert(p[i] == q[i - 1]);
                }
            }
            if kids.no_duplicates() {
                assert(rest.no_duplicates());
                assert forall|i: int| 0 <= i < q.len() implies #[trigger] q[i] != kids[0] by {
                    let j = choose|j: int| 0 <= j < rest.len() && rest[j] == q[i];
                    assert(kids[j + 1] == q[i]);
                }
                assert forall|i: int, j: int| 0 <= i < p.len() && 0 <= j < p.len() && i != j
                    implies p[i] != p[j] by {
                    if i > 0 && j > 0 {
                        assert(p[i] == q[i - 1] && p[j] == q[j - 1]);
                    } else if i == 0 {
                        assert(p[j] == q[j - 1]);
                    } else {
                        assert(p[i] == q[i - 1]);
                    }
                }
            }
        } else {
            if kids.no_duplicates() {
                assert(rest.no_duplicates());
            }
        }
    }
}


/// Every drawable that entity `e` resolves to takes the pose of `e`.
pub proof fn lemma_resolved_entity(v: SceneView, e: usize, fuel: nat)
    ensures
        forall|i: int|
            0 <= i < resolved(v, e, fuel).len() ==> item_entity(#[trigger] resolved(v, e, fuel)[i])
                == e,
{
    if v.valid(e as int) && !v.nodes[e as int].not_active {
        let own = shape_items(e, v.nodes[e as int].drawables.kinds_spec());
        assert forall|i: int| 0 <= i < own.len() implies item_entity(#[trigger] own[i]) == e by {}
        match blend_object(v, e, fuel) {
            Some(b) => {
                let r = seq![b] + own;
                assert forall|i: int| 0 <= i < r.len() implies item_entity(#[trigger] r[i]) == e by {
                    if i > 0 {
                        assert(r[i] == own[i - 1]);
                    }
                }
            },
            None => {},
        }
    }
}

proof fn lemma_pick_one(v: SceneView, kids: Seq<usize>, fuel: nat, b: usize)
    requires
        kids.contains(b),
        resolved(v, b, fuel).len() > 0,
        forall|i: int|
            0 <= i < kids.len() && resolved(v, #[trigger] kids[i], fuel).len() > 0 ==> kids[i] == b,
    ensures
        pick_viable(v, kids, fuel, 1) == seq![b],
    decreases kids.len(),
{
    let rest = kids.drop_first();
    if kids[0] == b {
        assert(pick_viable(v, rest, fuel, 0) == Seq::<usize>::empty());
        assert(seq![b] + Seq::<usize>::empty() =~= seq![b]);
    } else {
        let i = choose|i: int| 0 <= i < kids.len() && kids[i] == b;
        assert(rest[i - 1] == b);
        assert forall|j: int|
            0 <= j < rest.len() && resolved(v, #[trigger] rest[j], fuel).len() > 0 implies rest[j]
            == b by {
            assert(rest[j] == kids[j + 1]);
        }
        lemma_pick_one(v, rest, fuel, b);
    }
}

proof fn lemma_pick_two(v: SceneView, kids: Seq<usize>, fuel: nat, a: usize, b: usize)
    requires
        kids.no_duplicates(),
        kids.contains(a),
        kids.contains(b),
        a != b,
        resolved(v, a, fuel).len() > 0,
        resolved(v, b, fuel).len() > 0,
        forall|i: int|
            0 <= i < kids.len() && resolved(v, #[trigger] kids[i], fuel).len() > 0 ==> kids[i] == a
                || kids[i] == b,
    ensures
        pick_viable(v, kids, fuel, 2) == seq![a, b] || pick_viable(v, kids, fuel, 2) == seq![b, a],
    decreases kids.len(),
{
    let rest = kids.drop_first();
    let x = kids[0];
    assert forall|j: int| 0 <= j < rest.len() implies rest[j] != x by {
        assert(rest[j] == kids[j + 1]);
    }
    if x == a || x == b {
        let other = if x == a { b } else { a };
        let i = choose|i: int| 0 <= i < kids.len() && kids[i] == other;
        assert(i != 0);
        assert(rest[i - 1] == other);
        assert forall|j: int|
            0 <= j < rest.len() && resolved(v, #[trigger] rest[j], fuel).len() > 0 implies rest[j]
            == other by {
            assert(rest[j] == kids[j + 1]);
        }
        lemma_pick_one(v, rest, fuel, other);
        assert(pick_viable(v, kids, fuel, 2) == seq![x] + pick_viable(v, rest, fuel, 1));
        assert(seq![x] + seq![other] =~= seq![x, other]);
    } else {
        let i = choose|i: int| 0 <= i < kids.len() && kids[i] == a;
        let k = choose|k: int| 0 <= k < kids.len() && kids[k] == b;
        assert(rest[i - 1] == a && rest[k - 1] == b);
        assert(rest.no_duplicates());
        assert forall|j: int|
            0 <= j < rest.len() && resolved(v, #[trigger] rest[j], fuel).len() > 0 implies rest[j]
            == a || rest[j] == b by {
            assert(rest[j] == kids[j + 1]);
        }
        lemma_pick_two(v, rest, fuel, a, b);
    }
}

/// A blend node with exactly two children that yield a drawable, `a` shallower than `b`,
/// composites the first drawable of `a` over the first drawable of `b`, whatever the
/// order of its children.
pub proof fn lemma_blend_determinism(v: SceneView, e: usize, a: usize, b: usize)
    requires
        v.wf(),
        v.valid(e as int),
        v.nodes[e as int].blend is Some,
        v.nodes[e as int].depth is Some,
        v.children[e as int].contains(a),
        v.children[e as int].contains(b),
        a != b,
        resolved(v, a, (v.len() - 1) as nat).len() > 0,
        resolved(v, b, (v.len() - 1) as nat).len() > 0,
        forall|i: int|
            0 <= i < v.children[e as int].len() && resolved(
                v,
                #[trigger] v.children[e as int][i],
                (v.len() - 1) as nat,
            ).len() > 0 ==> v.children[e as int][i] == a || v.children[e as int][i] == b,
        depth_or_zero(v, a as int) < depth_or_zero(v, b as int),
    ensures
        blend_object(v, e, v.len()) == Some(
            DrawItem::Blend {
                entity: e,
                mode: v.nodes[e as int].blend->0.lumen_blend_mode,
                first: Box::new(resolved(v, a, (v.len() - 1) as nat)[0]),
                second: Box::new(resolved(v, b, (v.len() - 1) as nat)[0]),
            },
        ),
{
    lemma_pick_two(v, v.children[e as int], (v.len() - 1) as nat, a, b);
}

/// A blend node never composites a child with itself: the two drawables of its composite
/// come from two different children. A blend node with fewer than two children has no
/// composite.
pub proof fn lemma_blend_pair_distinct(v: SceneView, e: usize, fuel: nat)
    requires
        v.wf(),
        v.valid(e as int),
    ensures
        v.children[e as int].len() < 2 ==> blend_object(v, e, fuel) is None,
        blend_object(v, e, fuel) matches Some(DrawItem::Blend { first, second, .. }) ==> {
            &&& item_entity(*first) != item_entity(*second)
            &&& v.children[e as int].contains(item_entity(*first))
            &&& v.children[e as int].contains(item_entity(*second))
        },
{
    if fuel > 0 {
        let f1 = (fuel - 1) as nat;
        let kids = v.children[e as int];
        lemma_pick_viable(v, kids, f1, 2);
        let picked = pick_viable(v, kids, f1, 2);
        if picked.len() >= 2 {
            let (a, b) = by_depth(v, picked[0], picked[1]);
            lemma_resolved_entity(v, a, f1);
            lemma_resolved_entity(v, b, f1);
        }
    }
}

proof fn lemma_nth_ancestor_add(v: SceneView, e: usize, m: usize, z: usize, p: nat, q: nat)
    requires
        nth_ancestor(v, e, p) == Some(m),
        nth_ancestor(v, m, q) == Some(z),
    ensures
        nth_ancestor(v, e, p + q) == Some(z),
    decreases p,
{
    if p > 0 {
        let pp = v.nodes[e as int].parent->0;
        lemma_nth_ancestor_add(v, pp, m, z, (p - 1) as nat, q);
        assert((p - 1) as nat + q == (p + q - 1) as nat);
    }
}

/// In a well-formed scene no entity is its own ancestor.
proof fn lemma_no_cycle(v: SceneView, e: usize, p: nat, t: nat)
    requires
        v.wf(),
        v.valid(e as int),
        p >= 1,
        nth_ancestor(v, e, t) == Some(e),
    ensures
        nth_ancestor(v, e, p) != Some(e),
    decreases v.len() - t,
{
    if nth_ancestor(v, e, p) == Some(e) {
        lemma_nth_ancestor_bounded(v, e, t);
        lemma_nth_ancestor_add(v, e, e, e, t, p);
        lemma_nth_ancestor_bounded(v, e, t + p);
        lemma_no_cycle(v, e, p, t + p);
    }
}

/// No child of `e` is `e` or one of its ancestors.
proof fn lemma_child_not_above(v: SceneView, e: usize, c: usize, k: nat)
    requires
        v.wf(),
        v.valid(e as int),
        v.children[e as int].contains(c),
    ensures
        nth_ancestor(v, e, k) != Some(c),
{
    if nth_ancestor(v, e, k) == Some(c) {
        let j = choose|j: int| 0 <= j < v.children[e as int].len() && v.children[e as int][j] == c;
        assert(v.nodes[v.children[e as int][j] as int].parent == Some(e));
        assert(v.valid(c as int));
        lemma_nth_ancestor_step(v, c, 0);
        assert(nth_ancestor(v, c, 0) == Some(c));
        lemma_nth_ancestor_add(v, e, c, e, k, 1);
        assert(nth_ancestor(v, e, 0) == Some(e));
        lemma_no_cycle(v, e, k + 1, 0);
    }
}

/// Whether `x` is `e` or an ancestor of `e`.
pub open spec fn above(v: SceneView, e: usize, x: usize) -> bool {
    exists|k: nat| nth_ancestor(v, e, k) == Some(x)
}

/// Two scenes that differ only in the children of `e`.
pub open spec fn differ_only_below(v1: SceneView, v2: SceneView, e: usize) -> bool {
    &&& v1.nodes == v2.nodes
    &&& v1.children.len() == v2.children.len()
    &&& forall|y: int| y != e ==> #[trigger] v1.children[y] == v2.children[y]
}

proof fn lemma_child_of_not_above(v: SceneView, e: usize, x: usize, c: usize)
    requires
        v.wf(),
        v.valid(x as int),
        v.children[x as int].contains(c),
        !above(v, e, x),
    ensures
        !above(v, e, c),
{
    if above(v, e, c) {
        let k = choose|k: nat| nth_ancestor(v, e, k) == Some(c);
        let j = choose|j: int| 0 <= j < v.children[x as int].len() && v.children[x as int][j] == c;
        assert(v.nodes[v.children[x as int][j] as int].parent == Some(x));
        assert(v.valid(c as int));
        lemma_nth_ancestor_step(v, e, k);
        assert(nth_ancestor(v, e, k + 1) == Some(x));
    }
}

proof fn lemma_resolved_frame(v1: SceneView, v2: SceneView, e: usize, x: usize, fuel: nat)
    requires
        v1.wf(),
        differ_only_below(v1, v2, e),
        !above(v1, e, x),
    ensures
        resolved(v1, x, fuel) == resolved(v2, x, fuel),
    decreases fuel, 2nat, 0nat,
{
    lemma_blend_frame(v1, v2, e, x, fuel);
}

proof fn lemma_blend_frame(v1: SceneView, v2: SceneView, e: usize, x: usize, fuel: nat)
    requires
        v1.wf(),
        differ_only_below(v1, v2, e),
        !above(v1, e, x),
    ensures
        blend_object(v1, x, fuel) == blend_object(v2, x, fuel),
    decreases fuel, 1nat, 0nat,
{
    if fuel > 0 && v1.valid(x as int) {
        assert(nth_ancestor(v1, e, 0) == Some(e));
        assert(x != e);
        assert(v1.children[x as int] == v2.children[x as int]);
        let kids = v1.children[x as int];
        let f1 = (fuel - 1) as nat;
        assert forall|i: int| 0 <= i < kids.len() implies !above(v1, e, #[trigger] kids[i]) by {
            assert(kids.contains(kids[i]));
            lemma_child_of_not_above(v1, e, x, kids[i]);
        }
        lemma_pick_frame(v1, v2, e, kids, f1, 2);
        lemma_pick_viable(v1, kids, f1, 2);
        let picked = pick_viable(v1, kids, f1, 2);
        if picked.len() >= 2 {
            let (a, b) = by_depth(v1, picked[0], picked[1]);
            assert(kids.contains(picked[0]) && kids.contains(picked[1]));
            lemma_child_of_not_above(v1, e, x, a);
            lemma_child_of_not_above(v1, e, x, b);
            lemma_resolved_frame(v1, v2, e, a, f1);
            lemma_resolved_frame(v1, v2, e, b, f1);
        }
    }
}

proof fn lemma_pick_frame(
    v1: SceneView,
    v2: SceneView,
    e: usize,
    kids: Seq<usize>,
    fuel: nat,
    need: nat,
)
    requires
        v1.wf(),
        differ_only_below(v1, v2, e),
        forall|i: int| 0 <= i < kids.len() ==> !above(v1, e, #[trigger] kids[i]),
    ensures
        pick_viable(v1, kids, fuel, need) == pick_viable(v2, kids, fuel, need),
    decreases fuel, 3nat, kids.len(),
{
    if need > 0 && kids.len() > 0 {
        lemma_resolved_frame(v1, v2, e, kids[0], fuel);
        let rest = kids.drop_first();
        assert forall|i: int| 0 <= i < rest.len() implies !above(v1, e, #[trigger] rest[i]) by {
            assert(rest[i] == kids[i + 1]);
        }
        lemma_pick_frame(v1, v2, e, rest, fuel, (need - 1) as nat);
        lemma_pick_frame(v1, v2, e, rest, fuel, need);
    }
}

/// A blend node with exactly two children that yield a drawable composites the same two
/// drawables, shallower first, whatever the order in which its children are listed: two
/// scenes that differ only in that order give it the same composite.
pub proof fn lemma_blend_child_order(v1: SceneView, v2: SceneView, e: usize, a: usize, b: usize)
    requires
        v1.wf(),
        v2.wf(),
        differ_only_below(v1, v2, e),
        forall|c: usize| v1.children[e as int].contains(c) <==> v2.children[e as int].contains(c),
        v1.valid(e as int),
        v1.nodes[e as int].blend is Some,
        v1.nodes[e as int].depth is Some,
        v1.children[e as int].contains(a),
        v1.children[e as int].contains(b),
        a != b,
        resolved(v1, a, (v1.len() - 1) as nat).len() > 0,
        resolved(v1, b, (v1.len() - 1) as nat).len() > 0,
        forall|i: int|
            0 <= i < v1.children[e as int].len() && resolved(
                v1,
                #[trigger] v1.children[e as int][i],
                (v1.len() - 1) as nat,
            ).len() > 0 ==> v1.children[e as int][i] == a || v1.children[e as int][i] == b,
        depth_or_zero(v1, a as int) < depth_or_zero(v1, b as int),
    ensures
        blend_object(v2, e, v2.len()) == blend_object(v1, e, v1.len()),
        blend_object(v1, e, v1.len()) == Some(
            DrawItem::Blend {
                entity: e,
                mode: v1.nodes[e as int].blend->0.lumen_blend_mode,
                first: Box::new(resolved(v1, a, (v1.len() - 1) as nat)[0]),
                second: Box::new(resolved(v1, b, (v1.len() - 1) as nat)[0]),
            },
        ),
{
    let f = (v1.len() - 1) as nat;
    let k1 = v1.children[e as int];
    let k2 = v2.children[e as int];
    assert forall|c: usize| #[trigger] k1.contains(c) implies resolved(v1, c, f) == resolved(v2, c, f) by {
        assert forall|k: nat| nth_ancestor(v1, e, k) != Some(c) by {
            lemma_child_not_above(v1, e, c, k);
        }
        lemma_resolved_frame(v1, v2, e, c, f);
    }
    assert(k1.contains(a) && k1.contains(b));
    assert forall|i: int|
        0 <= i < k2.len() && resolved(v2, #[trigger] k2[i], f).len() > 0 implies k2[i] == a
        || k2[i] == b by {
        assert(k2.contains(k2[i]));
        assert(k1.contains(k2[i]));
        let j = choose|j: int| 0 <= j < k1.len() && k1[j] == k2[i];
        assert(resolved(v1, k1[j], f).len() > 0);
    }
    lemma_blend_determinism(v1, e, a, b);
    lemma_blend_determinism(v2, e, a, b);
}

impl Scene {
    /// The depth by which blend children are ordered.
    pub fn depth_or_zero(&self, e: usize) -> (r: i64)
        requires
            e < self.nodes@.len(),
        ensures
            r as int == depth_or_zero(self@, e as int),
    {
        match self.nodes[e].depth {
            Some(z) => z,
            None => 0,
        }
    }

    /// The composite that blend node `e` stands for, if it resolves.
    pub fn get_blend_object(&self, e: usize) -> (r: Option<DrawItem>)
        requires
            self@.wf(),
            self@.valid(e as int),
        ensures
            r == blend_object(self@, e, self@.len()),
    {
        self.blend_within(e, self.nodes.len())
    }

    /// Whether an ancestor of `e` is marked not active or resolves as a blend composite.
    pub fn is_suppressed(&self, e: usize) -> (r: bool)
        requires
            self@.wf(),
            self@.valid(e as int),
        ensures
            r == suppressed(self@, e, self@.len(), self@.len()),
    {
        let ghost v = self@;
        let n = self.nodes.len();
        let mut cur = e;
        let mut steps = n;
        while steps > 0
            invariant
                self@ == v,
                v.wf(),
                n == v.len(),
                v.valid(cur as int),
                suppressed(v, e, n as nat, n as nat) == suppressed(v, cur, steps as nat, n as nat),
            decreases steps,
        {
            match self.nodes[cur].parent {
                None => return false,
                Some(p) => {
                    assert(v.valid(cur as int) && v.nodes[cur as int].parent is Some);
                    if self.nodes[p].not_active {
                        return true;
                    }
                    if self.blend_within(p, n).is_some() {
                        return true;
                    }
                    cur = p;
                    steps = steps - 1;
                },
            }
        }
        false
    }

    /// The drawables that entity `e` contributes to a frame, with the depth it is placed
    /// at: no drawable and no depth when an ancestor suppresses it or it is marked not
    /// active; else its blend composite (if any), its own drawables, and its transform's
    /// depth.
    pub fn get_all_drawables_on_object(&self, e: usize) -> (r: (Vec<DrawItem>, Option<i64>))
        requires
            self@.wf(),
            self@.valid(e as int),
        ensures
            r.0@ == drawables_on(self@, e),
            r.1 == placed_depth(self@, e),
    {
        if self.is_suppressed(e) {
            return (Vec::new(), None);
        }
        let drawables = self.resolve_within(e, self.nodes.len());
        if self.nodes[e].not_active {
            return (drawables, None);
        }
        (drawables, self.nodes[e].depth)
    }

    /// The lights that entity `e` carries, in listing order.
    pub fn get_all_lights_on_object(&self, e: usize) -> (r: Vec<LightItem>)
        requires
            self@.valid(e as int),
        ensures
            r@ == light_items(e, self@.nodes[e as int].lights.kinds_spec()),
    {
        let kinds = self.nodes[e].lights.kinds();
        let mut r: Vec<LightItem> = Vec::new();
        let mut j: usize = 0;
        while j < kinds.len()
            invariant
                j <= kinds@.len(),
                r@ == light_items(e, kinds@.take(j as int)),
            decreases kinds@.len() - j,
        {
            r.push(LightItem { entity: e, kind: kinds[j] });
            proof {
                assert(kinds@.take(j + 1) == kinds@.take(j as int).push(kinds@[j as int]));
                assert(light_items(e, kinds@.take(j + 1)) =~= light_items(
                    e,
                    kinds@.take(j as int),
                ).push(LightItem { entity: e, kind: kinds@[j as int] }));
            }
            j += 1;
        }
        assert(kinds@.take(kinds@.len() as int) == kinds@);
        r
    }

    /// The drawables of entity `e` with its ancestors not consulted, descending at most
    /// `fuel` levels.
    fn resolve_within(&self, e: usize, fuel: usize) -> (r: Vec<DrawItem>)
        requires
            self@.wf(),
            self@.valid(e as int),
        ensures
            r@ == resolved(self@, e, fuel as nat),
        decreases fuel, 1nat,
    {
        if self.nodes[e].not_active {
            return Vec::new();
        }
        let mut r: Vec<DrawItem> = Vec::new();
        match self.blend_within(e, fuel) {
            Some(b) => r.push(b),
            None => {},
        }
        let ghost head = r@;
        let kinds = self.nodes[e].drawables.kinds();
        let mut j: usize = 0;
        while j < kinds.len()
            invariant
                j <= kinds@.len(),
                r@ == head + shape_items(e, kinds@.take(j as int)),
            decreases kinds@.len() - j,
        {
            r.push(DrawItem::Shape { entity: e, kind: kinds[j] });
            proof {
                assert(kinds@.take(j + 1) == kinds@.take(j as int).push(kinds@[j as int]));
                assert(shape_items(e, kinds@.take(j + 1)) =~= shape_items(
                    e,
                    kinds@.take(j as int),
                ).push(DrawItem::Shape { entity: e, kind: kinds@[j as int] }));
            }
            j += 1;
        }
        assert(kinds@.take(kinds@.len() as int) == kinds@);
        assert(head.len() == 0 ==> r@ =~= shape_items(e, kinds@));
        r
    }

    /// The composite of blend node `e`, descending at most `fuel` levels.
    fn blend_within(&self, e: usize, fuel: usize) -> (r: Option<DrawItem>)
        requires
            self@.wf(),
            self@.valid(e as int),
        ensures
            r == blend_object(self@, e, fuel as nat),
        decreases fuel, 0nat,
    {
        if fuel == 0 {
            return None;
        }
        let node = self.nodes[e];
        let bc = match node.blend {
            Some(bc) => bc,
            None => return None,
        };
        if node.depth.is_none() {
            return None;
        }
        let ghost v = self@;
        let ghost f1 = (fuel - 1) as nat;
        let kids = &self.children[e];
        assert(kids@ == v.children[e as int]);
        let mut picked: Vec<usize> = Vec::new();
        let mut i: usize = 0;
        assert(kids@.skip(0) =~= kids@);
        assert(picked@ + pick_viable(v, kids@, f1, 2) =~= pick_viable(v, kids@, f1, 2));
        while i < kids.len() && picked.len() < 2
            invariant
                self@ == v,
                fuel > 0,
                f1 == fuel - 1,
                v.wf(),
                v.valid(e as int),
                kids@ == v.children[e as int],
                i <= kids@.len(),
                picked@.len() <= 2,
                pick_viable(v, kids@, f1, 2) == picked@ + pick_viable(
                    v,
                    kids@.skip(i as int),
                    f1,
                    (2 - picked@.len()) as nat,
                ),
            decreases kids@.len() - i,
        {
            let c = kids[i];
            assert(v.valid(c as int));
            let rc = self.resolve_within(c, fuel - 1);
            assert(kids@.skip(i as int).drop_first() =~= kids@.skip(i + 1));
            assert(kids@.skip(i as int)[0] == c);
            let ghost before = picked@;
            let ghost need = (2 - picked@.len()) as nat;
            if rc.len() > 0 {
                picked.push(c);
                assert(pick_viable(v, kids@.skip(i as int), f1, need) == seq![c] + pick_viable(
                    v,
                    kids@.skip(i + 1),
                    f1,
                    (need - 1) as nat,
                ));
                assert(before + (seq![c] + pick_viable(v, kids@.skip(i + 1), f1, (need - 1) as nat))
                    =~= picked@ + pick_viable(v, kids@.skip(i + 1), f1, (need - 1) as nat));
            } else {
                assert(pick_viable(v, kids@.skip(i as int), f1, need) == pick_viable(
                    v,
                    kids@.skip(i + 1),
                    f1,
                    need,
                ));
            }
            i += 1;
        }
        assert(kids@.skip(i as int).len() == 0 || picked@.len() == 2);
        assert(picked@ == pick_viable(v, kids@, f1, 2)) by {
            assert(pick_viable(v, kids@.skip(i as int), f1, (2 - picked@.len()) as nat) =~= seq![]);
        }
        if picked.len() < 2 {
            return None;
        }
        proof {
            lemma_pick_viable(v, kids@, f1, 2);
        }
        let (a, b) = if self.depth_or_zero(picked[1]) < self.depth_or_zero(picked[0]) {
            (picked[1], picked[0])
        } else {
            (picked[0], picked[1])
        };
        assert(v.valid(a as int) && v.valid(b as int));
        let mut on_a = self.resolve_within(a, fuel - 1);
        let mut on_b = self.resolve_within(b, fuel - 1);
        let first = on_a.remove(0);
        let second = on_b.remove(0);
        Some(
            DrawItem::Blend {
                entity: e,
                mode: bc.lumen_blend_mode,
                first: Box::new(first),
                second: Box::new(second),
            },
        )
    }
}

} // verus!
