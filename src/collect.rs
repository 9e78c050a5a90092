//! Discovery of the entities to draw, animation cursors and the depth order.
use vstd::prelude::*;
use crate::scene::{AnimationClock, Node, Scene, SceneView};

verus! {

/// An entity of the frame's work list with the depth it is ordered by.
#[derive(Clone, Copy, PartialEq, Eq, Structural, Debug)]
pub struct EntityDepthItem {
    pub entity: usize,
    pub depth: i64,
}


/// The order of the work list: by depth alone. Entries of equal depth are neither
/// before nor after each other.
pub open spec fn precedes(a: EntityDepthItem, b: EntityDepthItem) -> bool {
    a.depth < b.depth
}

impl EntityDepthItem {
    /// Whether `self` is drawn before `other` whatever their order in the work list.
    pub fn precedes(&self, other: &EntityDepthItem) -> (r: bool)
        ensures
            r == precedes(*self, *other),
    {
        self.depth < other.depth
    }
}


/// Whether an entity carries a drawable, a light or a blend component.
pub open spec fn is_candidate(n: Node) -> bool {
    n.drawables.any() || n.lights.any() || n.blend is Some
}

/// The candidate entities among the first `k`, in ascending order.
pub open spec fn candidates_below(v: SceneView, k: nat) -> Seq<usize>
    decreases k,
{
    if k == 0 {
        seq![]
    } else {
        candidates_below(v, (k - 1) as nat) + if is_candidate(v.nodes[k - 1]) {
            seq![(k - 1) as usize]
        } else {
            seq![]
        }
    }
}

/// The work-list entry of entity `e`: its depth, or 0 without a transform.
pub open spec fn depth_item(v: SceneView, e: usize) -> EntityDepthItem {
    EntityDepthItem {
        entity: e,
        depth: match v.nodes[e as int].depth {
            Some(z) => z,
            None => 0,
        },
    }
}

/// The work list in discovery order.
pub open spec fn collected(v: SceneView) -> Seq<EntityDepthItem> {
    candidates_below(v, v.len()).map_values(|e: usize| depth_item(v, e))
}


/// A clock set to session time `t`.
pub open spec fn advance_clock(c: AnimationClock, t: i64) -> AnimationClock {
    AnimationClock { elapsed: (t - c.start_time) as i128, ..c }
}

/// Every clock set to session time `t`.
pub open spec fn advance_clocks(c: Seq<AnimationClock>, t: i64) -> Seq<AnimationClock> {
    c.map_values(|k: AnimationClock| advance_clock(k, t))
}

/// Holds of the entries of depth `d`.
pub open spec fn depth_is(d: i64) -> spec_fn(EntityDepthItem) -> bool {
    |x: EntityDepthItem| x.depth == d
}

/// Depths never decrease along `s`.
pub open spec fn sorted_by_depth(s: Seq<EntityDepthItem>) -> bool {
    forall|i: int, j: int| 0 <= i < j < s.len() ==> (#[trigger] s[i]).depth <= (#[trigger] s[j]).depth
}

/// `r` is `s` sorted stably by depth: `r` is ordered by depth, and the entries of each
/// depth come in `r` in the order they have in `s`.
pub open spec fn stable_depth_sort_of(r: Seq<EntityDepthItem>, s: Seq<EntityDepthItem>) -> bool {
    &&& r.len() == s.len()
    &&& sorted_by_depth(r)
    &&& forall|d: i64| #[trigger] r.filter(depth_is(d)) == s.filter(depth_is(d))
}

proof fn lemma_filter_push(s: Seq<EntityDepthItem>, x: EntityDepthItem, d: i64)
    ensures
        s.push(x).filter(depth_is(d)) == if x.depth == d {
            s.filter(depth_is(d)).push(x)
        } else {
            s.filter(depth_is(d))
        },
{
    reveal(Seq::filter);
    assert(s.push(x).drop_last() =~= s);
    assert(s.push(x).last() == x);
}

proof fn lemma_filter_none(s: Seq<EntityDepthItem>, d: i64)
    requires
        forall|i: int| 0 <= i < s.len() ==> (#[trigger] s[i]).depth != d,
    ensures
        s.filter(depth_is(d)) == Seq::<EntityDepthItem>::empty(),
    decreases s.len(),
{
    reveal(Seq::filter);
    if s.len() > 0 {
        let t = s.drop_last();
        assert forall|i: int| 0 <= i < t.len() implies (#[trigger] t[i]).depth != d by {
            assert(t[i] == s[i]);
        }
        lemma_filter_none(t, d);
        assert(s[s.len() - 1] == s.last());
    }
}

/// Putting `x` after the entries of `out` of depth up to its own keeps `out` a stable sort,
/// now of `s` with `x` appended.
proof fn lemma_insert_keeps_stable_sort(
    out: Seq<EntityDepthItem>,
    s: Seq<EntityDepthItem>,
    x: EntityDepthItem,
    p: int,
)
    requires
        stable_depth_sort_of(out, s),
        0 <= p <= out.len(),
        forall|k: int| 0 <= k < p ==> !precedes(x, #[trigger] out[k]),
        p < out.len() ==> precedes(x, out[p]),
    ensures
        stable_depth_sort_of(out.insert(p, x), s.push(x)),
{
    let r = out.insert(p, x);
    let a = out.subrange(0, p);
    let b = out.subrange(p, out.len() as int);
    assert(forall|k: int| p <= k < out.len() ==> x.depth < (#[trigger] out[k]).depth) by {
        assert forall|k: int| p <= k < out.len() implies x.depth < (#[trigger] out[k]).depth by {
            if k > p {
                assert(out[p].depth <= out[k].depth);
            }
        }
    }
    assert forall|i: int, j: int| 0 <= i < j < r.len() implies (#[trigger] r[i]).depth <= (
    #[trigger] r[j]).depth by {
        if j < p {
            assert(r[i] == out[i] && r[j] == out[j]);
        } else if j == p {
            assert(r[i] == out[i]);
        } else if i < p {
            assert(r[i] == out[i] && r[j] == out[j - 1]);
            assert(out[i].depth <= out[j - 1].depth);
        } else if i == p {
            assert(r[j] == out[j - 1]);
        } else {
            assert(r[i] == out[i - 1] && r[j] == out[j - 1]);
        }
    }
    assert(r =~= a + seq![x] + b);
    assert(out =~= a + b);
    assert forall|d: i64| #[trigger] r.filter(depth_is(d)) == s.push(x).filter(depth_is(d)) by {
        Seq::filter_distributes_over_add(a + seq![x], b, depth_is(d));
        Seq::filter_distributes_over_add(a, seq![x], depth_is(d));
        Seq::filter_distributes_over_add(a, b, depth_is(d));
        lemma_filter_push(s, x, d);
        lemma_filter_push(Seq::<EntityDepthItem>::empty(), x, d);
        assert(Seq::<EntityDepthItem>::empty().push(x) =~= seq![x]);
        reveal(Seq::filter);
        assert(Seq::<EntityDepthItem>::empty().filter(depth_is(d)) =~= Seq::<EntityDepthItem>::empty());
        if x.depth == d {
            assert forall|i: int| 0 <= i < b.len() implies (#[trigger] b[i]).depth != d by {
                assert(b[i] == out[p + i]);
            }
            lemma_filter_none(b, d);
            assert(a.filter(depth_is(d)) + seq![x] + b.filter(depth_is(d)) =~= (a.filter(depth_is(d))
                + b.filter(depth_is(d))).push(x));
        } else {
            assert(a.filter(depth_is(d)) + Seq::<EntityDepthItem>::empty() =~= a.filter(depth_is(d)));
        }
    }
}

/// A stable sort by depth is unique: two sequences ordered by depth whose entries of each
/// depth come in the same order are equal.
pub proof fn lemma_stable_depth_sort_unique(r1: Seq<EntityDepthItem>, r2: Seq<EntityDepthItem>)
    requires
        r1.len() == r2.len(),
        sorted_by_depth(r1),
        sorted_by_depth(r2),
        forall|d: i64| #[trigger] r1.filter(depth_is(d)) == r2.filter(depth_is(d)),
    ensures
        r1 == r2,
    decreases r1.len(),
{
    if r1.len() == 0 {
        assert(r1 =~= r2);
    } else {
        let n = r1.len() as int;
        let x1 = r1.last();
        let x2 = r2.last();
        assert(r1[n - 1] == x1 && r2[n - 1] == x2);
        r1.lemma_filter_contains(depth_is(x1.depth), n - 1);
        r2.lemma_filter_contains(depth_is(x2.depth), n - 1);
        assert(r1.filter(depth_is(x1.depth)) == r2.filter(depth_is(x1.depth)));
        assert(r2.filter(depth_is(x2.depth)) == r1.filter(depth_is(x2.depth)));
        r2.lemma_filter_contains_rev(depth_is(x1.depth), x1);
        r1.lemma_filter_contains_rev(depth_is(x2.depth), x2);
        let k2 = choose|k: int| 0 <= k < r2.len() && r2[k] == x1;
        let k1 = choose|k: int| 0 <= k < r1.len() && r1[k] == x2;
        if k2 < n - 1 {
            assert(r2[k2].depth <= r2[n - 1].depth);
        }
        if k1 < n - 1 {
            assert(r1[k1].depth <= r1[n - 1].depth);
        }
        let m = x1.depth;
        assert(x2.depth == m);
        let t1 = r1.drop_last();
        let t2 = r2.drop_last();
        assert(r1 =~= t1.push(x1));
        assert(r2 =~= t2.push(x2));
        lemma_filter_push(t1, x1, m);
        lemma_filter_push(t2, x2, m);
        assert(r1.filter(depth_is(m)).last() == x1);
        assert(x1 == x2);
        assert forall|d: i64| #[trigger] t1.filter(depth_is(d)) == t2.filter(depth_is(d)) by {
            lemma_filter_push(t1, x1, d);
            lemma_filter_push(t2, x2, d);
            assert(r1.filter(depth_is(d)) == r2.filter(depth_is(d)));
            if d == m {
                assert(t1.filter(depth_is(d)).push(x1).drop_last() =~= t1.filter(depth_is(d)));
                assert(t2.filter(depth_is(d)).push(x2).drop_last() =~= t2.filter(depth_is(d)));
            }
        }
        assert forall|i: int, j: int| 0 <= i < j < t1.len() implies (#[trigger] t1[i]).depth <= (
        #[trigger] t1[j]).depth by {
            assert(t1[i] == r1[i] && t1[j] == r1[j]);
        }
        assert forall|i: int, j: int| 0 <= i < j < t2.len() implies (#[trigger] t2[i]).depth <= (
        #[trigger] t2[j]).depth by {
            assert(t2[i] == r2[i] && t2[j] == r2[j]);
        }
        lemma_stable_depth_sort_unique(t1, t2);
    }
}

/// A stable sort by depth holds the entries of what it sorts, and nothing else.
pub proof fn lemma_stable_depth_sort_members(r: Seq<EntityDepthItem>, s: Seq<EntityDepthItem>)
    requires
        stable_depth_sort_of(r, s),
    ensures
        forall|y: EntityDepthItem| r.contains(y) <==> s.contains(y),
{
    assert forall|y: EntityDepthItem| r.contains(y) <==> s.contains(y) by {
        let f = depth_is(y.depth);
        assert(r.filter(f) == s.filter(f));
        if r.contains(y) {
            let i = choose|i: int| 0 <= i < r.len() && r[i] == y;
            r.lemma_filter_contains(f, i);
            s.lemma_filter_contains_rev(f, y);
        }
        if s.contains(y) {
            let i = choose|i: int| 0 <= i < s.len() && s[i] == y;
            s.lemma_filter_contains(f, i);
            r.lemma_filter_contains_rev(f, y);
        }
    }
}

/// Two entries of depth `d`, in order in `r`, come in the same order among the entries of
/// depth `d`.
pub proof fn lemma_filter_keeps_order(r: Seq<EntityDepthItem>, d: i64, i: int, j: int)
    requires
        0 <= i < j < r.len(),
        r[i].depth == d,
        r[j].depth == d,
    ensures
        exists|a: int, b: int|
            0 <= a < b < r.filter(depth_is(d)).len() && r.filter(depth_is(d))[a] == r[i] && r.filter(
                depth_is(d),
            )[b] == r[j],
    decreases r.len(),
{
    reveal(Seq::filter);
    let t = r.drop_last();
    let ft = t.filter(depth_is(d));
    let f = r.filter(depth_is(d));
    assert(r[r.len() - 1] == r.last());
    if j == r.len() - 1 {
        assert(t[i] == r[i]);
        t.lemma_filter_contains(depth_is(d), i);
        let a = choose|a: int| 0 <= a < ft.len() && ft[a] == r[i];
        assert(f == ft.push(r.last()));
        assert(f[a] == r[i] && f[ft.len() as int] == r[j]);
    } else {
        assert(t[i] == r[i] && t[j] == r[j]);
        lemma_filter_keeps_order(t, d, i, j);
        let (a, b) = choose|a: int, b: int|
            0 <= a < b < ft.len() && ft[a] == r[i] && ft[b] == r[j];
        assert(f[a] == r[i] && f[b] == r[j]);
    }
}

/// Filtering keeps entities strictly ascending.
pub proof fn lemma_filter_ascending(s: Seq<EntityDepthItem>, d: i64)
    requires
        forall|i: int, j: int| 0 <= i < j < s.len() ==> (#[trigger] s[i]).entity < (#[trigger] s[j]).entity,
    ensures
        forall|i: int, j: int|
            0 <= i < j < s.filter(depth_is(d)).len() ==> (#[trigger] s.filter(depth_is(d))[i]).entity
                < (#[trigger] s.filter(depth_is(d))[j]).entity,
    decreases s.len(),
{
    reveal(Seq::filter);
    if s.len() > 0 {
        let t = s.drop_last();
        assert forall|i: int, j: int| 0 <= i < j < t.len() implies (#[trigger] t[i]).entity < (
        #[trigger] t[j]).entity by {
            assert(t[i] == s[i] && t[j] == s[j]);
        }
        lemma_filter_ascending(t, d);
        let ft = t.filter(depth_is(d));
        let f = s.filter(depth_is(d));
        assert(s[s.len() - 1] == s.last());
        assert forall|i: int, j: int| 0 <= i < j < f.len() implies (#[trigger] f[i]).entity < (
        #[trigger] f[j]).entity by {
            if j < ft.len() {
                assert(f[i] == ft[i] && f[j] == ft[j]);
            } else {
                assert(f[i] == ft[i]);
                assert(ft.contains(ft[i]));
                t.lemma_filter_contains_rev(depth_is(d), ft[i]);
                let k = choose|k: int| 0 <= k < t.len() && t[k] == ft[i];
                assert(s[k] == t[k]);
            }
        }
    }
}

/// Inserts `x` after the entries of `out` that it does not precede.
fn insert_by_depth(out: &mut Vec<EntityDepthItem>, x: EntityDepthItem, Ghost(s): Ghost<Seq<EntityDepthItem>>)
    requires
        stable_depth_sort_of(old(out)@, s),
    ensures
        stable_depth_sort_of(final(out)@, s.push(x)),
{
    let mut p: usize = 0;
    while p < out.len() && !x.precedes(&out[p])
        invariant
            p <= out@.len(),
            forall|k: int| 0 <= k < p ==> !precedes(x, #[trigger] out@[k]),
        decreases out@.len() - p,
    {
        p += 1;
    }
    proof {
        lemma_insert_keeps_stable_sort(out@, s, x, p as int);
    }
    out.insert(p, x);
}

/// The work list sorted stably by depth: ordered by depth, entries of equal depth in
/// the order they had.
pub fn sort_by_depth(items: &Vec<EntityDepthItem>) -> (r: Vec<EntityDepthItem>)
    ensures
        stable_depth_sort_of(r@, items@),
{
    let mut out: Vec<EntityDepthItem> = Vec::new();
    let mut i: usize = 0;
    assert(out@ =~= items@.take(0));
    while i < items.len()
        invariant
            i <= items@.len(),
            stable_depth_sort_of(out@, items@.take(i as int)),
        decreases items@.len() - i,
    {
        assert(items@.take(i + 1) =~= items@.take(i as int).push(items@[i as int]));
        insert_by_depth(&mut out, items[i], Ghost(items@.take(i as int)));
        i += 1;
    }
    assert(items@.take(items@.len() as int) =~= items@);
    out
}

/// The candidates among the first `k` entities are those below `k` that carry a drawable,
/// a light or a blend component, in strictly ascending order.
pub proof fn lemma_candidates_below(v: SceneView, k: nat)
    requires
        k <= v.len(),
        v.len() <= usize::MAX,
    ensures
        forall|i: int, j: int|
            0 <= i < j < candidates_below(v, k).len() ==> #[trigger] candidates_below(v, k)[i]
                < #[trigger] candidates_below(v, k)[j],
        forall|i: int|
            0 <= i < candidates_below(v, k).len() ==> {
                &&& #[trigger] candidates_below(v, k)[i] < k
                &&& is_candidate(v.nodes[candidates_below(v, k)[i] as int])
            },
        forall|e: usize|
            e < k && is_candidate(v.nodes[e as int]) ==> #[trigger] candidates_below(v, k).contains(e),
    decreases k,
{
    if k > 0 {
        lemma_candidates_below(v, (k - 1) as nat);
        let prev = candidates_below(v, (k - 1) as nat);
        let cur = candidates_below(v, k);
        let tail = if is_candidate(v.nodes[k - 1]) {
            seq![(k - 1) as usize]
        } else {
            seq![]
        };
        assert(cur == prev + tail);
        assert(cur.len() > prev.len() ==> cur[prev.len() as int] == (k - 1) as usize && is_candidate(
            v.nodes[k - 1],
        ) && cur.len() == prev.len() + 1);
        assert forall|i: int| 0 <= i < prev.len() implies cur[i] == prev[i] by {}
        assert forall|i: int, j: int| 0 <= i < j < cur.len() implies #[trigger] cur[i] < #[trigger] cur[j] by {
            if j >= prev.len() {
                assert(cur[j] == k - 1);
                assert(cur[i] == prev[i]);
            } else {
                assert(cur[i] == prev[i] && cur[j] == prev[j]);
            }
        }
        assert forall|i: int| 0 <= i < cur.len() implies {
            &&& #[trigger] cur[i] < k
            &&& is_candidate(v.nodes[cur[i] as int])
        } by {
            if i < prev.len() {
                assert(cur[i] == prev[i]);
            }
        }
        assert forall|e: usize| e < k && is_candidate(v.nodes[e as int]) implies #[trigger] cur.contains(e) by {
            if e < k - 1 {
                assert(prev.contains(e));
                let i = choose|i: int| 0 <= i < prev.len() && prev[i] == e;
                assert(cur[i] == e);
            } else {
                assert(cur[prev.len() as int] == e);
            }
        }
    }
}

impl Scene {
    /// Sets every animation cursor to session time `total_time` and lists, in ascending
    /// order, the entities that carry a drawable, a light or a blend component.
    pub fn get_all_entities_with_drawables(&mut self, total_time: i64) -> (r: Vec<usize>)
        requires
            old(self).wf(),
        ensures
            final(self)@ == old(self)@,
            final(self).clocks@ == advance_clocks(old(self).clocks@, total_time),
            final(self).wf(),
            r@ == candidates_below(old(self)@, old(self)@.len()),
    {
        let ghost v = self@;
        let ghost c0 = self.clocks@;
        let mut k: usize = 0;
        while k < self.clocks.len()
            invariant
                self@ == v,
                self.clocks@.len() == c0.len(),
                k <= c0.len(),
                forall|i: int| 0 <= i < k ==> self.clocks@[i] == advance_clock(c0[i], total_time),
                forall|i: int| k <= i < c0.len() ==> self.clocks@[i] == c0[i],
            decreases c0.len() - k,
        {
            let c = self.clocks[k];
            let elapsed: i128 = total_time as i128 - c.start_time as i128;
            let advanced = AnimationClock {
                entity: c.entity,
                state_machine: c.state_machine,
                start_time: c.start_time,
                elapsed,
            };
            self.clocks.set(k, advanced);
            k += 1;
        }
        assert(self.clocks@ =~= advance_clocks(c0, total_time));
        assert forall|i: int| 0 <= i < self.clocks@.len() implies #[trigger] self.clock_ok(
            self.clocks@[i],
        ) by {
            assert(old(self).clock_ok(c0[i]));
        }
        let n = self.nodes.len();
        let mut r: Vec<usize> = Vec::new();
        let mut e: usize = 0;
        while e < n
            invariant
                self@ == v,
                n == v.len(),
                e <= n,
                r@ == candidates_below(v, e as nat),
            decreases n - e,
        {
            let node = self.nodes[e];
            if node.drawables.carries_any() || node.lights.carries_any() || node.blend.is_some() {
                r.push(e);
            }
            assert(r@ =~= candidates_below(v, (e + 1) as nat));
            e += 1;
        }
        r
    }

    /// Appends the work list, in discovery order, to `out_list`, after setting every
    /// animation cursor to session time `total_time`.
    pub fn collect_renderable_entities(
        &mut self,
        out_list: &mut Vec<EntityDepthItem>,
        total_time: i64,
    )
        requires
            old(self).wf(),
        ensures
            final(self)@ == old(self)@,
            final(self).clocks@ == advance_clocks(old(self).clocks@, total_time),
            final(self).wf(),
            final(out_list)@ == old(out_list)@ + collected(old(self)@),
    {
        let ghost v = self@;
        let ghost start = out_list@;
        let entities = self.get_all_entities_with_drawables(total_time);
        proof {
            lemma_candidates_below(v, v.len());
        }
        let mut i: usize = 0;
        while i < entities.len()
            invariant
                self@ == v,
                v.wf(),
                i <= entities@.len(),
                entities@ == candidates_below(v, v.len()),
                forall|k: int| 0 <= k < entities@.len() ==> #[trigger] entities@[k] < v.len(),
                out_list@ == start + entities@.take(i as int).map_values(
                    |e: usize| depth_item(v, e),
                ),
            decreases entities@.len() - i,
        {
            let e = entities[i];
            let depth = match self.nodes[e].depth {
                Some(z) => z,
                None => 0,
            };
            out_list.push(EntityDepthItem { entity: e, depth });
            assert(entities@.take(i + 1).map_values(|e: usize| depth_item(v, e)) =~= entities@.take(
                i as int,
            ).map_values(|e: usize| depth_item(v, e)).push(depth_item(v, e)));
            i += 1;
        }
        assert(entities@.take(entities@.len() as int) =~= entities@);
    }
}

} // verus!
