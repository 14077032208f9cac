use vstd::prelude::*;

use crate::ecs::EntityId;
use crate::geometry::{Aabb, Vector2, COORD_LIMIT};
use crate::group::{Direction, Group};

verus! {

#[derive(Clone, Copy, Debug)]
pub struct Circle {
    pub radius: i64,
    pub offset: Vector2,
}

impl Circle {
    pub fn new(size: i64) -> (r: Circle)
        ensures
            r.radius == size,
            r.offset == (Vector2 { x: 0i64, y: 0i64 }),
    {
        Circle { radius: size, offset: Vector2::zero() }
    }
}

#[derive(Clone, Copy, Debug)]
pub struct Rect {
    pub width: i64,
    pub height: i64,
    pub rotation: i64,
    pub offset: Vector2,
}

impl Rect {
    /// Nonnegative, bounded extents: what every collider shape must satisfy.
    pub open spec fn wf(self) -> bool {
        &&& 0 <= self.width <= COORD_LIMIT
        &&& 0 <= self.height <= COORD_LIMIT
    }

    pub fn new(width: i64, height: i64) -> (r: Rect)
        ensures
            r == (Rect { width, height, rotation: 0i64, offset: Vector2 { x: 0i64, y: 0i64 } }),
    {
        Rect { width, height, rotation: 0, offset: Vector2::zero() }
    }
}

#[derive(Clone, Copy, Debug)]
pub enum Shape {
    Circle(Circle),
    Rect(Rect),
}

impl Shape {
    /// The shape's box around the local origin. A rectangle's rotation is
    /// not taken into account.
    pub fn local_aabb(&self) -> (r: Aabb)
        requires
            match *self {
                Shape::Circle(c) => 0 <= c.radius <= COORD_LIMIT,
                Shape::Rect(rect) => rect.wf(),
            },
        ensures
            r == match *self {
                Shape::Circle(c) => Aabb {
                    x_max: c.radius,
                    x_min: (-c.radius) as i64,
                    y_max: c.radius,
                    y_min: (-c.radius) as i64,
                },
                Shape::Rect(rect) => Aabb {
                    x_max: (rect.width / 2) as i64,
                    x_min: (-(rect.width / 2)) as i64,
                    y_max: (rect.height / 2) as i64,
                    y_min: (-(rect.height / 2)) as i64,
                },
            },
    {
        match self {
            Shape::Circle(c) => Aabb::from_circle(0, 0, c.radius),
            Shape::Rect(r) => Aabb {
                x_max: r.width / 2,
                x_min: -(r.width / 2),
                y_max: r.height / 2,
                y_min: -(r.height / 2),
            },
        }
    }
}

/// An entity id together with its position and world box: the unit the
/// spatial partition works on. The box is centered on the position.
#[derive(Clone, Copy, Debug)]
pub struct EntityAabb {
    pub entity_id: EntityId,
    pub position: Vector2,
    pub aabb: Aabb,
}

impl EntityAabb {
    /// The box is centered on the position (exactly, in doubled
    /// coordinates) and all coordinates are bounded. The centering is what
    /// guarantees termination of the tree construction.
    pub open spec fn wf(self) -> bool {
        &&& self.aabb.bounded()
        &&& self.position.bounded()
        &&& self.aabb.x_min + self.aabb.x_max == 2 * self.position.x
        &&& self.aabb.y_min + self.aabb.y_max == 2 * self.position.y
    }
}

/// Per-target contact geometry computed by the narrow phase.
#[derive(Clone, Copy, Debug, PartialEq, Eq, Structural)]
pub struct CollisionInfo {
    pub target_id: EntityId,
    pub target_group: Group,
    pub target_aabb: Aabb,
    pub point: Vector2,
    pub direction: Direction,
}

/// `s` is sorted by entity id, allowing equal neighbours.
pub open spec fn sorted_ids(s: Seq<EntityId>) -> bool {
    forall|a: int, b: int| 0 <= a < b < s.len() ==> s[a].0 <= s[b].0
}

/// `s` is strictly ascending by entity id (sorted and duplicate-free).
pub open spec fn strictly_sorted_ids(s: Seq<EntityId>) -> bool {
    forall|a: int, b: int| 0 <= a < b < s.len() ==> s[a].0 < s[b].0
}

/// One step per accumulated candidate: a found candidate consumes its match
/// from the old set, an unknown one is newly entered. What remains of the
/// old set at the end has left contact.
pub open spec fn submit_step(
    temp: Seq<EntityId>,
    old_targets: Seq<EntityId>,
    next: Seq<EntityId>,
    enter: Seq<EntityId>,
) -> (Seq<EntityId>, Seq<EntityId>, Seq<EntityId>)
    decreases temp.len(),
{
    if temp.len() == 0 {
        (next, enter, old_targets)
    } else {
        let t = temp[0];
        if old_targets.contains(t) {
            submit_step(temp.drop_first(), old_targets.remove_value(t), next.push(t), enter)
        } else {
            submit_step(temp.drop_first(), old_targets, next.push(t), enter.push(t))
        }
    }
}

/// The confirmed set after a submit is exactly the accumulated candidates.
pub proof fn lemma_submit_targets(temp: Seq<EntityId>, old_targets: Seq<EntityId>, next: Seq<EntityId>, enter: Seq<EntityId>)
    ensures
        submit_step(temp, old_targets, next, enter).0 == next + temp,
    decreases temp.len(),
{
    if temp.len() == 0 {
        assert(next + temp =~= next);
    } else {
        let t = temp[0];
        if old_targets.contains(t) {
            lemma_submit_targets(temp.drop_first(), old_targets.remove_value(t), next.push(t), enter);
        } else {
            lemma_submit_targets(temp.drop_first(), old_targets, next.push(t), enter.push(t));
        }
        assert(next.push(t) + temp.drop_first() =~= next + temp);
    }
}

/// A collider: shape, group, and the per-frame contact bookkeeping.
/// `targets` is last frame's confirmed set (sorted by id for binary
/// search), `targets_temp` the current frame's accumulator, and
/// `targets_enter`/`targets_left` this frame's deltas.
#[derive(Clone, Debug)]
pub struct Collider {
    pub shape: Rect,
    pub group: Group,
    pub offset: Vector2,
    pub targets: Vec<EntityId>,
    pub target_infos: Vec<CollisionInfo>,
    pub targets_temp: Vec<EntityId>,
    pub targets_enter: Vec<EntityId>,
    pub targets_left: Vec<EntityId>,
}

impl Collider {
    pub fn new(shape: Rect, group: Group, offset: Vector2) -> (r: Collider)
        ensures
            r.shape == shape,
            r.group == group,
            r.offset == offset,
            r.targets@.len() == 0,
            r.target_infos@.len() == 0,
            r.targets_temp@.len() == 0,
            r.targets_enter@.len() == 0,
            r.targets_left@.len() == 0,
    {
        Collider {
            shape,
            group,
            offset,
            targets: Vec::new(),
            target_infos: Vec::new(),
            targets_temp: Vec::new(),
            targets_enter: Vec::new(),
            targets_left: Vec::new(),
        }
    }

    /// The world box of this collider centered at `pos`.
    pub fn aabb(&self, pos: Vector2) -> (r: Aabb)
        requires
            self.shape.wf(),
            pos.bounded(),
        ensures
            r == self.spec_aabb(pos),
            r.bounded(),
            r.x_min + r.x_max == 2 * pos.x,
            r.y_min + r.y_max == 2 * pos.y,
    {
        Aabb {
            x_max: pos.x + (self.shape.width / 2),
            x_min: pos.x - (self.shape.width / 2),
            y_max: pos.y + (self.shape.height / 2),
            y_min: pos.y - (self.shape.height / 2),
        }
    }

    pub open spec fn spec_aabb(self, pos: Vector2) -> Aabb {
        Aabb {
            x_max: (pos.x + self.shape.width / 2) as i64,
            x_min: (pos.x - self.shape.width / 2) as i64,
            y_max: (pos.y + self.shape.height / 2) as i64,
            y_min: (pos.y - self.shape.height / 2) as i64,
        }
    }

    /// The collider's box around the local origin.
    pub fn local_aabb(&self) -> (r: Aabb)
        requires
            self.shape.wf(),
        ensures
            r == (Aabb {
                x_max: (self.shape.width / 2) as i64,
                x_min: (-(self.shape.width / 2)) as i64,
                y_max: (self.shape.height / 2) as i64,
                y_min: (-(self.shape.height / 2)) as i64,
            }),
    {
        Aabb {
            x_max: self.shape.width / 2,
            x_min: -(self.shape.width / 2),
            y_max: self.shape.height / 2,
            y_min: -(self.shape.height / 2),
        }
    }

    /// Appends a candidate to this frame's accumulator; duplicates are
    /// tolerated here and resolved at submit time.
    pub fn add_target(&mut self, target: &EntityId)
        requires
            old(self).targets_temp@.len() < usize::MAX,
        ensures
            final(self).targets_temp@ == old(self).targets_temp@.push(*target),
            final(self).shape == old(self).shape,
            final(self).group == old(self).group,
            final(self).offset == old(self).offset,
            final(self).targets@ == old(self).targets@,
            final(self).target_infos@ == old(self).target_infos@,
            final(self).targets_enter@ == old(self).targets_enter@,
            final(self).targets_left@ == old(self).targets_left@,
    {
        self.targets_temp.push(*target);
    }

    /// Promotes this frame's accumulator to the confirmed set and computes
    /// the enter/left deltas, then clears the accumulator.
    pub fn targets_submit(&mut self)
        requires
            sorted_ids(old(self).targets@),
        ensures
            ({
                let (next, enter, left) = submit_step(
                    old(self).targets_temp@,
                    old(self).targets@,
                    Seq::empty(),
                    Seq::empty(),
                );
                &&& final(self).targets@ == next
                &&& final(self).targets_enter@ == enter
                &&& final(self).targets_left@ == left
            }),
            final(self).targets@ == old(self).targets_temp@,
            final(self).targets_temp@.len() == 0,
            final(self).shape == old(self).shape,
            final(self).group == old(self).group,
            final(self).offset == old(self).offset,
            final(self).target_infos@ == old(self).target_infos@,
    {
        proof {
            lemma_submit_targets(
                old(self).targets_temp@,
                old(self).targets@,
                Seq::empty(),
                Seq::empty(),
            );
            assert(Seq::<EntityId>::empty() + old(self).targets_temp@ =~= old(
                self,
            ).targets_temp@);
        }
        self.targets_enter.clear();
        self.targets_left.clear();
        let mut next_targets: Vec<EntityId> = Vec::new();
        proof {
            assert(self.targets_temp@.skip(0) =~= self.targets_temp@);
        }
        let mut i: usize = 0;
        while i < self.targets_temp.len()
            invariant
                0 <= i <= self.targets_temp@.len(),
                sorted_ids(self.targets@),
                self.targets_temp@ == old(self).targets_temp@,
                self.targets_enter@.len() <= i,
                next_targets@.len() == i,
                self.shape == old(self).shape,
                self.group == old(self).group,
                self.offset == old(self).offset,
                self.target_infos@ == old(self).target_infos@,
                self.targets_left@.len() == 0,
                submit_step(
                    old(self).targets_temp@,
                    old(self).targets@,
                    Seq::empty(),
                    Seq::empty(),
                ) == submit_step(
                    self.targets_temp@.skip(i as int),
                    self.targets@,
                    next_targets@,
                    self.targets_enter@,
                ),
            decreases self.targets_temp@.len() - i,
        {
            let t = self.targets_temp[i];
            let ghost rest = self.targets_temp@.skip(i as int);
            proof {
                assert(rest[0] == t);
                assert(rest.drop_first() =~= self.targets_temp@.skip(i + 1));
            }
            match find_sorted(&self.targets, t) {
                Some(index) => {
                    next_targets.push(t);
                    let ghost pre = self.targets@;
                    self.targets.remove(index);
                    proof {
                        lemma_remove_any_sorted(pre, index as int, t);
                        assert(self.targets@ =~= pre.remove(index as int));
                    }
                },
                None => {
                    next_targets.push(t);
                    self.targets_enter.push(t);
                },
            }
            i = i + 1;
        }
        proof {
            assert(self.targets_temp@.skip(self.targets_temp@.len() as int) =~= Seq::<
                EntityId,
            >::empty());
        }
        let ghost old2 = self.targets@;
        let ghost enter2 = self.targets_enter@;
        let mut j: usize = 0;
        while j < self.targets.len()
            invariant
                0 <= j <= self.targets@.len(),
                self.targets_left@ == self.targets@.take(j as int),
                self.targets@ == old2,
                self.targets_temp@ == old(self).targets_temp@,
                self.targets_enter@ == enter2,
                self.shape == old(self).shape,
                self.group == old(self).group,
                self.offset == old(self).offset,
                self.target_infos@ == old(self).target_infos@,
            decreases self.targets@.len() - j,
        {
            let v = self.targets[j];
            self.targets_left.push(v);
            proof {
                assert(self.targets@.take(j + 1) =~= self.targets@.take(j as int).push(
                    self.targets@[j as int],
                ));
            }
            j = j + 1;
        }
        proof {
            assert(self.targets@.take(self.targets@.len() as int) =~= self.targets@);
        }
        self.targets = next_targets;
        self.targets_temp.clear();
    }
}

/// Removing any occurrence of `t` from a sorted sequence gives the same
/// sequence as removing the first one.
proof fn lemma_remove_any_sorted(s: Seq<EntityId>, i: int, t: EntityId)
    requires
        sorted_ids(s),
        0 <= i < s.len(),
        s[i] == t,
    ensures
        s.remove(i) == s.remove_value(t),
{
    s.index_of_first_ensures(t);
    let f = s.index_of_first(t).unwrap();
    assert(s.contains(t));
    assert(0 <= f <= i);
    assert forall|k: int| f <= k <= i implies s[k] == t by {
        assert(s[f].0 <= s[k].0 <= s[i].0 || f == k || k == i);
        assert(s[k].0 == t.0);
    }
    assert(s.remove(i) =~= s.remove(f));
}

/// Binary search for an id in a sorted target list.
fn find_sorted(targets: &Vec<EntityId>, t: EntityId) -> (r: Option<usize>)
    requires
        sorted_ids(targets@),
    ensures
        match r {
            Some(i) => i < targets@.len() && targets@[i as int] == t,
            None => !targets@.contains(t),
        },
{
    let mut lo: usize = 0;
    let mut hi: usize = targets.len();
    while lo < hi
        invariant
            0 <= lo <= hi <= targets@.len(),
            sorted_ids(targets@),
            forall|k: int| 0 <= k < lo ==> targets@[k].0 < t.0,
            forall|k: int| hi <= k < targets@.len() ==> targets@[k].0 > t.0,
        decreases hi - lo,
    {
        let mid = lo + (hi - lo) / 2;
        let v = targets[mid];
        if v.0 < t.0 {
            lo = mid + 1;
        } else if v.0 > t.0 {
            hi = mid;
        } else {
            return Some(mid);
        }
    }
    proof {
        if targets@.contains(t) {
            let w = choose|w: int| 0 <= w < targets@.len() && targets@[w] == t;
            assert(targets@[w].0 == t.0);
        }
    }
    None
}


/// Removing the first occurrence of `v` from a duplicate-free list removes
/// exactly `v` and nothing else.
proof fn lemma_remove_value_props(s: Seq<EntityId>, v: EntityId)
    requires
        s.no_duplicates(),
    ensures
        s.remove_value(v).no_duplicates(),
        !s.remove_value(v).contains(v),
        forall|x: EntityId| x != v ==> #[trigger] s.remove_value(v).contains(x) == s.contains(x),
{
    s.index_of_first_ensures(v);
    if s.contains(v) {
        let f = s.index_of_first(v).unwrap();
        let r = s.remove(f);
        assert forall|a: int, b: int| 0 <= a < b < r.len() implies r[a] != r[b] by {
            if b < f {
            } else if a < f {
                assert(r[a] == s[a]);
                assert(r[b] == s[b + 1]);
            } else {
                assert(r[a] == s[a + 1]);
                assert(r[b] == s[b + 1]);
            }
        }
        assert(!r.contains(v)) by {
            if r.contains(v) {
                let k = choose|k: int| 0 <= k < r.len() && r[k] == v;
                if k < f {
                    assert(s[k] == v);
                    assert(s[f] == v);
                } else {
                    assert(s[k + 1] == v);
                    assert(s[f] == v);
                }
            }
        }
        assert forall|x: EntityId| x != v implies #[trigger] r.contains(x) == s.contains(x) by {
            if s.contains(x) {
                let k = choose|k: int| 0 <= k < s.len() && s[k] == x;
                assert(k != f);
                if k < f {
                    assert(r[k] == x);
                } else {
                    assert(r[k - 1] == x);
                }
                assert(r.contains(x));
            }
            if r.contains(x) {
                let k = choose|k: int| 0 <= k < r.len() && r[k] == x;
                if k < f {
                    assert(s[k] == x);
                } else {
                    assert(s[k + 1] == x);
                }
                assert(s.contains(x));
            }
        }
    }
}

/// Reading the submit step as the enter/stay/exit protocol: with
/// duplicate-free inputs, an entity is newly entered exactly when it is
/// confirmed this frame but was not confirmed last frame, and has left
/// exactly when it was confirmed last frame but is not this frame.
pub proof fn lemma_submit_lifecycle(temp: Seq<EntityId>, old_targets: Seq<EntityId>)
    requires
        temp.no_duplicates(),
        old_targets.no_duplicates(),
    ensures
        ({
            let (next, enter, left) = submit_step(temp, old_targets, Seq::empty(), Seq::empty());
            &&& next == temp
            &&& (forall|t: EntityId|
                #[trigger] enter.contains(t) <==> (temp.contains(t) && !old_targets.contains(t)))
            &&& (forall|t: EntityId|
                #[trigger] left.contains(t) <==> (old_targets.contains(t) && !temp.contains(t)))
        }),
{
    lemma_submit_targets(temp, old_targets, Seq::empty(), Seq::empty());
    assert(Seq::<EntityId>::empty() + temp =~= temp);
    lemma_submit_lifecycle_rec(temp, old_targets, Seq::empty(), Seq::empty());
    let (next, enter, left) = submit_step(temp, old_targets, Seq::empty(), Seq::empty());
    assert forall|t: EntityId| #[trigger] enter.contains(t) <==> (temp.contains(t)
        && !old_targets.contains(t)) by {
        assert(!Seq::<EntityId>::empty().contains(t));
    }
    assert forall|t: EntityId| #[trigger] left.contains(t) <==> (old_targets.contains(t)
        && !temp.contains(t)) by {}
}

/// Inductive core of the lifecycle reading, generalized over the
/// accumulators.
proof fn lemma_submit_lifecycle_rec(
    temp: Seq<EntityId>,
    old_targets: Seq<EntityId>,
    next: Seq<EntityId>,
    enter: Seq<EntityId>,
)
    requires
        temp.no_duplicates(),
        old_targets.no_duplicates(),
    ensures
        ({
            let (n, e, l) = submit_step(temp, old_targets, next, enter);
            &&& (forall|t: EntityId|
                #[trigger] e.contains(t) <==> (enter.contains(t) || (temp.contains(t)
                    && !old_targets.contains(t))))
            &&& (forall|t: EntityId|
                #[trigger] l.contains(t) <==> (old_targets.contains(t) && !temp.contains(t)))
        }),
    decreases temp.len(),
{
    let (n, e, l) = submit_step(temp, old_targets, next, enter);
    if temp.len() == 0 {
        assert forall|t: EntityId| #[trigger] l.contains(t) <==> (old_targets.contains(t)
            && !temp.contains(t)) by {}
    } else {
        let t0 = temp[0];
        let rest = temp.drop_first();
        assert(temp.contains(t0));
        assert(rest.no_duplicates()) by {
            assert forall|a: int, b: int| 0 <= a < b < rest.len() implies rest[a] != rest[b] by {
                assert(rest[a] == temp[a + 1]);
                assert(rest[b] == temp[b + 1]);
            }
        }
        assert(!rest.contains(t0)) by {
            if rest.contains(t0) {
                let k = choose|k: int| 0 <= k < rest.len() && rest[k] == t0;
                assert(temp[k + 1] == t0);
                assert(temp[0] == t0);
            }
        }
        assert forall|x: EntityId| x != t0 implies #[trigger] temp.contains(x) == rest.contains(
            x,
        ) by {
            if temp.contains(x) {
                let k = choose|k: int| 0 <= k < temp.len() && temp[k] == x;
                assert(k != 0);
                assert(rest[k - 1] == x);
            }
            if rest.contains(x) {
                let k = choose|k: int| 0 <= k < rest.len() && rest[k] == x;
                assert(temp[k + 1] == x);
            }
        }
        if old_targets.contains(t0) {
            let old2 = old_targets.remove_value(t0);
            lemma_remove_value_props(old_targets, t0);
            lemma_submit_lifecycle_rec(rest, old2, next.push(t0), enter);
            let (n2, e2, l2) = submit_step(rest, old2, next.push(t0), enter);
            assert(n == n2 && e == e2 && l == l2);
            assert forall|t: EntityId| #[trigger] e.contains(t) <==> (enter.contains(t) || (
            temp.contains(t) && !old_targets.contains(t))) by {
                if t == t0 {
                    assert(!rest.contains(t0));
                    assert(old_targets.contains(t0));
                } else {
                    assert(old2.contains(t) == old_targets.contains(t));
                    assert(temp.contains(t) == rest.contains(t));
                }
            }
            assert forall|t: EntityId| #[trigger] l.contains(t) <==> (old_targets.contains(t)
                && !temp.contains(t)) by {
                if t == t0 {
                    assert(!old2.contains(t0));
                } else {
                    assert(old2.contains(t) == old_targets.contains(t));
                    assert(temp.contains(t) == rest.contains(t));
                }
            }
        } else {
            lemma_submit_lifecycle_rec(rest, old_targets, next.push(t0), enter.push(t0));
            let (n2, e2, l2) = submit_step(rest, old_targets, next.push(t0), enter.push(t0));
            assert(n == n2 && e == e2 && l == l2);
            assert forall|t: EntityId| #[trigger] e.contains(t) <==> (enter.contains(t) || (
            temp.contains(t) && !old_targets.contains(t))) by {
                if t == t0 {
                    assert(enter.push(t0).contains(t0)) by {
                        assert(enter.push(t0)[enter.len() as int] == t0);
                    }
                } else {
                    assert(enter.push(t0).contains(t) == enter.contains(t)) by {
                        if enter.contains(t) {
                            let k = choose|k: int| 0 <= k < enter.len() && enter[k] == t;
                            assert(enter.push(t0)[k] == t);
                        }
                        if enter.push(t0).contains(t) {
                            let k = choose|k: int|
                                0 <= k < enter.push(t0).len() && enter.push(t0)[k] == t;
                            assert(k < enter.len());
                            assert(enter[k] == t);
                        }
                    }
                    assert(temp.contains(t) == rest.contains(t));
                }
            }
            assert forall|t: EntityId| #[trigger] l.contains(t) <==> (old_targets.contains(t)
                && !temp.contains(t)) by {
                if t == t0 {
                    assert(!old_targets.contains(t0));
                } else {
                    assert(temp.contains(t) == rest.contains(t));
                }
            }
        }
    }
}

} // verus!
