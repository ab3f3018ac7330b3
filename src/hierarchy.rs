use vstd::prelude::*;

use crate::entity::Entity;
use crate::transform::{Layout, Rect, UiTransform};

verus! {

/// What the store holds for one slot of the arena.
pub struct SlotModel {
    pub generation: u32,
    pub alive: bool,
    pub parent: Option<Entity>,
    pub parent_changed: bool,
    pub previous_parent: Option<Option<Entity>>,
    pub children: Option<Seq<Entity>>,
    pub transform: Option<UiTransform>,
    pub hidden: bool,
}

struct Slot {
    generation: u32,
    alive: bool,
    parent: Option<Entity>,
    parent_changed: bool,
    previous_parent: Option<Option<Entity>>,
    children: Option<Vec<Entity>>,
    transform: Option<UiTransform>,
    hidden: bool,
}

impl Slot {
    closed spec fn model(&self) -> SlotModel {
        SlotModel {
            generation: self.generation,
            alive: self.alive,
            parent: self.parent,
            parent_changed: self.parent_changed,
            previous_parent: self.previous_parent,
            children: match self.children {
                Some(v) => Some(v@),
                None => None,
            },
            transform: self.transform,
            hidden: self.hidden,
        }
    }
}

/// An arena of entities with one side table per component: `Parent`,
/// `PreviousParent`, `Children`, `UiTransform` and the hidden marker.
/// A `Parent` edit marks the entity as changed until the synchroniser sees it.
pub struct UiWorld {
    slots: Vec<Slot>,
}

/// The handle of the entity that lives in slot `i`.
pub open spec fn handle(w: UiWorld, i: int) -> Entity {
    Entity { index: i as u32, generation: w.slot(i).generation }
}

pub open spec fn live_index(w: UiWorld, i: int) -> bool {
    0 <= i < w.len() && w.slot(i).alive
}

/// Whether slot `i` holds a layout node without the hidden marker.
pub open spec fn visible(w: UiWorld, i: int) -> bool {
    live_index(w, i) && w.slot(i).transform is Some && !w.slot(i).hidden
}

/// Whether `e` names an entity that exists.
pub open spec fn live(w: UiWorld, e: Entity) -> bool {
    live_index(w, e.index as int) && w.slot(e.index as int).generation == e.generation
}

/// Whether the `Children` of slot `j` holds `c`.
pub open spec fn in_children(w: UiWorld, j: int, c: Entity) -> bool {
    match w.slot(j).children {
        Some(l) => l.contains(c),
        None => false,
    }
}

/// `Children` back-references agree with `PreviousParent`: a live entity is
/// listed by a live entity exactly when that one is its previous parent.
pub open spec fn children_agree(w: UiWorld) -> bool {
    forall|i: int, j: int|
        #![trigger in_children(w, j, handle(w, i))]
        live_index(w, i) && live_index(w, j) ==> (in_children(w, j, handle(w, i))
            <==> w.slot(i).previous_parent == Some(Some(handle(w, j))))
}

pub open spec fn prev_below(pp: Option<Option<Entity>>, n: nat) -> bool {
    match pp {
        Some(Some(p)) => p.index < n,
        _ => true,
    }
}

/// The invariant of the store.
pub open spec fn wf(w: UiWorld) -> bool {
    &&& slots_ok(w)
    &&& children_agree(w)
}

/// The parts of the invariant that do not relate two entities.
pub open spec fn slots_ok(w: UiWorld) -> bool {
    &&& w.len() <= u32::MAX
    &&& forall|j: int|
        #![trigger w.slot(j)]
        live_index(w, j) && w.slot(j).children is Some ==> w.slot(j).children->0.no_duplicates()
    &&& forall|i: int|
        #![trigger w.slot(i)]
        live_index(w, i) ==> prev_below(w.slot(i).previous_parent, w.len())
    &&& forall|j: int, k: int|
        #![trigger w.slot(j).children->0[k]]
        live_index(w, j) && w.slot(j).children is Some && 0 <= k < w.slot(j).children->0.len()
            ==> w.slot(j).children->0[k].index < w.len()
    &&& forall|i: int|
        #![trigger w.slot(i)]
        live_index(w, i) && w.slot(i).parent is Some && !w.slot(i).parent_changed
            && w.slot(i).previous_parent is Some ==> w.slot(i).previous_parent->0
            == w.slot(i).parent
    &&& forall|i: int|
        #![trigger w.slot(i)]
        live_index(w, i) && w.slot(i).parent is Some && w.slot(i).previous_parent is None
            ==> w.slot(i).parent_changed
}

/// The entries of `o`, or none.
pub open spec fn list_or_empty(o: Option<Seq<Entity>>) -> Seq<Entity> {
    match o {
        Some(l) => l,
        None => Seq::empty(),
    }
}

/// Wherever `x` and `y` stand in `o`, `x` stands first.
pub open spec fn precedes(o: Seq<Entity>, x: Entity, y: Entity) -> bool {
    forall|ka: int, kb: int|
        0 <= ka < o.len() && 0 <= kb < o.len() && #[trigger] o[ka] == x && #[trigger] o[kb] == y ==> ka < kb
}

/// In a list derived from `o`, `x` may stand before `y`: entries of `o`
/// keep their order and come first; the others follow by slot index.
pub open spec fn stands_before(o: Seq<Entity>, x: Entity, y: Entity) -> bool {
    if o.contains(x) {
        !o.contains(y) || precedes(o, x, y)
    } else {
        !o.contains(y) && x.index < y.index
    }
}

/// `s` lists the entries it keeps from `o` in their order in `o`, followed
/// by new entries in slot order.
pub open spec fn ordered_after(o: Seq<Entity>, s: Seq<Entity>) -> bool {
    forall|a: int, b: int| 0 <= a < b < s.len() ==> stands_before(o, #[trigger] s[a], #[trigger] s[b])
}

proof fn lemma_remove_ordered(o: Seq<Entity>, s: Seq<Entity>, k: int)
    requires
        ordered_after(o, s),
        0 <= k < s.len(),
    ensures
        ordered_after(o, s.remove(k)),
{
    let t = s.remove(k);
    assert forall|a: int, b: int| 0 <= a < b < t.len() implies stands_before(o, #[trigger] t[a], #[trigger] t[b]) by {
        let a2 = if a < k { a } else { a + 1 };
        let b2 = if b < k { b } else { b + 1 };
        assert(t[a] == s[a2] && t[b] == s[b2]);
        assert(stands_before(o, s[a2], s[b2]));
    }
}

proof fn lemma_push_ordered(o: Seq<Entity>, s: Seq<Entity>, e: Entity)
    requires
        ordered_after(o, s),
        forall|a: int| 0 <= a < s.len() ==> stands_before(o, #[trigger] s[a], e),
    ensures
        ordered_after(o, s.push(e)),
{
    let t = s.push(e);
    assert forall|a: int, b: int| 0 <= a < b < t.len() implies stands_before(o, #[trigger] t[a], #[trigger] t[b]) by {
        if b < s.len() {
            assert(t[a] == s[a] && t[b] == s[b]);
        } else {
            assert(t[a] == s[a] && t[b] == e);
        }
    }
}

/// Entity `c` left the list of `j` in the first phase: it has no `Parent`
/// but `j` is its previous parent.
pub open spec fn departs_unparented(w: UiWorld, c: int, j: int) -> bool {
    &&& live_index(w, c)
    &&& live_index(w, j)
    &&& w.slot(c).parent is None
    &&& w.slot(c).previous_parent == Some(Some(handle(w, j)))
}

/// The `PreviousParent` of slot `k` after the first phase.
pub open spec fn prev_after_removals(w: UiWorld, k: int) -> Option<Option<Entity>> {
    if live_index(w, k) && w.slot(k).parent is None && w.slot(k).previous_parent matches Some(Some(_)) {
        Some(None)
    } else {
        w.slot(k).previous_parent
    }
}

/// The lists of `w` are those of `w0` without the entities of slots below
/// `i` that left them in the first phase.
pub open spec fn lists_after_removals(w0: UiWorld, w: UiWorld, i: int) -> bool {
    forall|j: int|
        #![trigger w.slot(j)]
        live_index(w0, j) ==> {
            &&& (w0.slot(j).children is None ==> w.slot(j).children is None)
            &&& (w0.slot(j).children is Some ==> {
                &&& w.slot(j).children is Some
                &&& ordered_after(w0.slot(j).children->0, w.slot(j).children->0)
                &&& forall|x: Entity|
                    #[trigger] w.slot(j).children->0.contains(x) <==> (w0.slot(j).children->0.contains(x)
                        && !(live(w0, x) && x.index < i && departs_unparented(w0, x.index as int, j)))
            })
        }
}

proof fn lemma_removal_lists(w0: UiWorld, before: UiWorld, after: UiWorld, i: int, q: Entity, taken: bool)
    requires
        wf(before),
        0 <= i < w0.len(),
        before.len() == w0.len(),
        after.len() == w0.len(),
        forall|k: int| 0 <= k < w0.len() ==> same_identity(#[trigger] before.slot(k), w0.slot(k)),
        before.slot(i).previous_parent == w0.slot(i).previous_parent,
        before.slot(i).parent == w0.slot(i).parent,
        lists_after_removals(w0, before, i),
        taken ==> {
            &&& 0 <= q.index < w0.len()
            &&& departs_unparented(w0, i, q.index as int)
            &&& before.slot(q.index as int).children is Some
            &&& after.slot(q.index as int).children is Some
            &&& removed_from(before.slot(q.index as int).children->0, after.slot(q.index as int).children->0, handle(w0, i))
        },
        !taken ==> forall|j: int| #[trigger] departs_unparented(w0, i, j) ==> before.slot(j).children is None,
        forall|k: int| 0 <= k < w0.len() && !(taken && k == q.index) ==> #[trigger] after.slot(k).children == before.slot(k).children,
    ensures
        lists_after_removals(w0, after, i + 1),
{
    let me = handle(w0, i);
    assert(handle(before, i) == me);
    assert forall|j: int| #![trigger after.slot(j)] live_index(w0, j) implies {
        &&& (w0.slot(j).children is None ==> after.slot(j).children is None)
        &&& (w0.slot(j).children is Some ==> {
            &&& after.slot(j).children is Some
            &&& ordered_after(w0.slot(j).children->0, after.slot(j).children->0)
            &&& forall|x: Entity|
                #[trigger] after.slot(j).children->0.contains(x) <==> (w0.slot(j).children->0.contains(x)
                    && !(live(w0, x) && x.index < i + 1 && departs_unparented(w0, x.index as int, j)))
        })
    } by {
        assert(same_identity(before.slot(j), w0.slot(j)));
        assert(handle(before, j) == handle(w0, j));
        if taken && j == q.index {
            let l0 = before.slot(j).children->0;
            let l1 = after.slot(j).children->0;
            assert(in_children(before, j, handle(before, i)) <==> before.slot(i).previous_parent == Some(Some(handle(before, j))));
            assert(l0.contains(me));
            let k = choose|k: int| 0 <= k < l0.len() && l0[k] == me && l1 == l0.remove(k);
            lemma_remove_ordered(w0.slot(j).children->0, l0, k);
            assert forall|x: Entity| #[trigger] l1.contains(x) <==> (w0.slot(j).children->0.contains(x)
                && !(live(w0, x) && x.index < i + 1 && departs_unparented(w0, x.index as int, j))) by {
                assert(l0.contains(x) <==> (w0.slot(j).children->0.contains(x)
                    && !(live(w0, x) && x.index < i && departs_unparented(w0, x.index as int, j))));
                if live(w0, x) && x.index == i {
                    assert(x == me);
                }
            }
        } else {
            if w0.slot(j).children is Some {
                assert forall|x: Entity| #[trigger] after.slot(j).children->0.contains(x) <==> (w0.slot(j).children->0.contains(x)
                    && !(live(w0, x) && x.index < i + 1 && departs_unparented(w0, x.index as int, j))) by {
                    assert(before.slot(j).children->0.contains(x) <==> (w0.slot(j).children->0.contains(x)
                        && !(live(w0, x) && x.index < i && departs_unparented(w0, x.index as int, j))));
                    if live(w0, x) && x.index == i && departs_unparented(w0, x.index as int, j) {
                        assert(x == me);
                        if taken {
                            assert(handle(w0, j) == q);
                        } else {
                            assert(departs_unparented(w0, i, j));
                        }
                    }
                }
            }
        }
    }
}

/// A layout node whose `Parent` edit the synchroniser handles in this
/// pass: it changed and names a slot the arena has reached.
pub open spec fn processed(w: UiWorld, c: int) -> bool {
    &&& live_index(w, c)
    &&& w.slot(c).transform is Some
    &&& w.slot(c).parent_changed
    &&& w.slot(c).parent is Some
    &&& w.slot(c).parent->0.index < w.len()
}

/// The `PreviousParent` of slot `k` after the second phase.
pub open spec fn prev_after_moves(w: UiWorld, k: int) -> Option<Option<Entity>> {
    if processed(w, k) {
        Some(w.slot(k).parent)
    } else {
        w.slot(k).previous_parent
    }
}

/// Entity `c` moves out of the list of `j`: `j` is its previous parent and
/// its new `Parent` is another entity.
pub open spec fn departs_moved(w: UiWorld, c: int, j: int) -> bool {
    &&& processed(w, c)
    &&& live_index(w, j)
    &&& w.slot(c).previous_parent == Some(Some(handle(w, j)))
    &&& w.slot(c).parent != Some(handle(w, j))
}

/// Entity `c` joins the list of `j`: its new `Parent` is `j`, which was not
/// its previous parent.
pub open spec fn joins(w: UiWorld, c: int, j: int) -> bool {
    &&& processed(w, c)
    &&& live_index(w, j)
    &&& w.slot(c).parent == Some(handle(w, j))
    &&& w.slot(c).previous_parent != Some(Some(handle(w, j)))
}

/// The lists of `w` are those of `w0` without the entities of slots below
/// `i` that moved out, followed by those that joined, in slot order.
pub open spec fn lists_after_moves(w0: UiWorld, w: UiWorld, i: int) -> bool {
    forall|j: int|
        #![trigger w.slot(j)]
        live_index(w0, j) ==> {
            &&& (w0.slot(j).children is Some ==> w.slot(j).children is Some)
            &&& (w.slot(j).children is None ==> forall|c: int| 0 <= c < i ==> !#[trigger] joins(w0, c, j))
            &&& (w.slot(j).children is Some ==> {
                &&& ordered_after(list_or_empty(w0.slot(j).children), w.slot(j).children->0)
                &&& forall|x: Entity|
                    #[trigger] w.slot(j).children->0.contains(x) <==> ((list_or_empty(w0.slot(j).children).contains(x)
                        && !(live(w0, x) && x.index < i && departs_moved(w0, x.index as int, j)))
                        || (live(w0, x) && x.index < i && joins(w0, x.index as int, j)))
            })
        }
}

/// The list that appending `me` gives.
pub open spec fn pushed(o: Option<Seq<Entity>>, me: Entity) -> Seq<Entity> {
    match o {
        Some(l) => l.push(me),
        None => seq![me],
    }
}

/// The slot whose list a move from the previous parent `pp` edits.
pub open spec fn removal_target(w: UiWorld, pp: Option<Entity>) -> Option<int> {
    match pp {
        Some(q) => if live(w, q) && w.slot(q.index as int).children is Some {
            Some(q.index as int)
        } else {
            None
        },
        None => None,
    }
}

/// The slot whose list a move to `p` appends to.
pub open spec fn push_target(w: UiWorld, p: Entity) -> Option<int> {
    if live(w, p) {
        Some(p.index as int)
    } else {
        None
    }
}

proof fn lemma_move_lists(
    w0: UiWorld,
    before: UiWorld,
    after: UiWorld,
    i: int,
    moved: bool,
    pp: Option<Entity>,
    p: Entity,
)
    requires
        wf(w0),
        wf(before),
        0 <= i < w0.len(),
        before.len() == w0.len(),
        after.len() == w0.len(),
        forall|k: int| 0 <= k < w0.len() ==> same_identity(#[trigger] before.slot(k), w0.slot(k)),
        before.slot(i).previous_parent == w0.slot(i).previous_parent,
        lists_after_moves(w0, before, i),
        moved ==> processed(w0, i) && w0.slot(i).previous_parent == Some(pp) && w0.slot(i).parent == Some(p) && pp != Some(p),
        !moved ==> forall|j: int| !(#[trigger] departs_moved(w0, i, j)) && !joins(w0, i, j),
        forall|k: int|
            0 <= k < w0.len() && !(moved && removal_target(before, pp) == Some(k)) && !(moved && push_target(before, p) == Some(k))
                ==> #[trigger] after.slot(k).children == before.slot(k).children,
        moved ==> match removal_target(before, pp) {
            Some(qi) => after.slot(qi).children is Some && removed_from(
                before.slot(qi).children->0,
                after.slot(qi).children->0,
                handle(w0, i),
            ),
            None => true,
        },
        moved ==> match push_target(before, p) {
            Some(pi) => after.slot(pi).children == Some(pushed(before.slot(pi).children, handle(w0, i))),
            None => true,
        },
    ensures
        lists_after_moves(w0, after, i + 1),
{
    let me = handle(w0, i);
    assert(handle(before, i) == me);
    assert forall|j: int| #![trigger after.slot(j)] live_index(w0, j) implies {
        &&& (w0.slot(j).children is Some ==> after.slot(j).children is Some)
        &&& (after.slot(j).children is None ==> forall|c: int| 0 <= c < i + 1 ==> !#[trigger] joins(w0, c, j))
        &&& (after.slot(j).children is Some ==> {
            &&& ordered_after(list_or_empty(w0.slot(j).children), after.slot(j).children->0)
            &&& forall|x: Entity|
                #[trigger] after.slot(j).children->0.contains(x) <==> ((list_or_empty(w0.slot(j).children).contains(x)
                    && !(live(w0, x) && x.index < i + 1 && departs_moved(w0, x.index as int, j)))
                    || (live(w0, x) && x.index < i + 1 && joins(w0, x.index as int, j)))
        })
    } by {
        let o = list_or_empty(w0.slot(j).children);
        assert(same_identity(before.slot(j), w0.slot(j)));
        assert(handle(before, j) == handle(w0, j));
        assert(live_index(before, j));
        if moved {
            assert(in_children(w0, j, me) <==> w0.slot(i).previous_parent == Some(Some(handle(w0, j))));
        }
        if moved && removal_target(before, pp) == Some(j) {
            let q = pp->0;
            assert(q == handle(w0, j));
            let l0 = before.slot(j).children->0;
            let l1 = after.slot(j).children->0;
            assert(in_children(before, j, me) <==> before.slot(i).previous_parent == Some(Some(handle(before, j))));
            assert(l0.contains(me));
            let k = choose|k: int| 0 <= k < l0.len() && l0[k] == me && l1 == l0.remove(k);
            lemma_remove_ordered(o, l0, k);
            assert(departs_moved(w0, i, j));
            assert(!joins(w0, i, j));
            assert forall|x: Entity| #[trigger] l1.contains(x) <==> ((o.contains(x)
                && !(live(w0, x) && x.index < i + 1 && departs_moved(w0, x.index as int, j)))
                || (live(w0, x) && x.index < i + 1 && joins(w0, x.index as int, j))) by {
                assert(l0.contains(x) <==> ((o.contains(x)
                    && !(live(w0, x) && x.index < i && departs_moved(w0, x.index as int, j)))
                    || (live(w0, x) && x.index < i && joins(w0, x.index as int, j))));
                if live(w0, x) && x.index == i {
                    assert(x == me);
                }
            }
        } else if moved && push_target(before, p) == Some(j) {
            assert(p == handle(w0, j));
            assert(joins(w0, i, j));
            assert(!departs_moved(w0, i, j));
            assert(!o.contains(me));
            let l1 = after.slot(j).children->0;
            if before.slot(j).children is Some {
                let l0 = before.slot(j).children->0;
                assert forall|a: int| 0 <= a < l0.len() implies stands_before(o, #[trigger] l0[a], me) by {
                    assert(l0.contains(l0[a]));
                    assert(l0.contains(l0[a]) <==> ((o.contains(l0[a])
                        && !(live(w0, l0[a]) && l0[a].index < i && departs_moved(w0, l0[a].index as int, j)))
                        || (live(w0, l0[a]) && l0[a].index < i && joins(w0, l0[a].index as int, j))));
                }
                lemma_push_ordered(o, l0, me);
                assert forall|x: Entity| #[trigger] l1.contains(x) <==> ((o.contains(x)
                    && !(live(w0, x) && x.index < i + 1 && departs_moved(w0, x.index as int, j)))
                    || (live(w0, x) && x.index < i + 1 && joins(w0, x.index as int, j))) by {
                    assert(l0.contains(x) <==> ((o.contains(x)
                        && !(live(w0, x) && x.index < i && departs_moved(w0, x.index as int, j)))
                        || (live(w0, x) && x.index < i && joins(w0, x.index as int, j))));
                    if l1.contains(x) && x != me {
                        let r = choose|r: int| 0 <= r < l1.len() && l1[r] == x;
                        assert(l0[r] == x);
                    }
                    if l0.contains(x) {
                        let r = choose|r: int| 0 <= r < l0.len() && l0[r] == x;
                        assert(l1[r] == x);
                    }
                    if x == me {
                        assert(l1[l0.len() as int] == me);
                    }
                    if live(w0, x) && x.index == i {
                        assert(x == me);
                    }
                }
            } else {
                assert(w0.slot(j).children is None);
                assert(l1 =~= seq![me]);
                assert forall|a: int, b: int| 0 <= a < b < l1.len() implies stands_before(o, #[trigger] l1[a], #[trigger] l1[b]) by {}
                assert forall|x: Entity| #[trigger] l1.contains(x) <==> ((o.contains(x)
                    && !(live(w0, x) && x.index < i + 1 && departs_moved(w0, x.index as int, j)))
                    || (live(w0, x) && x.index < i + 1 && joins(w0, x.index as int, j))) by {
                    if x == me {
                        assert(l1[0] == me);
                    }
                    if live(w0, x) && x.index < i {
                        assert(!joins(w0, x.index as int, j));
                    }
                    if live(w0, x) && x.index == i {
                        assert(x == me);
                    }
                }
            }
        } else {
            assert(after.slot(j).children == before.slot(j).children);
            if after.slot(j).children is None {
                if moved && joins(w0, i, j) {
                    assert(p == handle(w0, j));
                    assert(push_target(before, p) == Some(j));
                }
            }
            if after.slot(j).children is Some {
                assert forall|x: Entity| #[trigger] after.slot(j).children->0.contains(x) <==> ((o.contains(x)
                    && !(live(w0, x) && x.index < i + 1 && departs_moved(w0, x.index as int, j)))
                    || (live(w0, x) && x.index < i + 1 && joins(w0, x.index as int, j))) by {
                    assert(before.slot(j).children->0.contains(x) <==> ((o.contains(x)
                        && !(live(w0, x) && x.index < i && departs_moved(w0, x.index as int, j)))
                        || (live(w0, x) && x.index < i && joins(w0, x.index as int, j))));
                    if live(w0, x) && x.index == i {
                        assert(x == me);
                        if moved {
                            if departs_moved(w0, i, j) {
                                assert(pp == Some(handle(w0, j)));
                                assert(removal_target(before, pp) == Some(j));
                            }
                            if joins(w0, i, j) {
                                assert(push_target(before, p) == Some(j));
                            }
                        }
                    }
                }
            }
        }
    }
}

/// Removes `e` from a list without duplicates, keeping the order of the rest.
pub(crate) fn remove_entity(v: &mut Vec<Entity>, e: Entity)
    requires
        old(v)@.no_duplicates(),
    ensures
        final(v)@.no_duplicates(),
        forall|x: Entity| final(v)@.contains(x) <==> (old(v)@.contains(x) && x != e),
        !old(v)@.contains(e) ==> final(v)@ == old(v)@,
        old(v)@.contains(e) ==> exists|k: int|
            0 <= k < old(v)@.len() && old(v)@[k] == e && final(v)@ == old(v)@.remove(k),
{
    let mut i: usize = 0;
    while i < v.len()
        invariant
            v@ == old(v)@,
            v@.no_duplicates(),
            0 <= i <= v@.len(),
            forall|k: int| 0 <= k < i ==> v@[k] != e,
        decreases v@.len() - i,
    {
        if v[i] == e {
            let ghost before = v@;
            v.remove(i);
            assert forall|x: Entity| v@.contains(x) <==> (before.contains(x) && x != e) by {
                if v@.contains(x) {
                    let k = choose|k: int| 0 <= k < v@.len() && v@[k] == x;
                    if k < i {
                        assert(before[k] == x);
                    } else {
                        assert(before[k + 1] == x);
                    }
                }
                if before.contains(x) && x != e {
                    let k = choose|k: int| 0 <= k < before.len() && before[k] == x;
                    if k < i {
                        assert(v@[k] == x);
                    } else {
                        assert(k != i);
                        assert(v@[k - 1] == x);
                    }
                }
            }
            return;
        }
        i += 1;
    }
    assert(!v@.contains(e));
}

/// The invariant survives any edit that keeps the arena's length, kills no
/// entity back to life, keeps `PreviousParent` and `Children` of the living,
/// and marks every `Parent` edit as a change.
proof fn lemma_wf_keep(a: UiWorld, b: UiWorld)
    requires
        wf(a),
        a.len() == b.len(),
        forall|i: int|
            #![trigger b.slot(i)]
            0 <= i < b.len() && b.slot(i).alive ==> {
                &&& a.slot(i).alive
                &&& a.slot(i).generation == b.slot(i).generation
                &&& a.slot(i).previous_parent == b.slot(i).previous_parent
                &&& a.slot(i).children == b.slot(i).children
                &&& (b.slot(i).parent is Some ==> (b.slot(i).parent_changed || (a.slot(i).parent
                    == b.slot(i).parent && !a.slot(i).parent_changed) || (a.slot(i).parent
                    == b.slot(i).parent && a.slot(i).previous_parent == Some(b.slot(i).parent))))
            },
    ensures
        wf(b),
{
    assert forall|i: int, j: int|
        #![trigger in_children(b, j, handle(b, i))]
        live_index(b, i) && live_index(b, j) implies (in_children(b, j, handle(b, i))
            <==> b.slot(i).previous_parent == Some(Some(handle(b, j)))) by {
        assert(b.slot(i).alive && b.slot(j).alive);
        assert(in_children(a, j, handle(a, i)) <==> a.slot(i).previous_parent == Some(
            Some(handle(a, j)),
        ));
    }
    assert forall|j: int, k: int|
        live_index(b, j) && b.slot(j).children is Some && 0 <= k < b.slot(j).children->0.len()
            implies #[trigger] b.slot(j).children->0[k].index < b.len() by {
        assert(b.slot(j).alive);
        assert(a.slot(j).children->0[k].index < a.len());
    }
    assert forall|i: int| #![trigger b.slot(i)] live_index(b, i) implies prev_below(
        b.slot(i).previous_parent,
        b.len(),
    ) by {
        assert(prev_below(a.slot(i).previous_parent, a.len()));
    }
}

impl UiWorld {
    pub closed spec fn len(&self) -> nat {
        self.slots@.len()
    }

    pub closed spec fn slot(&self, i: int) -> SlotModel {
        self.slots@[i].model()
    }

    /// An empty store.
    pub fn new() -> (r: UiWorld)
        ensures
            r.len() == 0,
            wf(r),
    {
        UiWorld { slots: Vec::new() }
    }

    /// Makes a new entity with no component.
    pub fn create_entity(&mut self) -> (r: Entity)
        requires
            wf(*old(self)),
            old(self).len() < u32::MAX,
        ensures
            wf(*final(self)),
            final(self).len() == old(self).len() + 1,
            r == handle(*final(self), old(self).len() as int),
            live(*final(self), r),
            forall|i: int| 0 <= i < old(self).len() ==> final(self).slot(i) == old(self).slot(i),
            final(self).slot(old(self).len() as int) == (SlotModel {
                generation: 0,
                alive: true,
                parent: None,
                parent_changed: false,
                previous_parent: None,
                children: None,
                transform: None,
                hidden: false,
            }),
    {
        let index = self.slots.len() as u32;
        self.slots.push(
            Slot {
                generation: 0,
                alive: true,
                parent: None,
                parent_changed: false,
                previous_parent: None,
                children: None,
                transform: None,
                hidden: false,
            },
        );
        let r = Entity { index, generation: 0 };
        assert(forall|i: int| 0 <= i < index ==> self.slot(i) == old(self).slot(i));
        assert(self.slot(index as int).children is None);
        assert forall|j: int, k: int|
            live_index(*self, j) && self.slot(j).children is Some && 0 <= k < self.slot(
                j,
            ).children->0.len() implies #[trigger] self.slot(j).children->0[k].index < self.len() by {
            if j < index {
                assert(old(self).slot(j).children->0[k].index < old(self).len());
            }
        }
        assert forall|i: int, j: int|
            #![trigger in_children(*self, j, handle(*self, i))]
            live_index(*self, i) && live_index(*self, j) implies (in_children(*self, j, handle(*self, i))
                <==> self.slot(i).previous_parent == Some(Some(handle(*self, j)))) by {
            if i < index && j < index {
                assert(in_children(*old(self), j, handle(*old(self), i)) <==> old(self).slot(
                    i,
                ).previous_parent == Some(Some(handle(*old(self), j))));
            } else if i == index && j < index {
                if in_children(*self, j, handle(*self, i)) {
                    let l = self.slot(j).children->0;
                    let k = choose|k: int| 0 <= k < l.len() && l[k] == handle(*self, i);
                    assert(old(self).slot(j).children->0[k].index < index);
                }
            }
        }
        r
    }

    /// The number of slots of the arena.
    pub fn slot_count(&self) -> (r: usize)
        ensures
            r == self.len(),
    {
        self.slots.len()
    }

    /// The layout attributes of slot `i`, where it holds a live layout node.
    pub(crate) fn layout_at(&self, i: usize) -> (r: Option<Layout>)
        ensures
            r == (if live_index(*self, i as int) && self.slot(i as int).transform is Some {
                Some(self.slot(i as int).transform->0.layout())
            } else {
                None
            }),
    {
        if i < self.slots.len() && self.slots[i].alive {
            match &self.slots[i].transform {
                Some(t) => Some(
                    Layout {
                        anchor: t.anchor,
                        pivot: t.pivot,
                        stretch: t.stretch,
                        scale_mode: t.scale_mode,
                        local_x: t.local_x,
                        local_y: t.local_y,
                        local_z: t.local_z,
                        width: t.width,
                        height: t.height,
                    },
                ),
                None => None,
            }
        } else {
            None
        }
    }

    pub(crate) fn parent_at(&self, i: usize) -> (r: Option<Entity>)
        requires
            i < self.len(),
        ensures
            r == self.slot(i as int).parent,
    {
        self.slots[i].parent
    }

    /// Writes the resolved rectangle of the layout node in slot `i`.
    pub(crate) fn write_rect(&mut self, i: usize, r: Rect)
        requires
            wf(*old(self)),
            live_index(*old(self), i as int),
            old(self).slot(i as int).transform is Some,
        ensures
            wf(*final(self)),
            final(self).len() == old(self).len(),
            forall|k: int| 0 <= k < old(self).len() && k != i ==> final(self).slot(k) == old(self).slot(k),
            final(self).slot(i as int).transform is Some,
            rect_written(old(self).slot(i as int), final(self).slot(i as int), r),
    {
        match &mut self.slots[i].transform {
            Some(t) => t.set_rect(r),
            None => {},
        }
        proof {
            lemma_wf_keep(*old(self), *self);
        }
    }

    /// The draw-order entry of slot `i`: its handle and resolved depth,
    /// where it holds a visible layout node.
    pub(crate) fn draw_entry(&self, i: usize) -> (r: Option<(Entity, i64)>)
        requires
            i < self.len(),
            self.len() <= u32::MAX,
        ensures
            r == (if visible(*self, i as int) {
                Some((handle(*self, i as int), self.slot(i as int).transform->0.rect().z))
            } else {
                None
            }),
    {
        if self.slots[i].alive && !self.slots[i].hidden {
            match &self.slots[i].transform {
                Some(t) => Some((Entity { index: i as u32, generation: self.slots[i].generation }, t.global_z())),
                None => None,
            }
        } else {
            None
        }
    }

    /// Whether `e` names an entity of this store.
    pub fn is_alive(&self, e: Entity) -> (r: bool)
        ensures
            r == live(*self, e),
    {
        let i = e.index as usize;
        i < self.slots.len() && self.slots[i].alive && self.slots[i].generation == e.generation
    }

    /// Destroys `e` with all its components. Other entities may keep stale
    /// references to it.
    pub fn destroy_entity(&mut self, e: Entity)
        requires
            wf(*old(self)),
        ensures
            wf(*final(self)),
            final(self).len() == old(self).len(),
            forall|i: int|
                0 <= i < old(self).len() && i != e.index ==> final(self).slot(i) == old(self).slot(
                    i,
                ),
            live(*old(self), e) ==> final(self).slot(e.index as int) == (SlotModel {
                generation: e.generation,
                alive: false,
                parent: None,
                parent_changed: false,
                previous_parent: None,
                children: None,
                transform: None,
                hidden: false,
            }),
            !live(*old(self), e) ==> *final(self) == *old(self),
    {
        if self.is_alive(e) {
            let i = e.index as usize;
            self.slots.set(
                i,
                Slot {
                    generation: e.generation,
                    alive: false,
                    parent: None,
                    parent_changed: false,
                    previous_parent: None,
                    children: None,
                    transform: None,
                    hidden: false,
                },
            );
            proof {
                lemma_wf_keep(*old(self), *self);
            }
        }
    }

    /// Sets the `Parent` of `e` to `p` and marks it as changed.
    pub fn set_parent(&mut self, e: Entity, p: Entity)
        requires
            wf(*old(self)),
        ensures
            wf(*final(self)),
            final(self).len() == old(self).len(),
            forall|i: int|
                0 <= i < old(self).len() && i != e.index ==> final(self).slot(i) == old(self).slot(
                    i,
                ),
            live(*old(self), e) ==> final(self).slot(e.index as int) == (SlotModel {
                parent: Some(p),
                parent_changed: true,
                ..old(self).slot(e.index as int)
            }),
            !live(*old(self), e) ==> *final(self) == *old(self),
    {
        if self.is_alive(e) {
            let i = e.index as usize;
            self.slots[i].parent = Some(p);
            self.slots[i].parent_changed = true;
            proof {
                lemma_wf_keep(*old(self), *self);
            }
        }
    }

    /// Removes the `Parent` of `e`.
    pub fn clear_parent(&mut self, e: Entity)
        requires
            wf(*old(self)),
        ensures
            wf(*final(self)),
            final(self).len() == old(self).len(),
            forall|i: int|
                0 <= i < old(self).len() && i != e.index ==> final(self).slot(i) == old(self).slot(
                    i,
                ),
            live(*old(self), e) ==> final(self).slot(e.index as int) == (SlotModel {
                parent: None,
                ..old(self).slot(e.index as int)
            }),
            !live(*old(self), e) ==> *final(self) == *old(self),
    {
        if self.is_alive(e) {
            let i = e.index as usize;
            self.slots[i].parent = None;
            proof {
                lemma_wf_keep(*old(self), *self);
            }
        }
    }

    /// Attaches (or replaces) the `UiTransform` of `e`.
    pub fn add_transform(&mut self, e: Entity, t: UiTransform)
        requires
            wf(*old(self)),
        ensures
            wf(*final(self)),
            final(self).len() == old(self).len(),
            forall|i: int|
                0 <= i < old(self).len() && i != e.index ==> final(self).slot(i) == old(self).slot(
                    i,
                ),
            live(*old(self), e) ==> final(self).slot(e.index as int) == (SlotModel {
                transform: Some(t),
                ..old(self).slot(e.index as int)
            }),
            !live(*old(self), e) ==> *final(self) == *old(self),
    {
        if self.is_alive(e) {
            let i = e.index as usize;
            self.slots[i].transform = Some(t);
            proof {
                lemma_wf_keep(*old(self), *self);
            }
        }
    }

    /// Removes the `UiTransform` of `e`: it stops being a layout node.
    pub fn remove_transform(&mut self, e: Entity)
        requires
            wf(*old(self)),
        ensures
            wf(*final(self)),
            final(self).len() == old(self).len(),
            forall|i: int|
                0 <= i < old(self).len() && i != e.index ==> final(self).slot(i) == old(self).slot(
                    i,
                ),
            live(*old(self), e) ==> final(self).slot(e.index as int) == (SlotModel {
                transform: None,
                ..old(self).slot(e.index as int)
            }),
            !live(*old(self), e) ==> *final(self) == *old(self),
    {
        if self.is_alive(e) {
            let i = e.index as usize;
            self.slots[i].transform = None;
            proof {
                lemma_wf_keep(*old(self), *self);
            }
        }
    }

    /// Moves the local position of the layout node `e`.
    pub fn set_local_position(&mut self, e: Entity, x: i64, y: i64)
        requires
            wf(*old(self)),
        ensures
            wf(*final(self)),
            final(self).len() == old(self).len(),
            forall|i: int|
                0 <= i < old(self).len() && i != e.index ==> final(self).slot(i) == old(self).slot(
                    i,
                ),
            live(*old(self), e) && old(self).slot(e.index as int).transform is Some ==> final(self).slot(e.index as int) == (SlotModel {
                transform: Some(UiTransform { local_x: x, local_y: y, ..old(self).slot(e.index as int).transform->0 }),
                ..old(self).slot(e.index as int)
            }),
            !(live(*old(self), e) && old(self).slot(e.index as int).transform is Some) ==> *final(self) == *old(self),
    {
        if self.is_alive(e) {
            let i = e.index as usize;
            if self.slots[i].transform.is_some() {
                match &mut self.slots[i].transform {
                    Some(t) => {
                        t.local_x = x;
                        t.local_y = y;
                    },
                    None => {},
                }
                proof {
                    lemma_wf_keep(*old(self), *self);
                }
            }
        }
    }

    /// Sets or clears the hidden marker of `e`.
    pub fn set_hidden(&mut self, e: Entity, hidden: bool)
        requires
            wf(*old(self)),
        ensures
            wf(*final(self)),
            final(self).len() == old(self).len(),
            forall|i: int|
                0 <= i < old(self).len() && i != e.index ==> final(self).slot(i) == old(self).slot(
                    i,
                ),
            live(*old(self), e) ==> final(self).slot(e.index as int) == (SlotModel {
                hidden,
                ..old(self).slot(e.index as int)
            }),
            !live(*old(self), e) ==> *final(self) == *old(self),
    {
        if self.is_alive(e) {
            let i = e.index as usize;
            self.slots[i].hidden = hidden;
            proof {
                lemma_wf_keep(*old(self), *self);
            }
        }
    }

    pub fn parent(&self, e: Entity) -> (r: Option<Entity>)
        ensures
            r == (if live(*self, e) { self.slot(e.index as int).parent } else { None }),
    {
        if self.is_alive(e) {
            self.slots[e.index as usize].parent
        } else {
            None
        }
    }

    pub fn previous_parent(&self, e: Entity) -> (r: Option<Option<Entity>>)
        ensures
            r == (if live(*self, e) { self.slot(e.index as int).previous_parent } else { None }),
    {
        if self.is_alive(e) {
            self.slots[e.index as usize].previous_parent
        } else {
            None
        }
    }

    pub fn is_hidden(&self, e: Entity) -> (r: bool)
        ensures
            r == (live(*self, e) && self.slot(e.index as int).hidden),
    {
        self.is_alive(e) && self.slots[e.index as usize].hidden
    }

    pub fn transform(&self, e: Entity) -> (r: Option<&UiTransform>)
        ensures
            match r {
                Some(t) => live(*self, e) && self.slot(e.index as int).transform == Some(*t),
                None => !(live(*self, e) && self.slot(e.index as int).transform is Some),
            },
    {
        if self.is_alive(e) {
            self.slots[e.index as usize].transform.as_ref()
        } else {
            None
        }
    }

    /// A copy of the `Children` of `e`.
    pub fn children(&self, e: Entity) -> (r: Option<Vec<Entity>>)
        ensures
            live(*self, e) && self.slot(e.index as int).children is Some ==> r is Some && r->0@
                == self.slot(e.index as int).children->0,
            !(live(*self, e) && self.slot(e.index as int).children is Some) ==> r is None,
    {
        if self.is_alive(e) {
            match &self.slots[e.index as usize].children {
                Some(v) => {
                    let mut out: Vec<Entity> = Vec::new();
                    let mut k: usize = 0;
                    while k < v.len()
                        invariant
                            0 <= k <= v@.len(),
                            out@ == v@.subrange(0, k as int),
                        decreases v@.len() - k,
                    {
                        out.push(v[k]);
                        k += 1;
                        assert(out@ =~= v@.subrange(0, k as int));
                    }
                    assert(out@ =~= v@);
                    Some(out)
                },
                None => None,
            }
        } else {
            None
        }
    }
}


/// The slot `i` after `missing_previous_parent`.
pub open spec fn with_previous_parent(w: UiWorld, i: int) -> SlotModel {
    if live_index(w, i) && w.slot(i).transform is Some && w.slot(i).parent is Some
        && w.slot(i).previous_parent is None {
        SlotModel { previous_parent: Some(None), ..w.slot(i) }
    } else {
        w.slot(i)
    }
}

/// Gives every layout node that has a `Parent` but no `PreviousParent` a
/// `PreviousParent` of "none", marking it as first seen.
pub fn missing_previous_parent(world: &mut UiWorld)
    requires
        wf(*old(world)),
    ensures
        wf(*final(world)),
        final(world).len() == old(world).len(),
        forall|i: int|
            0 <= i < old(world).len() ==> final(world).slot(i) == with_previous_parent(
                *old(world),
                i,
            ),
{
    let n = world.slots.len();
    let mut i: usize = 0;
    while i < n
        invariant
            wf(*world),
            n == world.len(),
            world.len() == old(world).len(),
            0 <= i <= n,
            forall|k: int| 0 <= k < i ==> world.slot(k) == with_previous_parent(*old(world), k),
            forall|k: int| i <= k < n ==> world.slot(k) == old(world).slot(k),
        decreases n - i,
    {
        if world.slots[i].alive && world.slots[i].transform.is_some()
            && world.slots[i].parent.is_some() && world.slots[i].previous_parent.is_none() {
            let ghost before = *world;
            world.slots[i].previous_parent = Some(None);
            proof {
                assert(world.slot(i as int) == SlotModel {
                    previous_parent: Some(None),
                    ..before.slot(i as int)
                });
                assert forall|a: int, b: int|
                    #![trigger in_children(*world, b, handle(*world, a))]
                    live_index(*world, a) && live_index(*world, b) implies (in_children(
                        *world,
                        b,
                        handle(*world, a),
                    ) <==> world.slot(a).previous_parent == Some(Some(handle(*world, b)))) by {
                    assert(in_children(before, b, handle(before, a)) <==> before.slot(
                        a,
                    ).previous_parent == Some(Some(handle(before, b))));
                }
                assert forall|b: int, k: int|
                    live_index(*world, b) && world.slot(b).children is Some && 0 <= k
                        < world.slot(b).children->0.len() implies #[trigger] world.slot(
                        b,
                    ).children->0[k].index < world.len() by {
                    assert(before.slot(b).children->0[k].index < before.len());
                }
                assert forall|a: int| #![trigger world.slot(a)] live_index(*world, a) implies prev_below(
                    world.slot(a).previous_parent,
                    world.len(),
                ) by {
                    assert(prev_below(before.slot(a).previous_parent, before.len()));
                }
                assert(before.slot(i as int).parent_changed);
                assert forall|a: int| #![trigger world.slot(a)] live_index(*world, a) implies {
                    &&& (world.slot(a).children is Some ==> world.slot(a).children->0.no_duplicates())
                    &&& (world.slot(a).parent is Some && !world.slot(a).parent_changed
                        && world.slot(a).previous_parent is Some ==> world.slot(a).previous_parent->0
                        == world.slot(a).parent)
                    &&& (world.slot(a).parent is Some && world.slot(a).previous_parent is None
                        ==> world.slot(a).parent_changed)
                } by {
                    assert(live_index(before, a));
                    assert(before.slot(a).children is Some ==> before.slot(a).children->0.no_duplicates());
                }
            }
        }
        i += 1;
    }
}


/// `new` is `old` without `c`, in the same order.
pub open spec fn removed_from(old: Seq<Entity>, new: Seq<Entity>, c: Entity) -> bool {
    &&& new.no_duplicates()
    &&& forall|x: Entity| new.contains(x) <==> (old.contains(x) && x != c)
    &&& !old.contains(c) ==> new == old
    &&& old.contains(c) ==> exists|k: int| 0 <= k < old.len() && old[k] == c && new == old.remove(k)
}

/// `b` is `a` with the resolved rectangle of its transform set to `r`.
pub open spec fn rect_written(a: SlotModel, b: SlotModel, r: Rect) -> bool {
    &&& a.transform is Some
    &&& b.transform is Some
    &&& b == SlotModel { transform: b.transform, ..a }
    &&& b.transform->0.layout() == a.transform->0.layout()
    &&& b.transform->0.id == a.transform->0.id
    &&& b.transform->0.opaque == a.transform->0.opaque
    &&& b.transform->0.transparent_target == a.transform->0.transparent_target
    &&& b.transform->0.rect() == r
}

/// Fields that the synchroniser never changes.
pub open spec fn same_identity(a: SlotModel, b: SlotModel) -> bool {
    &&& a.generation == b.generation
    &&& a.alive == b.alive
    &&& a.transform == b.transform
    &&& a.hidden == b.hidden
}

/// A layout node with a recorded previous parent and a `Parent` that the
/// arena has reached has been seen by the synchroniser.
pub open spec fn parent_settled(w: UiWorld, k: int) -> bool {
    live_index(w, k) && w.slot(k).transform is Some && w.slot(k).previous_parent is Some ==> match w.slot(k).parent {
        Some(p) => p.index < w.len() ==> !w.slot(k).parent_changed,
        None => true,
    }
}

/// No live entity without a `Parent` still records a previous parent.
pub open spec fn removals_seen(w: UiWorld, k: int) -> bool {
    live_index(w, k) && w.slot(k).parent is None ==> !(w.slot(k).previous_parent matches Some(Some(_)))
}

impl UiWorld {
    /// Removes `c` from the `Children` of `q`, where `q` lives and has them.
    fn remove_child_of(&mut self, q: Entity, c: Entity)
        requires
            forall|j: int|
                #![trigger old(self).slot(j)]
                live_index(*old(self), j) && old(self).slot(j).children is Some ==> old(self).slot(
                    j,
                ).children->0.no_duplicates(),
        ensures
            final(self).len() == old(self).len(),
            forall|k: int| 0 <= k < old(self).len() && k != q.index ==> final(self).slot(k) == old(self).slot(k),
            live(*old(self), q) && old(self).slot(q.index as int).children is Some ==> {
                &&& final(self).slot(q.index as int).children is Some
                &&& removed_from(
                    old(self).slot(q.index as int).children->0,
                    final(self).slot(q.index as int).children->0,
                    c,
                )
                &&& final(self).slot(q.index as int) == (SlotModel {
                    children: final(self).slot(q.index as int).children,
                    ..old(self).slot(q.index as int)
                })
            },
            !(live(*old(self), q) && old(self).slot(q.index as int).children is Some) ==> *final(self) == *old(self),
    {
        if self.is_alive(q) {
            let qi = q.index as usize;
            assert(old(self).slot(qi as int).children is Some ==> old(self).slot(qi as int).children->0.no_duplicates());
            if self.slots[qi].children.is_some() {
                match &mut self.slots[qi].children {
                    Some(list) => {
                        remove_entity(list, c);
                    },
                    None => {},
                }
            }
        }
    }

    /// Takes entities whose `Parent` was removed out of their previous
    /// parent's `Children`, and records that they have no parent now.
    fn drop_removed_parents(&mut self)
        requires
            wf(*old(self)),
        ensures
            wf(*final(self)),
            final(self).len() == old(self).len(),
            forall|k: int| 0 <= k < old(self).len() ==> same_identity(#[trigger] final(self).slot(k), old(self).slot(k)),
            forall|k: int| 0 <= k < old(self).len() ==> #[trigger] final(self).slot(k).parent == old(self).slot(k).parent,
            forall|k: int| 0 <= k < old(self).len() ==> #[trigger] final(self).slot(k).parent_changed == old(self).slot(k).parent_changed,
            forall|k: int| 0 <= k < old(self).len() ==> removals_seen(*final(self), k),
            forall|k: int| 0 <= k < old(self).len() && old(self).slot(k).previous_parent is Some ==> #[trigger] final(self).slot(k).previous_parent is Some,
            forall|k: int| 0 <= k < old(self).len() && old(self).slot(k).children is Some ==> #[trigger] final(self).slot(k).children is Some,
            forall|k: int| 0 <= k < old(self).len() ==> #[trigger] final(self).slot(k).previous_parent == prev_after_removals(*old(self), k),
            forall|k: int| 0 <= k < old(self).len() && !live_index(*old(self), k) ==> #[trigger] final(self).slot(k) == old(self).slot(k),
            lists_after_removals(*old(self), *final(self), old(self).len() as int),
    {
        let n = self.slots.len();
        let mut i: usize = 0;
        while i < n
            invariant
                wf(*self),
                wf(*old(self)),
                n == self.len(),
                self.len() == old(self).len(),
                0 <= i <= n,
                forall|k: int| 0 <= k < n ==> same_identity(#[trigger] self.slot(k), old(self).slot(k)),
                forall|k: int| 0 <= k < n ==> #[trigger] self.slot(k).parent == old(self).slot(k).parent,
                forall|k: int| 0 <= k < n ==> #[trigger] self.slot(k).parent_changed == old(self).slot(k).parent_changed,
                forall|k: int| 0 <= k < i ==> removals_seen(*self, k),
                forall|k: int| 0 <= k < n && old(self).slot(k).previous_parent is Some ==> #[trigger] self.slot(k).previous_parent is Some,
                forall|k: int| 0 <= k < n && old(self).slot(k).children is Some ==> #[trigger] self.slot(k).children is Some,
                forall|k: int| 0 <= k < n ==> #[trigger] self.slot(k).previous_parent == (if k < i {
                    prev_after_removals(*old(self), k)
                } else {
                    old(self).slot(k).previous_parent
                }),
                forall|k: int| 0 <= k < n && !live_index(*old(self), k) ==> #[trigger] self.slot(k) == old(self).slot(k),
                lists_after_removals(*old(self), *self, i as int),
            decreases n - i,
        {
            let ghost w_prev = *self;
            let ghost mut gq: Entity = Entity { index: 0, generation: 0 };
            let ghost mut taken = false;
            if self.slots[i].alive && self.slots[i].parent.is_none() {
                if let Some(Some(q)) = self.slots[i].previous_parent {
                    proof {
                        gq = q;
                        taken = live(w_prev, q) && w_prev.slot(q.index as int).children is Some;
                    }
                    let ghost before = *self;
                    let me = Entity { index: i as u32, generation: self.slots[i].generation };
                    assert(me == handle(before, i as int));
                    self.remove_child_of(q, me);
                    let ghost mid = *self;
                    self.slots[i].previous_parent = Some(None);
                    proof {
                        assert(self.slot(i as int) == SlotModel { previous_parent: Some(None), ..mid.slot(i as int) });
                        assert forall|k: int| 0 <= k < n implies {
                            &&& same_identity(#[trigger] self.slot(k), before.slot(k))
                            &&& self.slot(k).parent == before.slot(k).parent
                            &&& self.slot(k).parent_changed == before.slot(k).parent_changed
                        } by {
                            if k != i {
                                assert(self.slot(k) == mid.slot(k));
                            }
                        }
                        assert forall|a: int, b: int|
                            #![trigger in_children(*self, b, handle(*self, a))]
                            live_index(*self, a) && live_index(*self, b) implies (in_children(
                                *self,
                                b,
                                handle(*self, a),
                            ) <==> self.slot(a).previous_parent == Some(Some(handle(*self, b)))) by {
                            assert(live_index(before, a) && live_index(before, b));
                            assert(handle(*self, a) == handle(before, a));
                            assert(handle(*self, b) == handle(before, b));
                            assert(in_children(before, b, handle(before, a)) <==> before.slot(
                                a,
                            ).previous_parent == Some(Some(handle(before, b))));
                            if b == q.index as int && live(before, q) && before.slot(b).children is Some {
                                let l0 = before.slot(b).children->0;
                                let l1 = self.slot(b).children->0;
                                assert(l1.contains(handle(before, a)) <==> (l0.contains(handle(before, a)) && handle(before, a) != me));
                            }
                        }
                        assert forall|b: int, k: int|
                            live_index(*self, b) && self.slot(b).children is Some && 0 <= k
                                < self.slot(b).children->0.len() implies #[trigger] self.slot(
                                b,
                            ).children->0[k].index < self.len() by {
                            if b == q.index as int && live(before, q) && before.slot(b).children is Some {
                                let l0 = before.slot(b).children->0;
                                let l1 = self.slot(b).children->0;
                                assert(l1.contains(l1[k]));
                                let k0 = choose|k0: int| 0 <= k0 < l0.len() && l0[k0] == l1[k];
                                assert(before.slot(b).children->0[k0].index < before.len());
                            } else {
                                assert(before.slot(b).children->0[k].index < before.len());
                            }
                        }
                        assert forall|a: int| #![trigger self.slot(a)] live_index(*self, a) implies {
                            &&& prev_below(self.slot(a).previous_parent, self.len())
                            &&& (self.slot(a).children is Some ==> self.slot(a).children->0.no_duplicates())
                            &&& (self.slot(a).parent is Some && !self.slot(a).parent_changed
                                && self.slot(a).previous_parent is Some ==> self.slot(a).previous_parent->0
                                == self.slot(a).parent)
                            &&& (self.slot(a).parent is Some && self.slot(a).previous_parent is None
                                ==> self.slot(a).parent_changed)
                        } by {
                            assert(live_index(before, a));
                            assert(prev_below(before.slot(a).previous_parent, before.len()));
                            assert(before.slot(a).children is Some ==> before.slot(a).children->0.no_duplicates());
                        }
                        assert forall|k: int| 0 <= k < i + 1 implies removals_seen(*self, k) by {
                            if k < i {
                                assert(removals_seen(before, k));
                                if k == q.index {
                                    assert(self.slot(k).previous_parent == before.slot(k).previous_parent);
                                }
                            }
                        }
                    }
                }
            }
            proof {
                assert forall|k: int| 0 <= k < n && !(taken && k == gq.index) implies #[trigger] self.slot(k).children == w_prev.slot(k).children by {}
                if !taken {
                    assert forall|j: int| #[trigger] departs_unparented(*old(self), i as int, j) implies w_prev.slot(j).children is None by {
                        assert(w_prev.slot(i as int).previous_parent == old(self).slot(i as int).previous_parent);
                        assert(same_identity(w_prev.slot(j), old(self).slot(j)));
                    }
                } else {
                    assert(gq == handle(w_prev, gq.index as int));
                    assert(same_identity(w_prev.slot(gq.index as int), old(self).slot(gq.index as int)));
                }
                lemma_removal_lists(*old(self), w_prev, *self, i as int, gq, taken);
                assert forall|k: int| 0 <= k < n implies #[trigger] self.slot(k).previous_parent == (if k < i + 1 {
                    prev_after_removals(*old(self), k)
                } else {
                    old(self).slot(k).previous_parent
                }) by {
                    if k != i {
                        assert(self.slot(k).previous_parent == w_prev.slot(k).previous_parent);
                    }
                }
            }
            i += 1;
        }
    }

    /// Appends `c` to the `Children` of slot `j`, creating them if absent
    /// and recording the creation in `created`.
    fn add_child_to(&mut self, j: usize, c: Entity, created: &mut Vec<bool>)
        requires
            j < old(self).len(),
            old(created)@.len() == old(self).len(),
            old(self).slot(j as int).children is Some ==> !old(self).slot(j as int).children->0.contains(c),
        ensures
            final(self).len() == old(self).len(),
            forall|k: int| 0 <= k < old(self).len() && k != j ==> final(self).slot(k) == old(self).slot(k),
            final(self).slot(j as int) == (SlotModel {
                children: Some(
                    match old(self).slot(j as int).children {
                        Some(l) => l.push(c),
                        None => seq![c],
                    },
                ),
                ..old(self).slot(j as int)
            }),
            final(created)@.len() == old(created)@.len(),
            forall|k: int| 0 <= k < old(self).len() && k != j ==> final(created)@[k] == old(created)@[k],
            old(self).slot(j as int).children is None ==> final(created)@[j as int],
            old(self).slot(j as int).children is Some ==> final(created)@[j as int] == old(created)@[j as int],
    {
        if self.slots[j].children.is_some() {
            match &mut self.slots[j].children {
                Some(list) => {
                    list.push(c);
                },
                None => {},
            }
        } else {
            let mut list: Vec<Entity> = Vec::new();
            list.push(c);
            assert(list@ =~= seq![c]);
            self.slots[j].children = Some(list);
            created.set(j, true);
        }
    }

    /// Moves entities whose `Parent` changed from their previous parent's
    /// `Children` to their new parent's, creating `Children` where needed.
    /// A new parent that the arena has not reached yet is left for later.
    fn apply_changed_parents(&mut self, created: &mut Vec<bool>)
        requires
            wf(*old(self)),
            old(created)@.len() == old(self).len(),
            forall|k: int| #![trigger old(self).slot(k)] live_index(*old(self), k) && old(self).slot(k).transform is Some
                && old(self).slot(k).parent is Some ==> old(self).slot(k).previous_parent is Some,
        ensures
            wf(*final(self)),
            final(self).len() == old(self).len(),
            final(created)@.len() == old(created)@.len(),
            forall|k: int| 0 <= k < old(self).len() ==> same_identity(#[trigger] final(self).slot(k), old(self).slot(k)),
            forall|k: int| 0 <= k < old(self).len() ==> #[trigger] final(self).slot(k).parent == old(self).slot(k).parent,
            forall|k: int| 0 <= k < old(self).len() && removals_seen(*old(self), k) ==> removals_seen(*final(self), k),
            forall|k: int| 0 <= k < old(self).len() && #[trigger] final(created)@[k] && !old(created)@[k] ==> old(self).slot(k).children is None,
            forall|k: int| 0 <= k < old(self).len() && old(created)@[k] ==> #[trigger] final(created)@[k],
            forall|k: int| 0 <= k < old(self).len() ==> parent_settled(*final(self), k),
            forall|k: int| 0 <= k < old(self).len() && old(self).slot(k).previous_parent is Some ==> #[trigger] final(self).slot(k).previous_parent is Some,
            forall|k: int| 0 <= k < old(self).len() ==> #[trigger] final(self).slot(k).previous_parent == prev_after_moves(*old(self), k),
            forall|k: int| 0 <= k < old(self).len() ==> #[trigger] final(self).slot(k).parent_changed == (old(self).slot(k).parent_changed && !processed(*old(self), k)),
            forall|k: int| 0 <= k < old(self).len() && !live_index(*old(self), k) ==> #[trigger] final(self).slot(k) == old(self).slot(k),
            lists_after_moves(*old(self), *final(self), old(self).len() as int),
            forall|k: int| 0 <= k < old(self).len() && old(self).slot(k).children is None && #[trigger] final(self).slot(k).children is Some
                ==> final(created)@[k],
    {
        let n = self.slots.len();
        let mut i: usize = 0;
        while i < n
            invariant
                wf(*self),
                n == self.len(),
                self.len() == old(self).len(),
                created@.len() == n,
                0 <= i <= n,
                forall|k: int| 0 <= k < n ==> same_identity(#[trigger] self.slot(k), old(self).slot(k)),
                forall|k: int| 0 <= k < n ==> #[trigger] self.slot(k).parent == old(self).slot(k).parent,
                forall|k: int| 0 <= k < n && removals_seen(*old(self), k) ==> removals_seen(*self, k),
                forall|k: int| 0 <= k < n && #[trigger] created@[k] && !old(created)@[k] ==> old(self).slot(k).children is None,
                forall|k: int| 0 <= k < n && old(self).slot(k).children is Some ==> #[trigger] self.slot(k).children is Some,
                forall|k: int| 0 <= k < n && old(created)@[k] ==> #[trigger] created@[k],
                forall|k: int| 0 <= k < i ==> parent_settled(*self, k),
                forall|k: int| 0 <= k < n && old(self).slot(k).previous_parent is Some ==> #[trigger] self.slot(k).previous_parent is Some,
                wf(*old(self)),
                forall|k: int| #![trigger old(self).slot(k)] live_index(*old(self), k) && old(self).slot(k).transform is Some
                    && old(self).slot(k).parent is Some ==> old(self).slot(k).previous_parent is Some,
                forall|k: int| 0 <= k < n ==> #[trigger] self.slot(k).previous_parent == (if k < i {
                    prev_after_moves(*old(self), k)
                } else {
                    old(self).slot(k).previous_parent
                }),
                forall|k: int| 0 <= k < n ==> #[trigger] self.slot(k).parent_changed == (if k < i {
                    old(self).slot(k).parent_changed && !processed(*old(self), k)
                } else {
                    old(self).slot(k).parent_changed
                }),
                forall|k: int| 0 <= k < n && !live_index(*old(self), k) ==> #[trigger] self.slot(k) == old(self).slot(k),
                lists_after_moves(*old(self), *self, i as int),
                forall|k: int| 0 <= k < n && old(self).slot(k).children is None && #[trigger] self.slot(k).children is Some
                    ==> created@[k],
            decreases n - i,
        {
            let ghost before = *self;
            let ghost created_before = created@;
            let ghost mut moved = false;
            let ghost mut gpp: Option<Entity> = None;
            let ghost mut gp: Entity = Entity { index: 0, generation: 0 };
            if self.slots[i].alive && self.slots[i].transform.is_some() && self.slots[i].parent_changed {
                if let Some(p) = self.slots[i].parent {
                    if let Some(pp) = self.slots[i].previous_parent {
                        if (p.index as usize) < n {
                            let same = match pp {
                                Some(q) => q == p,
                                None => false,
                            };
                            if same {
                                self.slots[i].parent_changed = false;
                                proof {
                                    lemma_wf_keep(before, *self);
                                }
                            } else {
                                proof {
                                    moved = true;
                                    gpp = pp;
                                    gp = p;
                                }
                                let me = Entity { index: i as u32, generation: self.slots[i].generation };
                                assert(me == handle(before, i as int));
                                if let Some(q) = pp {
                                    self.remove_child_of(q, me);
                                }
                                let ghost mid = *self;
                                self.slots[i].previous_parent = Some(Some(p));
                                self.slots[i].parent_changed = false;
                                let ghost mid2 = *self;
                                let p_live = self.is_alive(p);
                                if p_live {
                                    proof {
                                        let pj = p.index as int;
                                        assert(p == handle(before, pj));
                                        if before.slot(pj).children is Some {
                                            assert(!in_children(before, pj, me));
                                            match pp {
                                                Some(q) => {
                                                    if q.index as int == pj {
                                                        assert(!(live(before, q)));
                                                    }
                                                },
                                                None => {},
                                            }
                                            assert(mid2.slot(pj).children == before.slot(pj).children);
                                        }
                                    }
                                    self.add_child_to(p.index as usize, me, created);
                                }
                                proof {
                                    self.lemma_after_move(before, mid, mid2, i as int, me, p, pp, p_live, created_before, created@);
                                }
                            }
                        }
                    }
                }
            }
            proof {
                assert(same_identity(before.slot(i as int), old(self).slot(i as int)));
                assert(before.slot(i as int).previous_parent == old(self).slot(i as int).previous_parent);
                assert(before.slot(i as int).parent_changed == old(self).slot(i as int).parent_changed);
                assert(before.slot(i as int).parent == old(self).slot(i as int).parent);
                if !moved {
                    assert forall|j: int| !(#[trigger] departs_moved(*old(self), i as int, j)) && !joins(*old(self), i as int, j) by {}
                }
                lemma_move_lists(*old(self), before, *self, i as int, moved, gpp, gp);
                assert forall|k: int| 0 <= k < n implies {
                    &&& #[trigger] self.slot(k).previous_parent == (if k < i + 1 {
                        prev_after_moves(*old(self), k)
                    } else {
                        old(self).slot(k).previous_parent
                    })
                    &&& self.slot(k).parent_changed == (if k < i + 1 {
                        old(self).slot(k).parent_changed && !processed(*old(self), k)
                    } else {
                        old(self).slot(k).parent_changed
                    })
                } by {
                    if k != i {
                        assert(self.slot(k).previous_parent == before.slot(k).previous_parent);
                        assert(self.slot(k).parent_changed == before.slot(k).parent_changed);
                    }
                }
                assert forall|k: int| 0 <= k < n && old(self).slot(k).children is None && #[trigger] self.slot(k).children is Some
                    implies created@[k] by {
                    if before.slot(k).children is None {
                        assert(moved && push_target(before, gp) == Some(k));
                    }
                }
                assert forall|k: int| 0 <= k < n && !live_index(*old(self), k) implies #[trigger] self.slot(k) == old(self).slot(k) by {
                    assert(same_identity(before.slot(k), old(self).slot(k)));
                    if moved {
                        assert(removal_target(before, gpp) != Some(k));
                        assert(push_target(before, gp) != Some(k));
                        assert(k != i);
                    }
                }
            }
            proof {
                assert(forall|k: int| 0 <= k < n ==> same_identity(#[trigger] self.slot(k), before.slot(k)));
                assert(forall|k: int| 0 <= k < n ==> #[trigger] self.slot(k).parent == before.slot(k).parent);
                assert(forall|k: int| 0 <= k < n && k != i ==> #[trigger] self.slot(k).parent_changed == before.slot(k).parent_changed);
                assert(forall|k: int| 0 <= k < n && k != i ==> #[trigger] self.slot(k).previous_parent == before.slot(k).previous_parent);
                assert(forall|k: int| 0 <= k < n && before.slot(k).children is Some ==> #[trigger] self.slot(k).children is Some);
                assert forall|k: int| 0 <= k < n && #[trigger] created@[k] && !old(created)@[k] implies old(self).slot(k).children is None by {
                    if !created_before[k] {
                        assert(before.slot(k).children is None);
                    }
                }
                assert forall|k: int| 0 <= k < n implies same_identity(#[trigger] self.slot(k), old(self).slot(k)) by {
                    assert(same_identity(before.slot(k), old(self).slot(k)));
                    assert(same_identity(self.slot(k), before.slot(k)));
                }
                assert forall|k: int| 0 <= k < i + 1 implies parent_settled(*self, k) by {
                    if k < i {
                        assert(parent_settled(before, k));
                        assert(self.slot(k).parent_changed == before.slot(k).parent_changed);
                        assert(self.slot(k).previous_parent == before.slot(k).previous_parent);
                    }
                }
                assert forall|k: int| 0 <= k < n && removals_seen(*old(self), k) implies removals_seen(*self, k) by {
                    assert(removals_seen(before, k));
                    assert(self.slot(k).parent == before.slot(k).parent);
                    if k != i {
                        assert(self.slot(k).previous_parent == before.slot(k).previous_parent);
                    }
                }
            }
            i += 1;
        }
    }

    proof fn lemma_after_move(
        self,
        before: UiWorld,
        mid: UiWorld,
        mid2: UiWorld,
        i: int,
        me: Entity,
        p: Entity,
        pp: Option<Entity>,
        p_live: bool,
        cb: Seq<bool>,
        ca: Seq<bool>,
    )
        requires
            wf(before),
            0 <= i < before.len(),
            live_index(before, i),
            me == handle(before, i),
            before.slot(i).previous_parent == Some(pp),
            before.slot(i).parent == Some(p),
            p.index < before.len(),
            pp != Some(p),
            mid.len() == before.len(),
            match pp {
                Some(q) => {
                    &&& forall|k: int| 0 <= k < before.len() && k != q.index ==> mid.slot(k) == before.slot(k)
                    &&& live(before, q) && before.slot(q.index as int).children is Some ==> {
                        &&& mid.slot(q.index as int).children is Some
                        &&& removed_from(
                            before.slot(q.index as int).children->0,
                            mid.slot(q.index as int).children->0,
                            me,
                        )
                        &&& mid.slot(q.index as int) == (SlotModel {
                            children: mid.slot(q.index as int).children,
                            ..before.slot(q.index as int)
                        })
                    }
                    &&& !(live(before, q) && before.slot(q.index as int).children is Some) ==> mid == before
                },
                None => mid == before,
            },
            mid2.len() == mid.len(),
            forall|k: int| 0 <= k < mid.len() && k != i ==> mid2.slot(k) == mid.slot(k),
            mid2.slot(i) == (SlotModel { previous_parent: Some(Some(p)), parent_changed: false, ..mid.slot(i) }),
            p_live == live(before, p),
            self.len() == mid2.len(),
            !p_live ==> self == mid2,
            p_live ==> {
                &&& forall|k: int| 0 <= k < mid2.len() && k != p.index ==> self.slot(k) == mid2.slot(k)
                &&& self.slot(p.index as int) == (SlotModel {
                    children: Some(
                        match mid2.slot(p.index as int).children {
                            Some(l) => l.push(me),
                            None => seq![me],
                        },
                    ),
                    ..mid2.slot(p.index as int)
                })
            },
        ensures
            wf(self),
            forall|k: int| 0 <= k < before.len() ==> same_identity(#[trigger] self.slot(k), before.slot(k)),
            forall|k: int| 0 <= k < before.len() ==> #[trigger] self.slot(k).parent == before.slot(k).parent,
            forall|k: int| 0 <= k < before.len() && k != i ==> #[trigger] self.slot(k).parent_changed == before.slot(k).parent_changed,
            forall|k: int| 0 <= k < before.len() && k != i ==> #[trigger] self.slot(k).previous_parent == before.slot(k).previous_parent,
            forall|k: int| 0 <= k < before.len() && before.slot(k).children is Some ==> #[trigger] self.slot(k).children is Some,
            forall|k: int| 0 <= k < before.len() ==> #[trigger] self.slot(k).children == (if removal_target(before, pp) == Some(k) {
                mid.slot(k).children
            } else if push_target(before, p) == Some(k) {
                Some(pushed(before.slot(k).children, me))
            } else {
                before.slot(k).children
            }),
            !self.slot(i).parent_changed,
            self.slot(i).previous_parent == Some(Some(p)),
            forall|k: int| 0 <= k < before.len() && k != i && removals_seen(before, k) ==> removals_seen(self, k),
    {
        let n = before.len();
        let qi: int = match pp {
            Some(q) => q.index as int,
            None => -1,
        };
        let rq: bool = match pp {
            Some(q) => live(before, q) && before.slot(q.index as int).children is Some,
            None => false,
        };
        let pi = p.index as int;
        assert(rq ==> qi != pi || !p_live) by {
            if rq && p_live && qi == pi {
                assert(pp->0 == handle(before, qi));
                assert(p == handle(before, pi));
            }
        }
        assert(forall|k: int| 0 <= k < n && k != qi ==> mid.slot(k) == before.slot(k));
        assert(!rq ==> mid == before);
        // Every slot but the two lists and `i` itself is as before.
        assert forall|k: int| 0 <= k < n implies {
            &&& #[trigger] self.slot(k).generation == before.slot(k).generation
            &&& self.slot(k).alive == before.slot(k).alive
            &&& self.slot(k).transform == before.slot(k).transform
            &&& self.slot(k).hidden == before.slot(k).hidden
            &&& self.slot(k).parent == before.slot(k).parent
            &&& (k != i ==> self.slot(k).parent_changed == before.slot(k).parent_changed)
            &&& (k != i ==> self.slot(k).previous_parent == before.slot(k).previous_parent)
            &&& (k == i ==> self.slot(k).previous_parent == Some(Some(p)) && !self.slot(k).parent_changed)
            &&& self.slot(k).children == (if rq && k == qi {
                mid.slot(k).children
            } else if p_live && k == pi {
                Some(
                    match before.slot(k).children {
                        Some(l) => l.push(me),
                        None => seq![me],
                    },
                )
            } else {
                before.slot(k).children
            })
        } by {
            if rq && k == qi {
                assert(mid.slot(k) == (SlotModel { children: mid.slot(k).children, ..before.slot(k) }));
            } else {
                assert(mid.slot(k) == before.slot(k));
            }
        }
        assert forall|a: int, b: int|
            #![trigger in_children(self, b, handle(self, a))]
            live_index(self, a) && live_index(self, b) implies (in_children(self, b, handle(self, a))
                <==> self.slot(a).previous_parent == Some(Some(handle(self, b)))) by {
            assert(handle(self, a) == handle(before, a));
            assert(handle(self, b) == handle(before, b));
            assert(in_children(before, b, handle(before, a)) <==> before.slot(a).previous_parent
                == Some(Some(handle(before, b))));
            if rq && b == qi {
                let l0 = before.slot(b).children->0;
                let l1 = self.slot(b).children->0;
                assert(l1.contains(handle(before, a)) <==> (l0.contains(handle(before, a))
                    && handle(before, a) != me));
                assert(pp->0 == handle(before, b));
            } else if p_live && b == pi {
                assert(p == handle(before, b));
                let l1 = self.slot(b).children->0;
                if a == i {
                    assert(l1[l1.len() - 1] == me);
                } else {
                    if l1.contains(handle(before, a)) {
                        let k = choose|k: int| 0 <= k < l1.len() && l1[k] == handle(before, a);
                        if before.slot(b).children is Some {
                            assert(before.slot(b).children->0[k] == handle(before, a));
                        } else {
                            assert(false);
                        }
                    }
                    if before.slot(b).children is Some && before.slot(b).children->0.contains(handle(before, a)) {
                        let k = choose|k: int| 0 <= k < before.slot(b).children->0.len() && before.slot(b).children->0[k] == handle(before, a);
                        assert(l1[k] == handle(before, a));
                    }
                }
            } else {
                if a == i {
                    if in_children(before, b, me) {
                        assert(pp == Some(handle(before, b)));
                        assert(rq);
                    }
                }
            }
        }
        assert forall|b: int, k: int|
            live_index(self, b) && self.slot(b).children is Some && 0 <= k < self.slot(b).children->0.len()
                implies #[trigger] self.slot(b).children->0[k].index < self.len() by {
            if rq && b == qi {
                let l0 = before.slot(b).children->0;
                let l1 = self.slot(b).children->0;
                assert(l1.contains(l1[k]));
                let k0 = choose|k0: int| 0 <= k0 < l0.len() && l0[k0] == l1[k];
                assert(before.slot(b).children->0[k0].index < before.len());
            } else if p_live && b == pi {
                if before.slot(b).children is Some && k < before.slot(b).children->0.len() {
                    assert(before.slot(b).children->0[k].index < before.len());
                }
            } else {
                assert(before.slot(b).children->0[k].index < before.len());
            }
        }
        assert forall|a: int| #![trigger self.slot(a)] live_index(self, a) implies {
            &&& prev_below(self.slot(a).previous_parent, self.len())
            &&& (self.slot(a).children is Some ==> self.slot(a).children->0.no_duplicates())
            &&& (self.slot(a).parent is Some && !self.slot(a).parent_changed
                && self.slot(a).previous_parent is Some ==> self.slot(a).previous_parent->0
                == self.slot(a).parent)
            &&& (self.slot(a).parent is Some && self.slot(a).previous_parent is None
                ==> self.slot(a).parent_changed)
        } by {
            assert(live_index(before, a));
            assert(prev_below(before.slot(a).previous_parent, before.len()));
            assert(before.slot(a).children is Some ==> before.slot(a).children->0.no_duplicates());
            if p_live && a == pi && !(rq && a == qi) {
                assert(p == handle(before, a));
                if before.slot(a).children is Some {
                    assert(!in_children(before, a, me));
                    let l1 = self.slot(a).children->0;
                    let l0 = before.slot(a).children->0;
                    assert forall|x: int, y: int| 0 <= x < l1.len() && 0 <= y < l1.len() && x != y implies l1[x] != l1[y] by {
                        if x < l0.len() && y < l0.len() {
                        } else if x < l0.len() {
                            assert(l0.contains(l0[x]));
                        } else if y < l0.len() {
                            assert(l0.contains(l0[y]));
                        }
                    }
                }
            }
        }
        assert forall|k: int| 0 <= k < before.len() && k != i && removals_seen(before, k) implies removals_seen(self, k) by {
        }
    }

    /// Detaches the children of `j` (their `Parent` and `PreviousParent`)
    /// and removes its `Children`.
    fn detach_children(&mut self, j: usize)
        requires
            wf(*old(self)),
            live_index(*old(self), j as int),
            old(self).slot(j as int).children is Some,
        ensures
            wf(*final(self)),
            final(self).len() == old(self).len(),
            final(self).slot(j as int).children is None,
            forall|k: int| 0 <= k < old(self).len() ==> same_identity(#[trigger] final(self).slot(k), old(self).slot(k)),
            forall|k: int| 0 <= k < old(self).len() ==> #[trigger] final(self).slot(k).parent_changed == old(self).slot(k).parent_changed,
            forall|k: int| 0 <= k < old(self).len() && k != j ==> #[trigger] final(self).slot(k).children == old(self).slot(k).children,
            forall|k: int| 0 <= k < old(self).len() ==> {
                ||| (#[trigger] final(self).slot(k).parent == old(self).slot(k).parent
                    && final(self).slot(k).previous_parent == old(self).slot(k).previous_parent)
                ||| (final(self).slot(k).parent is None && final(self).slot(k).previous_parent is None)
            },
            forall|k: int| 0 <= k < old(self).len() && #[trigger] final(self).slot(k).parent != old(self).slot(k).parent
                ==> old(self).slot(k).previous_parent == Some(Some(handle(*old(self), j as int))),
            forall|k: int| 0 <= k < old(self).len() ==> {
                &&& #[trigger] final(self).slot(k).parent == (if live_index(*old(self), k) && old(self).slot(j as int).children->0.contains(handle(*old(self), k)) {
                    None
                } else {
                    old(self).slot(k).parent
                })
                &&& final(self).slot(k).previous_parent == (if live_index(*old(self), k) && old(self).slot(j as int).children->0.contains(handle(*old(self), k)) {
                    None
                } else {
                    old(self).slot(k).previous_parent
                })
            },
    {
        let n = self.slots.len();
        let owner = Entity { index: j as u32, generation: self.slots[j].generation };
        let list = match self.children(owner) {
            Some(l) => l,
            None => Vec::new(),
        };
        let ghost l = list@;
        let ghost w0 = *self;
        assert(l == w0.slot(j as int).children->0);
        self.slots[j].children = None;
        let ghost w1 = *self;
        proof {
            assert forall|k: int| 0 <= k < n && k != j implies #[trigger] w1.slot(k) == w0.slot(k) by {}
            assert(w1.slot(j as int) == SlotModel { children: None, ..w0.slot(j as int) });
            assert(w0.slot(j as int).children->0.no_duplicates());
            assert forall|a: int|
                #![trigger w1.slot(a)]
                live_index(w1, a) implies (w1.slot(a).previous_parent == Some(Some(handle(w1, j as int)))
                    <==> l.subrange(0, l.len() as int).contains(handle(w1, a))) by {
                assert(l.subrange(0, l.len() as int) =~= l);
                assert(in_children(w0, j as int, handle(w0, a)) <==> w0.slot(a).previous_parent
                    == Some(Some(handle(w0, j as int))));
            }
            assert forall|a: int, b: int|
                #![trigger in_children(w1, b, handle(w1, a))]
                live_index(w1, a) && live_index(w1, b) && b != j implies (in_children(w1, b, handle(w1, a))
                    <==> w1.slot(a).previous_parent == Some(Some(handle(w1, b)))) by {
                assert(in_children(w0, b, handle(w0, a)) <==> w0.slot(a).previous_parent
                    == Some(Some(handle(w0, b))));
            }
            assert forall|a: int| #![trigger w1.slot(a)] live_index(w1, a) implies {
                &&& prev_below(w1.slot(a).previous_parent, w1.len())
                &&& (w1.slot(a).children is Some ==> w1.slot(a).children->0.no_duplicates())
                &&& (w1.slot(a).parent is Some && !w1.slot(a).parent_changed
                    && w1.slot(a).previous_parent is Some ==> w1.slot(a).previous_parent->0
                    == w1.slot(a).parent)
                &&& (w1.slot(a).parent is Some && w1.slot(a).previous_parent is None
                    ==> w1.slot(a).parent_changed)
            } by {
                assert(live_index(w0, a));
            }
            assert forall|b: int, k: int|
                live_index(w1, b) && w1.slot(b).children is Some && 0 <= k < w1.slot(b).children->0.len()
                    implies #[trigger] w1.slot(b).children->0[k].index < w1.len() by {
                assert(w0.slot(b).children->0[k].index < w0.len());
            }
        }
        let mut idx: usize = 0;
        while idx < list.len()
            invariant
                n == self.len(),
                n == w0.len(),
                wf(w0),
                list@ == l,
                w0.slot(j as int).children is Some,
                l == w0.slot(j as int).children->0,
                l.no_duplicates(),
                live_index(w0, j as int),
                0 <= idx <= l.len(),
                slots_ok(*self),
                self.slot(j as int).children is None,
                forall|k: int| 0 <= k < n ==> same_identity(#[trigger] self.slot(k), w0.slot(k)),
                forall|k: int| 0 <= k < n ==> #[trigger] self.slot(k).parent_changed == w0.slot(k).parent_changed,
                forall|k: int| 0 <= k < n && k != j ==> #[trigger] self.slot(k).children == w0.slot(k).children,
                forall|k: int| 0 <= k < n ==> {
                    ||| (#[trigger] self.slot(k).parent == w0.slot(k).parent
                        && self.slot(k).previous_parent == w0.slot(k).previous_parent)
                    ||| (self.slot(k).parent is None && self.slot(k).previous_parent is None)
                },
                forall|a: int|
                    #![trigger self.slot(a)]
                    live_index(*self, a) ==> (self.slot(a).previous_parent == Some(Some(handle(*self, j as int)))
                        <==> l.subrange(idx as int, l.len() as int).contains(handle(*self, a))),
                forall|a: int|
                    #![trigger self.slot(a)]
                    live_index(*self, a) && self.slot(a).previous_parent != w0.slot(a).previous_parent ==>
                        !l.subrange(idx as int, l.len() as int).contains(handle(*self, a)),
                forall|a: int, b: int|
                    #![trigger in_children(*self, b, handle(*self, a))]
                    live_index(*self, a) && live_index(*self, b) && b != j ==> (in_children(*self, b, handle(*self, a))
                        <==> self.slot(a).previous_parent == Some(Some(handle(*self, b)))),
                forall|k: int| 0 <= k < n && #[trigger] self.slot(k).parent != w0.slot(k).parent
                    ==> w0.slot(k).previous_parent == Some(Some(handle(w0, j as int))),
                forall|k: int| 0 <= k < n ==> {
                    &&& #[trigger] self.slot(k).parent == (if live_index(w0, k) && l.subrange(0, idx as int).contains(handle(w0, k)) {
                        None
                    } else {
                        w0.slot(k).parent
                    })
                    &&& self.slot(k).previous_parent == (if live_index(w0, k) && l.subrange(0, idx as int).contains(handle(w0, k)) {
                        None
                    } else {
                        w0.slot(k).previous_parent
                    })
                },
            decreases l.len() - idx,
        {
            let c = list[idx];
            let ghost before = *self;
            proof {
                assert forall|k: int| 0 <= k < n implies (l.subrange(0, idx + 1).contains(#[trigger] handle(w0, k)) <==> (l.subrange(0, idx as int).contains(handle(w0, k)) || l[idx as int] == handle(w0, k))) by {
                    let s1 = l.subrange(0, idx + 1);
                    let s0 = l.subrange(0, idx as int);
                    let h = handle(w0, k);
                    if s1.contains(h) {
                        let r = choose|r: int| 0 <= r < s1.len() && s1[r] == h;
                        if r < idx {
                            assert(s0[r] == h);
                        }
                    }
                    if s0.contains(h) {
                        let r = choose|r: int| 0 <= r < s0.len() && s0[r] == h;
                        assert(s1[r] == h);
                    }
                    if l[idx as int] == h {
                        assert(s1[idx as int] == h);
                    }
                }
            }
            if self.is_alive(c) {
                let ci = c.index as usize;
                self.slots[ci].parent = None;
                self.slots[ci].previous_parent = None;
                proof {
                    assert(c == handle(before, ci as int));
                    assert(forall|k: int| 0 <= k < n && k != ci ==> #[trigger] self.slot(k) == before.slot(k));
                    assert(self.slot(ci as int) == SlotModel { parent: None, previous_parent: None, ..before.slot(ci as int) });
                    if self.slot(ci as int).parent != w0.slot(ci as int).parent {
                        assert(l[idx as int] == c);
                        assert(same_identity(before.slot(ci as int), w0.slot(ci as int)));
                        assert(handle(before, ci as int) == handle(w0, ci as int));
                        assert(l.contains(handle(w0, ci as int)));
                        assert(in_children(w0, j as int, handle(w0, ci as int)));
                        assert(in_children(w0, j as int, handle(w0, ci as int)) <==> w0.slot(ci as int).previous_parent
                            == Some(Some(handle(w0, j as int))));
                    }
                    assert forall|a: int| #![trigger self.slot(a)] live_index(*self, a) implies (self.slot(a).previous_parent
                        == Some(Some(handle(*self, j as int))) <==> l.subrange(idx + 1, l.len() as int).contains(handle(*self, a))) by {
                        let r0 = l.subrange(idx as int, l.len() as int);
                        let r1 = l.subrange(idx + 1, l.len() as int);
                        assert(handle(*self, a) == handle(before, a));
                        if r1.contains(handle(*self, a)) {
                            let k = choose|k: int| 0 <= k < r1.len() && r1[k] == handle(*self, a);
                            assert(r0[k + 1] == handle(*self, a));
                            if a == ci {
                                assert(l[idx as int] == l[idx + 1 + k]);
                            }
                        }
                        if a != ci && r0.contains(handle(*self, a)) {
                            let k = choose|k: int| 0 <= k < r0.len() && r0[k] == handle(*self, a);
                            assert(k != 0);
                            assert(r1[k - 1] == handle(*self, a));
                        }
                    }
                    assert forall|a: int| #![trigger self.slot(a)]
                        live_index(*self, a) && self.slot(a).previous_parent != w0.slot(a).previous_parent implies
                            !l.subrange(idx + 1, l.len() as int).contains(handle(*self, a)) by {
                        let r0 = l.subrange(idx as int, l.len() as int);
                        let r1 = l.subrange(idx + 1, l.len() as int);
                        if r1.contains(handle(*self, a)) {
                            let k = choose|k: int| 0 <= k < r1.len() && r1[k] == handle(*self, a);
                            assert(r0[k + 1] == handle(*self, a));
                            if a == ci {
                                assert(l[idx as int] == l[idx + 1 + k]);
                            }
                        }
                    }
                    assert forall|a: int, b: int|
                        #![trigger in_children(*self, b, handle(*self, a))]
                        live_index(*self, a) && live_index(*self, b) && b != j implies (in_children(*self, b, handle(*self, a))
                            <==> self.slot(a).previous_parent == Some(Some(handle(*self, b)))) by {
                        assert(in_children(before, b, handle(before, a)) <==> before.slot(a).previous_parent
                            == Some(Some(handle(before, b))));
                        if a == ci {
                            assert(l.subrange(idx as int, l.len() as int)[0] == c);
                            assert(before.slot(a).previous_parent == Some(Some(handle(before, j as int))));
                        }
                    }
                    assert forall|a: int| #![trigger self.slot(a)] live_index(*self, a) implies {
                        &&& prev_below(self.slot(a).previous_parent, self.len())
                        &&& (self.slot(a).children is Some ==> self.slot(a).children->0.no_duplicates())
                        &&& (self.slot(a).parent is Some && !self.slot(a).parent_changed
                            && self.slot(a).previous_parent is Some ==> self.slot(a).previous_parent->0
                            == self.slot(a).parent)
                        &&& (self.slot(a).parent is Some && self.slot(a).previous_parent is None
                            ==> self.slot(a).parent_changed)
                    } by {
                        assert(live_index(before, a));
                    }
                    assert forall|b: int, k: int|
                        live_index(*self, b) && self.slot(b).children is Some && 0 <= k < self.slot(b).children->0.len()
                            implies #[trigger] self.slot(b).children->0[k].index < self.len() by {
                        assert(before.slot(b).children->0[k].index < before.len());
                    }
                }
            } else {
                proof {
                    assert forall|a: int| #![trigger self.slot(a)] live_index(*self, a) implies (self.slot(a).previous_parent
                        == Some(Some(handle(*self, j as int))) <==> l.subrange(idx + 1, l.len() as int).contains(handle(*self, a))) by {
                        let r0 = l.subrange(idx as int, l.len() as int);
                        let r1 = l.subrange(idx + 1, l.len() as int);
                        if r1.contains(handle(*self, a)) {
                            let k = choose|k: int| 0 <= k < r1.len() && r1[k] == handle(*self, a);
                            assert(r0[k + 1] == handle(*self, a));
                        }
                        if r0.contains(handle(*self, a)) {
                            let k = choose|k: int| 0 <= k < r0.len() && r0[k] == handle(*self, a);
                            if k == 0 {
                                assert(live(*self, c));
                            } else {
                                assert(r1[k - 1] == handle(*self, a));
                            }
                        }
                    }
                    assert forall|a: int| #![trigger self.slot(a)]
                        live_index(*self, a) && self.slot(a).previous_parent != w0.slot(a).previous_parent implies
                            !l.subrange(idx + 1, l.len() as int).contains(handle(*self, a)) by {
                        let r0 = l.subrange(idx as int, l.len() as int);
                        let r1 = l.subrange(idx + 1, l.len() as int);
                        if r1.contains(handle(*self, a)) {
                            let k = choose|k: int| 0 <= k < r1.len() && r1[k] == handle(*self, a);
                            assert(r0[k + 1] == handle(*self, a));
                        }
                    }
                }
            }
            idx += 1;
        }
        proof {
            assert(l.subrange(0, l.len() as int) =~= l);
            assert forall|a: int, b: int|
                #![trigger in_children(*self, b, handle(*self, a))]
                live_index(*self, a) && live_index(*self, b) implies (in_children(*self, b, handle(*self, a))
                    <==> self.slot(a).previous_parent == Some(Some(handle(*self, b)))) by {
                if b == j {
                    assert(l.subrange(l.len() as int, l.len() as int).len() == 0);
                }
            }
        }
    }

    /// Entities that hold `Children` but stopped being layout nodes lose
    /// them, and their children lose `Parent` and `PreviousParent`; lists
    /// created in this run (`created`) are left alone.
    fn drop_deleted_parents(&mut self, created: &Vec<bool>)
        requires
            wf(*old(self)),
            created@.len() == old(self).len(),
        ensures
            wf(*final(self)),
            final(self).len() == old(self).len(),
            forall|k: int| 0 <= k < old(self).len() ==> same_identity(#[trigger] final(self).slot(k), old(self).slot(k)),
            forall|k: int| 0 <= k < old(self).len() ==> #[trigger] final(self).slot(k).parent_changed == old(self).slot(k).parent_changed,
            forall|k: int| 0 <= k < old(self).len() ==> {
                ||| (#[trigger] final(self).slot(k).parent == old(self).slot(k).parent
                    && final(self).slot(k).previous_parent == old(self).slot(k).previous_parent)
                ||| (final(self).slot(k).parent is None && final(self).slot(k).previous_parent is None)
            },
            forall|k: int| 0 <= k < old(self).len() && #[trigger] final(self).slot(k).children is Some
                ==> final(self).slot(k).children == old(self).slot(k).children,
            forall|k: int| live_index(*old(self), k) && old(self).slot(k).transform is None && !created@[k]
                ==> #[trigger] final(self).slot(k).children is None,
            forall|k: int| 0 <= k < old(self).len() && #[trigger] final(self).slot(k).parent != old(self).slot(k).parent
                ==> detached_from_deleted(*old(self), k),
            forall|k: int| 0 <= k < old(self).len() ==> {
                &&& #[trigger] final(self).slot(k).parent == (if listed_by_deleted(*old(self), created@, k, old(self).len() as int) {
                    None
                } else {
                    old(self).slot(k).parent
                })
                &&& final(self).slot(k).previous_parent == (if listed_by_deleted(*old(self), created@, k, old(self).len() as int) {
                    None
                } else {
                    old(self).slot(k).previous_parent
                })
                &&& final(self).slot(k).children == (if live_index(*old(self), k) && old(self).slot(k).transform is None
                    && old(self).slot(k).children is Some && !created@[k] {
                    None
                } else {
                    old(self).slot(k).children
                })
            },
    {
        let n = self.slots.len();
        let mut j: usize = 0;
        while j < n
            invariant
                wf(*self),
                n == self.len(),
                n == old(self).len(),
                created@.len() == n,
                0 <= j <= n,
                forall|k: int| 0 <= k < n ==> same_identity(#[trigger] self.slot(k), old(self).slot(k)),
                forall|k: int| 0 <= k < n ==> #[trigger] self.slot(k).parent_changed == old(self).slot(k).parent_changed,
                forall|k: int| 0 <= k < n ==> {
                    ||| (#[trigger] self.slot(k).parent == old(self).slot(k).parent
                        && self.slot(k).previous_parent == old(self).slot(k).previous_parent)
                    ||| (self.slot(k).parent is None && self.slot(k).previous_parent is None)
                },
                forall|k: int| 0 <= k < n && #[trigger] self.slot(k).children is Some
                    ==> self.slot(k).children == old(self).slot(k).children,
                forall|k: int| 0 <= k < j && live_index(*old(self), k) && old(self).slot(k).transform is None && !created@[k]
                    ==> #[trigger] self.slot(k).children is None,
                forall|k: int| 0 <= k < n && #[trigger] self.slot(k).parent != old(self).slot(k).parent
                    ==> detached_from_deleted(*old(self), k),
                wf(*old(self)),
                forall|k: int| 0 <= k < n ==> {
                    &&& #[trigger] self.slot(k).parent == (if listed_by_deleted(*old(self), created@, k, j as int) {
                        None
                    } else {
                        old(self).slot(k).parent
                    })
                    &&& self.slot(k).previous_parent == (if listed_by_deleted(*old(self), created@, k, j as int) {
                        None
                    } else {
                        old(self).slot(k).previous_parent
                    })
                    &&& self.slot(k).children == (if k < j && live_index(*old(self), k) && old(self).slot(k).transform is None
                        && old(self).slot(k).children is Some && !created@[k] {
                        None
                    } else {
                        old(self).slot(k).children
                    })
                },
            decreases n - j,
        {
            if self.slots[j].alive && self.slots[j].transform.is_none() && self.slots[j].children.is_some()
                && !created[j] {
                let ghost before = *self;
                self.detach_children(j);
                proof {
                    assert(before.slot(j as int).children == old(self).slot(j as int).children);
                    assert forall|k: int| 0 <= k < n implies {
                        &&& #[trigger] self.slot(k).parent == (if listed_by_deleted(*old(self), created@, k, j + 1) {
                            None
                        } else {
                            old(self).slot(k).parent
                        })
                        &&& self.slot(k).previous_parent == (if listed_by_deleted(*old(self), created@, k, j + 1) {
                            None
                        } else {
                            old(self).slot(k).previous_parent
                        })
                        &&& self.slot(k).children == (if k < j + 1 && live_index(*old(self), k) && old(self).slot(k).transform is None
                            && old(self).slot(k).children is Some && !created@[k] {
                            None
                        } else {
                            old(self).slot(k).children
                        })
                    } by {
                        assert(same_identity(before.slot(k), old(self).slot(k)));
                        assert(same_identity(before.slot(j as int), old(self).slot(j as int)));
                        assert(handle(before, k) == handle(*old(self), k));
                        assert(handle(before, j as int) == handle(*old(self), j as int));
                        if live_index(*old(self), k) {
                            assert(in_children(*old(self), j as int, handle(*old(self), k)) <==> old(self).slot(k).previous_parent
                                == Some(Some(handle(*old(self), j as int))));
                        }
                    }
                    assert forall|k: int| 0 <= k < n && #[trigger] self.slot(k).parent != old(self).slot(k).parent
                        implies detached_from_deleted(*old(self), k) by {
                        if before.slot(k).parent != old(self).slot(k).parent {
                        } else {
                            assert(self.slot(k).parent != before.slot(k).parent);
                            assert(before.slot(k).previous_parent == old(self).slot(k).previous_parent);
                            assert(before.slot(k).previous_parent == Some(Some(handle(before, j as int))));
                            assert(same_identity(before.slot(j as int), old(self).slot(j as int)));
                            assert(handle(before, j as int) == handle(*old(self), j as int));
                        }
                    }
                }
            }
            proof {
                assert forall|k: int| 0 <= k < n implies {
                    &&& #[trigger] self.slot(k).parent == (if listed_by_deleted(*old(self), created@, k, j + 1) {
                        None
                    } else {
                        old(self).slot(k).parent
                    })
                    &&& self.slot(k).previous_parent == (if listed_by_deleted(*old(self), created@, k, j + 1) {
                        None
                    } else {
                        old(self).slot(k).previous_parent
                    })
                    &&& self.slot(k).children == (if k < j + 1 && live_index(*old(self), k) && old(self).slot(k).transform is None
                        && old(self).slot(k).children is Some && !created@[k] {
                        None
                    } else {
                        old(self).slot(k).children
                    })
                } by {
                    if listed_by_deleted(*old(self), created@, k, j + 1) && !listed_by_deleted(*old(self), created@, k, j as int) {
                        let q = old(self).slot(k).previous_parent->0->0;
                        assert(q.index == j);
                    }
                }
            }
            j += 1;
        }
    }
}

/// Slot `k` holds a layout node whose `Parent` is a live layout node.
pub open spec fn keeps_parent_at(w: UiWorld, k: int) -> bool {
    &&& live_index(w, k)
    &&& w.slot(k).transform is Some
    &&& w.slot(k).parent is Some
    &&& live(w, w.slot(k).parent->0)
    &&& w.slot(w.slot(k).parent->0.index as int).transform is Some
}

/// Every layout node of `a` whose `Parent` is a live layout node has the
/// same `Parent` in `b`.
pub open spec fn keeps_layout_parents(a: UiWorld, b: UiWorld) -> bool {
    forall|k: int| #![trigger b.slot(k)] 0 <= k < a.len() && keeps_parent_at(a, k) ==> b.slot(k).parent == a.slot(k).parent
}

/// Entity `k` is listed by a live entity that is no longer a layout node
/// and whose list was not created in this pass (`created`): its previous
/// parent, below slot `bound`.
pub open spec fn listed_by_deleted(w: UiWorld, created: Seq<bool>, k: int, bound: int) -> bool {
    live_index(w, k) && match w.slot(k).previous_parent {
        Some(Some(q)) => live(w, q) && q.index < bound && w.slot(q.index as int).transform is None
            && w.slot(q.index as int).children is Some && !created[q.index as int],
        _ => false,
    }
}

/// Entity `k` recorded as its previous parent a live entity that is not a
/// layout node.
pub open spec fn detached_from_deleted(w: UiWorld, k: int) -> bool {
    exists|j: int|
        #![trigger w.slot(j)]
        live_index(w, j) && w.slot(j).transform is None && w.slot(k).previous_parent == Some(
            Some(handle(w, j)),
        )
}

/// The `PreviousParent` of slot `k` once the synchroniser has recorded
/// first sights, removed parents and changed parents.
pub open spec fn prev_synced(w: UiWorld, k: int) -> Option<Option<Entity>> {
    if processed(w, k) {
        Some(w.slot(k).parent)
    } else if live_index(w, k) && w.slot(k).parent is None && w.slot(k).previous_parent matches Some(Some(_)) {
        Some(None)
    } else if live_index(w, k) && w.slot(k).transform is Some && w.slot(k).parent is Some
        && w.slot(k).previous_parent is None {
        Some(None)
    } else {
        w.slot(k).previous_parent
    }
}

/// A live entity that holds `Children` but is no longer a layout node.
pub open spec fn deleted_parent(w: UiWorld, j: int) -> bool {
    live_index(w, j) && w.slot(j).transform is None && w.slot(j).children is Some
}

/// Entity `k` ends up listed by a deleted parent, so it is detached.
pub open spec fn detached(w: UiWorld, k: int) -> bool {
    live_index(w, k) && match prev_synced(w, k) {
        Some(Some(q)) => live(w, q) && deleted_parent(w, q.index as int),
        _ => false,
    }
}

/// Entity `c` leaves the list of `j` in a synchronisation of `w`.
pub open spec fn departs(w: UiWorld, c: int, j: int) -> bool {
    departs_unparented(w, c, j) || departs_moved(w, c, j)
}

/// The list of `j` in `w2` is the list of `j` in `w` without the entities
/// that left it, in their order, followed by those that joined it, in slot
/// order; a list is created only for joining entities.
pub open spec fn synced_list(w: UiWorld, w2: UiWorld, j: int) -> bool {
    &&& (w.slot(j).children is Some ==> w2.slot(j).children is Some)
    &&& (w2.slot(j).children is Some ==> {
        &&& ordered_after(list_or_empty(w.slot(j).children), w2.slot(j).children->0)
        &&& forall|x: Entity|
            #[trigger] w2.slot(j).children->0.contains(x) <==> ((list_or_empty(w.slot(j).children).contains(x)
                && !(live(w, x) && departs(w, x.index as int, j))) || (live(w, x) && joins(w, x.index as int, j)))
    })
}

/// What the synchroniser does to slot `k` of `w`, as seen in `w2`.
pub open spec fn synced_slot(w: UiWorld, w2: UiWorld, k: int) -> bool {
    if !live_index(w, k) {
        w2.slot(k) == w.slot(k)
    } else {
        &&& same_identity(w2.slot(k), w.slot(k))
        &&& w2.slot(k).parent == (if detached(w, k) { None } else { w.slot(k).parent })
        &&& w2.slot(k).previous_parent == (if detached(w, k) { None } else { prev_synced(w, k) })
        &&& w2.slot(k).parent_changed == (w.slot(k).parent_changed && !processed(w, k))
        &&& (deleted_parent(w, k) ==> w2.slot(k).children is None)
        &&& (!deleted_parent(w, k) ==> synced_list(w, w2, k))
    }
}

proof fn lemma_compose_ordered(l0: Seq<Entity>, l1: Seq<Entity>, l2: Seq<Entity>)
    requires
        ordered_after(l0, l1),
        forall|x: Entity| #[trigger] l1.contains(x) ==> l0.contains(x),
        ordered_after(l1, l2),
        forall|x: Entity| #[trigger] l2.contains(x) && !l1.contains(x) ==> !l0.contains(x),
    ensures
        ordered_after(l0, l2),
{
    assert forall|a: int, b: int| 0 <= a < b < l2.len() implies stands_before(l0, #[trigger] l2[a], #[trigger] l2[b]) by {
        let x = l2[a];
        let y = l2[b];
        assert(l2.contains(x) && l2.contains(y));
        assert(stands_before(l1, x, y));
        if l1.contains(x) && l1.contains(y) {
            let ka = choose|ka: int| 0 <= ka < l1.len() && l1[ka] == x;
            let kb = choose|kb: int| 0 <= kb < l1.len() && l1[kb] == y;
            assert(ka < kb);
            assert(stands_before(l0, l1[ka], l1[kb]));
        }
    }
}

/// The `Children` lists agree with `Parent`: every layout node whose
/// `Parent` is a live entity is listed by it (once), and no entity without
/// a `Parent` is listed anywhere.
pub open spec fn children_consistent(w: UiWorld) -> bool {
    &&& forall|a: int, b: int|
        #![trigger w.slot(a), w.slot(b)]
        live_index(w, a) && live_index(w, b) && w.slot(a).transform is Some && w.slot(a).parent
            == Some(handle(w, b)) ==> {
            &&& w.slot(b).children is Some
            &&& w.slot(b).children->0.contains(handle(w, a))
            &&& w.slot(b).children->0.no_duplicates()
        }
    &&& forall|q: int, b: int|
        #![trigger w.slot(q), w.slot(b)]
        live_index(w, q) && live_index(w, b) && w.slot(q).parent is None ==> !in_children(
            w,
            b,
            handle(w, q),
        )
}

/// The graph synchroniser: records missing previous parents, takes entities
/// whose `Parent` was removed or changed out of their old parent's
/// `Children`, appends them to their new parent's, and detaches the children
/// of entities that stopped being layout nodes.
///
/// Each `Children` list keeps its remaining entries in their order and
/// gains the entities that joined it at the end, in slot order; a list is
/// created only for joining entities (see `synced_slot`).
pub fn parent_update(world: &mut UiWorld)
    requires
        wf(*old(world)),
    ensures
        wf(*final(world)),
        children_consistent(*final(world)),
        final(world).len() == old(world).len(),
        forall|k: int| 0 <= k < old(world).len() ==> same_identity(#[trigger] final(world).slot(k), old(world).slot(k)),
        forall|k: int| 0 <= k < old(world).len() ==> {
            ||| #[trigger] final(world).slot(k).parent == old(world).slot(k).parent
            ||| (final(world).slot(k).parent is None && final(world).slot(k).previous_parent is None)
        },
        forall|k: int| live_index(*old(world), k) && old(world).slot(k).transform is None
            && old(world).slot(k).children is Some ==> #[trigger] final(world).slot(k).children is None,
        keeps_layout_parents(*old(world), *final(world)),
        forall|k: int| 0 <= k < old(world).len() ==> synced_slot(*old(world), *final(world), k),
{
    let ghost w_start = *world;
    missing_previous_parent(world);
    let ghost w0 = *world;
    world.drop_removed_parents();
    let ghost w1 = *world;
    let n = world.slots.len();
    let mut created: Vec<bool> = Vec::new();
    let mut k: usize = 0;
    while k < n
        invariant
            0 <= k <= n,
            created@.len() == k,
            forall|m: int| 0 <= m < k ==> !created@[m],
        decreases n - k,
    {
        created.push(false);
        k += 1;
    }
    world.apply_changed_parents(&mut created);
    let ghost w2 = *world;
    world.drop_deleted_parents(&created);
    proof {
        let w3 = *world;
        assert forall|a: int| #![trigger w3.slot(a)] 0 <= a < n implies {
            &&& removals_seen(w3, a)
            &&& (live_index(w3, a) && w3.slot(a).transform is Some && w3.slot(a).parent is Some
                && w3.slot(a).parent->0.index < n ==> w3.slot(a).previous_parent == Some(w3.slot(a).parent))
        } by {
            assert(w0.slot(a) == with_previous_parent(w_start, a));
            assert(removals_seen(w1, a));
            assert(removals_seen(w2, a));
            assert(parent_settled(w2, a));
            assert(same_identity(w3.slot(a), w2.slot(a)));
            assert(same_identity(w2.slot(a), w1.slot(a)));
            assert(same_identity(w1.slot(a), w0.slot(a)));
            assert(w3.slot(a).parent_changed == w2.slot(a).parent_changed);
            assert(w2.slot(a).parent == w1.slot(a).parent);
            assert(w1.slot(a).parent == w0.slot(a).parent);
            if w0.slot(a).previous_parent is Some {
                assert(w1.slot(a).previous_parent is Some);
                assert(w2.slot(a).previous_parent is Some);
            }
        }
        assert forall|a: int, b: int|
            #![trigger w3.slot(a), w3.slot(b)]
            live_index(w3, a) && live_index(w3, b) && w3.slot(a).transform is Some && w3.slot(a).parent
                == Some(handle(w3, b)) implies {
                &&& w3.slot(b).children is Some
                &&& w3.slot(b).children->0.contains(handle(w3, a))
                &&& w3.slot(b).children->0.no_duplicates()
            } by {
            assert(w3.slot(a).previous_parent == Some(w3.slot(a).parent));
            assert(in_children(w3, b, handle(w3, a)) <==> w3.slot(a).previous_parent == Some(Some(handle(w3, b))));
        }
        assert forall|q: int, b: int|
            #![trigger w3.slot(q), w3.slot(b)]
            live_index(w3, q) && live_index(w3, b) && w3.slot(q).parent is None implies !in_children(
                w3,
                b,
                handle(w3, q),
            ) by {
            assert(removals_seen(w3, q));
            assert(in_children(w3, b, handle(w3, q)) <==> w3.slot(q).previous_parent == Some(Some(handle(w3, b))));
        }
        assert forall|k: int| #![trigger w3.slot(k)]
            0 <= k < w_start.len() && keeps_parent_at(w_start, k) implies w3.slot(k).parent == w_start.slot(k).parent by {
            let p = w_start.slot(k).parent->0;
            let pi = p.index as int;
            assert(w0.slot(k) == with_previous_parent(w_start, k));
            assert(w0.slot(pi) == with_previous_parent(w_start, pi));
            assert(same_identity(w1.slot(k), w0.slot(k)) && same_identity(w2.slot(k), w1.slot(k)));
            assert(same_identity(w1.slot(pi), w0.slot(pi)) && same_identity(w2.slot(pi), w1.slot(pi)));
            assert(w2.slot(k).parent == w_start.slot(k).parent);
            assert(w1.slot(k).previous_parent is Some);
            assert(w2.slot(k).previous_parent is Some);
            assert(parent_settled(w2, k));
            assert(w2.slot(k).previous_parent == Some(w2.slot(k).parent));
            if w3.slot(k).parent != w2.slot(k).parent {
                assert(detached_from_deleted(w2, k));
                let j = choose|j: int| #![trigger w2.slot(j)] live_index(w2, j) && w2.slot(j).transform is None
                    && w2.slot(k).previous_parent == Some(Some(handle(w2, j)));
                assert(handle(w2, j) == p);
                assert(j == pi);
            }
        }
        assert forall|k: int| 0 <= k < w_start.len() implies synced_slot(w_start, w3, k) by {
            assert(w0.slot(k) == with_previous_parent(w_start, k));
            assert(w1.slot(k).previous_parent == prev_after_removals(w0, k));
            assert(w2.slot(k).previous_parent == prev_after_moves(w1, k));
            assert(same_identity(w1.slot(k), w0.slot(k)) && same_identity(w2.slot(k), w1.slot(k)) && same_identity(w3.slot(k), w2.slot(k)));
            if !live_index(w_start, k) {
                assert(w1.slot(k) == w0.slot(k));
                assert(w2.slot(k) == w1.slot(k));
                assert(!listed_by_deleted(w2, created@, k, n as int));
                assert(w3.slot(k).parent == w2.slot(k).parent);
                assert(w3.slot(k).previous_parent == w2.slot(k).previous_parent);
                assert(w3.slot(k).children == w2.slot(k).children);
                assert(w3.slot(k).parent_changed == w2.slot(k).parent_changed);
                assert(same_identity(w3.slot(k), w2.slot(k)));
                assert(w3.slot(k) == w2.slot(k));
            } else {
                assert(processed(w1, k) == processed(w_start, k));
                assert(w2.slot(k).previous_parent == prev_synced(w_start, k));
                // detachment
                assert(listed_by_deleted(w2, created@, k, n as int) == detached(w_start, k)) by {
                    match prev_synced(w_start, k) {
                        Some(Some(q)) => {
                            let qi = q.index as int;
                            if 0 <= qi < n {
                                assert(w0.slot(qi) == with_previous_parent(w_start, qi));
                                assert(same_identity(w1.slot(qi), w0.slot(qi)) && same_identity(w2.slot(qi), w1.slot(qi)));
                                if live_index(w_start, qi) {
                                    assert(lists_after_removals(w0, w1, n as int));
                                    assert(w1.slot(qi) == w1.slot(qi));
                                    if w_start.slot(qi).children is Some {
                                        assert(w1.slot(qi).children is Some);
                                        assert(w2.slot(qi).children is Some);
                                        if created@[qi] {
                                            assert(w1.slot(qi).children is None);
                                        }
                                    } else {
                                        assert(w1.slot(qi).children is None);
                                        if w2.slot(qi).children is Some {
                                            assert(created@[qi]);
                                        }
                                    }
                                }
                            }
                        },
                        _ => {},
                    }
                }
                assert(w3.slot(k).parent == (if listed_by_deleted(w2, created@, k, n as int) { None } else { w2.slot(k).parent }));
                // lists
                if deleted_parent(w_start, k) {
                    assert(w1.slot(k).children is Some);
                    assert(w2.slot(k).children is Some);
                    if created@[k] {
                        assert(w1.slot(k).children is None);
                    }
                } else {
                    assert(w3.slot(k).children == w2.slot(k).children);
                    let o = list_or_empty(w_start.slot(k).children);
                    let l1 = list_or_empty(w1.slot(k).children);
                    assert(lists_after_removals(w0, w1, n as int));
                    assert(lists_after_moves(w1, w2, n as int));
                    assert(handle(w1, k) == handle(w_start, k));
                    assert(forall|x: Entity| #[trigger] l1.contains(x) <==> (o.contains(x)
                        && !(live(w_start, x) && departs_unparented(w_start, x.index as int, k)))) by {
                        assert forall|x: Entity| #[trigger] l1.contains(x) <==> (o.contains(x)
                            && !(live(w_start, x) && departs_unparented(w_start, x.index as int, k))) by {
                            if live(w_start, x) {
                                let xi = x.index as int;
                                assert(w0.slot(xi) == with_previous_parent(w_start, xi));
                                assert(departs_unparented(w0, xi, k) == departs_unparented(w_start, xi, k));
                            }
                        }
                    }
                    if w2.slot(k).children is Some {
                        let l2 = w2.slot(k).children->0;
                        assert forall|x: Entity| #[trigger] l2.contains(x) <==> ((o.contains(x)
                            && !(live(w_start, x) && departs(w_start, x.index as int, k))) || (live(w_start, x) && joins(w_start, x.index as int, k))) by {
                            if live(w_start, x) {
                                let xi = x.index as int;
                                assert(w0.slot(xi) == with_previous_parent(w_start, xi));
                                assert(same_identity(w1.slot(xi), w0.slot(xi)));
                                assert(w1.slot(xi).previous_parent == prev_after_removals(w0, xi));
                                assert(departs_moved(w1, xi, k) == departs_moved(w_start, xi, k));
                                assert(joins(w1, xi, k) == joins(w_start, xi, k));
                                if joins(w_start, xi, k) {
                                    assert(in_children(w_start, k, x) <==> w_start.slot(xi).previous_parent == Some(Some(handle(w_start, k))));
                                    assert(handle(w_start, xi) == x);
                                }
                            }
                        }
                        assert forall|x: Entity| #[trigger] l2.contains(x) && !l1.contains(x) implies !o.contains(x) by {
                            let xi = x.index as int;
                            assert(live(w_start, x) && joins(w1, xi, k));
                            assert(w0.slot(xi) == with_previous_parent(w_start, xi));
                            assert(w1.slot(xi).previous_parent == prev_after_removals(w0, xi));
                            assert(handle(w_start, xi) == x);
                            assert(in_children(w_start, k, x) <==> w_start.slot(xi).previous_parent == Some(Some(handle(w_start, k))));
                        }
                        lemma_compose_ordered(o, l1, l2);
                    }
                }
            }
        }
        assert forall|m: int| live_index(w_start, m) && w_start.slot(m).transform is None
            && w_start.slot(m).children is Some implies #[trigger] w3.slot(m).children is None by {
            assert(w0.slot(m) == with_previous_parent(w_start, m));
            assert(w1.slot(m).children is Some);
            assert(same_identity(w2.slot(m), w1.slot(m)));
            assert(same_identity(w1.slot(m), w0.slot(m)));
            assert(live_index(w2, m));
        }
    }
}

} // verus!
