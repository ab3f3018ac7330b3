use vstd::prelude::*;

use crate::hierarchy::{handle, live, live_index, rect_written, wf, SlotModel, UiWorld};
use crate::entity::Entity;
use crate::layout::{ScaleMode, Stretch};
use crate::transform::{
    aspect_fit, place, place_in, placement, rect_within, resolved_size, root_rect, stretched_size,
    within, Layout, Rect,
};
use vstd::arithmetic::div_mod::{lemma_fundamental_div_mod, lemma_mod_bound};

verus! {

/// The rectangle of slot `i` found by following at most `fuel` parent links:
/// a root is placed in the viewport `screen`, a child in its parent's
/// rectangle. A dead parent, a parent without a transform, or a node out of
/// range leaves the node unresolved.
pub open spec fn resolve_fuel(w: UiWorld, i: int, screen: Rect, fuel: nat) -> Option<Rect>
    decreases fuel,
{
    if fuel == 0 || !(live_index(w, i) && w.slot(i).transform is Some) {
        None
    } else {
        let l = w.slot(i).transform->0.layout();
        match w.slot(i).parent {
            None => place(l, screen),
            Some(p) => if live(w, p) {
                match resolve_fuel(w, p.index as int, screen, (fuel - 1) as nat) {
                    Some(pr) => place(l, pr),
                    None => None,
                }
            } else {
                None
            },
        }
    }
}

/// The resolved rectangle of slot `i`: `None` for a node whose ancestry
/// never reaches a root (a cycle, a dead parent, a parent without a
/// transform) or leaves the coordinate range.
pub open spec fn resolved(w: UiWorld, i: int, screen: Rect) -> Option<Rect> {
    if exists|f: nat| #[trigger] resolve_fuel(w, i, screen, f) is Some {
        resolve_fuel(w, i, screen, choose|f: nat| #[trigger] resolve_fuel(w, i, screen, f) is Some)
    } else {
        None
    }
}

/// Two stores with the same entities, parents and layouts; only resolved
/// rectangles may differ.
pub open spec fn same_structure(a: UiWorld, b: UiWorld) -> bool {
    &&& a.len() == b.len()
    &&& forall|k: int|
        #![trigger b.slot(k)]
        0 <= k < a.len() ==> {
            &&& a.slot(k).alive == b.slot(k).alive
            &&& a.slot(k).generation == b.slot(k).generation
            &&& a.slot(k).parent == b.slot(k).parent
            &&& a.slot(k).transform is Some == b.slot(k).transform is Some
            &&& (a.slot(k).transform is Some ==> a.slot(k).transform->0.layout()
                == b.slot(k).transform->0.layout())
        }
}

/// `b` is `a` with the rectangle `r` written, or `a` itself where there is
/// none.
pub open spec fn slot_after(a: SlotModel, b: SlotModel, r: Option<Rect>) -> bool {
    match r {
        Some(rr) => rect_written(a, b, rr),
        None => b == a,
    }
}

/// `w2` is `w` after one resolution pass in the viewport `screen`: every node
/// that resolves carries its rectangle, every other slot is unchanged.
pub open spec fn resolution_of(w: UiWorld, w2: UiWorld, screen: Rect) -> bool {
    &&& w2.len() == w.len()
    &&& forall|k: int|
        #![trigger w2.slot(k)]
        0 <= k < w.len() ==> slot_after(w.slot(k), w2.slot(k), resolved(w, k, screen))
}

proof fn lemma_place_within(l: crate::transform::Layout, p: Rect)
    ensures
        place(l, p) is Some ==> rect_within(place(l, p)->0),
{
    reveal(place);
}

proof fn lemma_fuel_within(w: UiWorld, i: int, screen: Rect, f: nat)
    requires
        rect_within(screen),
        resolve_fuel(w, i, screen, f) is Some,
    ensures
        rect_within(resolve_fuel(w, i, screen, f)->0),
    decreases f,
{
    let l = w.slot(i).transform->0.layout();
    match w.slot(i).parent {
        None => lemma_place_within(l, screen),
        Some(p) => {
            let pr = resolve_fuel(w, p.index as int, screen, (f - 1) as nat)->0;
            lemma_place_within(l, pr);
        },
    }
}

proof fn lemma_fuel_mono(w: UiWorld, i: int, screen: Rect, f: nat, g: nat)
    requires
        f <= g,
        resolve_fuel(w, i, screen, f) is Some,
    ensures
        resolve_fuel(w, i, screen, g) == resolve_fuel(w, i, screen, f),
    decreases f,
{
    if f > 0 {
        match w.slot(i).parent {
            None => {},
            Some(p) => {
                if live(w, p) {
                    lemma_fuel_mono(w, p.index as int, screen, (f - 1) as nat, (g - 1) as nat);
                }
            },
        }
    }
}

proof fn lemma_resolved_within(w: UiWorld, i: int, screen: Rect)
    requires
        rect_within(screen),
    ensures
        resolved(w, i, screen) is Some ==> rect_within(resolved(w, i, screen)->0),
{
    if exists|f: nat| #[trigger] resolve_fuel(w, i, screen, f) is Some {
        let f = choose|f: nat| #[trigger] resolve_fuel(w, i, screen, f) is Some;
        lemma_fuel_within(w, i, screen, f);
    }
}

/// A node resolves by placing it in its parent's resolved rectangle, or in
/// the viewport where it has no parent.
proof fn lemma_resolved_unfold(w: UiWorld, i: int, screen: Rect)
    ensures
        resolved(w, i, screen) == (if !(live_index(w, i) && w.slot(i).transform is Some) {
            None
        } else {
            let l = w.slot(i).transform->0.layout();
            match w.slot(i).parent {
                None => place(l, screen),
                Some(p) => if live(w, p) {
                    match resolved(w, p.index as int, screen) {
                        Some(pr) => place(l, pr),
                        None => None,
                    }
                } else {
                    None
                },
            }
        }),
{
    if !(live_index(w, i) && w.slot(i).transform is Some) {
        assert(forall|f: nat| !(#[trigger] resolve_fuel(w, i, screen, f) is Some));
        return;
    }
    let l = w.slot(i).transform->0.layout();
    match w.slot(i).parent {
        None => {
            assert(resolve_fuel(w, i, screen, 1) == place(l, screen));
            assert(forall|f: nat| f > 0 ==> #[trigger] resolve_fuel(w, i, screen, f) == place(l, screen));
            if place(l, screen) is None {
                assert(forall|f: nat| !(#[trigger] resolve_fuel(w, i, screen, f) is Some));
            }
        },
        Some(p) => {
            if !live(w, p) {
                assert(forall|f: nat| !(#[trigger] resolve_fuel(w, i, screen, f) is Some));
                return;
            }
            let pi = p.index as int;
            if exists|f: nat| #[trigger] resolve_fuel(w, pi, screen, f) is Some {
                let fp = choose|f: nat| #[trigger] resolve_fuel(w, pi, screen, f) is Some;
                let pr = resolve_fuel(w, pi, screen, fp)->0;
                assert(resolved(w, pi, screen) == Some(pr));
                assert forall|f: nat| #[trigger] resolve_fuel(w, i, screen, f) is Some implies resolve_fuel(
                    w,
                    i,
                    screen,
                    f,
                ) == place(l, pr) by {
                    let g = (f - 1) as nat;
                    assert(resolve_fuel(w, pi, screen, g) is Some);
                    if g <= fp {
                        lemma_fuel_mono(w, pi, screen, g, fp);
                    } else {
                        lemma_fuel_mono(w, pi, screen, fp, g);
                    }
                }
                assert(resolve_fuel(w, i, screen, fp + 1) == place(l, pr));
                if place(l, pr) is None {
                    assert(forall|f: nat| !(#[trigger] resolve_fuel(w, i, screen, f) is Some));
                }
            } else {
                assert forall|f: nat| !(#[trigger] resolve_fuel(w, i, screen, f) is Some) by {
                    if f > 0 {
                        assert(!(resolve_fuel(w, pi, screen, (f - 1) as nat) is Some));
                    }
                }
            }
        },
    }
}

proof fn lemma_fuel_frame(a: UiWorld, b: UiWorld, i: int, screen: Rect, f: nat)
    requires
        same_structure(a, b),
    ensures
        resolve_fuel(a, i, screen, f) == resolve_fuel(b, i, screen, f),
    decreases f,
{
    if f > 0 && 0 <= i < a.len() {
        assert(a.slot(i).alive == b.slot(i).alive);
        match a.slot(i).parent {
            None => {},
            Some(p) => {
                if 0 <= p.index < a.len() {
                    assert(a.slot(p.index as int).generation == b.slot(p.index as int).generation);
                    assert(a.slot(p.index as int).alive == b.slot(p.index as int).alive);
                }
                lemma_fuel_frame(a, b, p.index as int, screen, (f - 1) as nat);
            },
        }
    }
}

/// Resolution reads only the structure of the store.
pub proof fn lemma_resolved_frame(a: UiWorld, b: UiWorld, i: int, screen: Rect)
    requires
        same_structure(a, b),
    ensures
        resolved(a, i, screen) == resolved(b, i, screen),
{
    assert forall|f: nat| #[trigger] resolve_fuel(a, i, screen, f) == resolve_fuel(b, i, screen, f) by {
        lemma_fuel_frame(a, b, i, screen, f);
    }
    if exists|f: nat| #[trigger] resolve_fuel(a, i, screen, f) is Some {
        let fa = choose|f: nat| #[trigger] resolve_fuel(a, i, screen, f) is Some;
        assert(resolve_fuel(b, i, screen, fa) is Some);
        let fb = choose|f: nat| #[trigger] resolve_fuel(b, i, screen, f) is Some;
        if fa <= fb {
            lemma_fuel_mono(a, i, screen, fa, fb);
        } else {
            lemma_fuel_mono(a, i, screen, fb, fa);
        }
    } else {
        assert(forall|f: nat| !(#[trigger] resolve_fuel(b, i, screen, f) is Some));
    }
}

/// The nodes of a parent cycle never resolve.
proof fn lemma_cycle_unresolved(w: UiWorld, screen: Rect, c: Seq<int>, f: nat)
    requires
        w.len() <= u32::MAX,
        c.len() > 0,
        forall|k: int| 0 <= k < c.len() ==> 0 <= #[trigger] c[k] < w.len(),
        forall|k: int|
            0 <= k < c.len() - 1 ==> w.slot(#[trigger] c[k]).parent == Some(handle(w, c[k + 1]))
                && live_index(w, c[k + 1]),
        w.slot(c[c.len() - 1]).parent == Some(handle(w, c[0])),
        live_index(w, c[0]),
    ensures
        forall|k: int| 0 <= k < c.len() ==> #[trigger] resolve_fuel(w, c[k], screen, f) is None,
    decreases f,
{
    if f > 0 {
        lemma_cycle_unresolved(w, screen, c, (f - 1) as nat);
        assert forall|k: int| 0 <= k < c.len() implies #[trigger] resolve_fuel(w, c[k], screen, f) is None by {
            let nxt = if k < c.len() - 1 {
                c[k + 1]
            } else {
                c[0]
            };
            assert(w.slot(c[k]).parent == Some(handle(w, nxt)));
            assert(live_index(w, nxt));
            assert(0 <= nxt < w.len());
            assert(handle(w, nxt).index as int == nxt);
            if k < c.len() - 1 {
                assert(resolve_fuel(w, c[k + 1], screen, (f - 1) as nat) is None);
            } else {
                assert(resolve_fuel(w, c[0], screen, (f - 1) as nat) is None);
            }
        }
    }
}

spec fn unvisited(s: Seq<u8>) -> nat
    decreases s.len(),
{
    if s.len() == 0 {
        0
    } else {
        unvisited(s.drop_last()) + if s.last() == 0 {
            1nat
        } else {
            0nat
        }
    }
}

proof fn lemma_unvisited_update(s: Seq<u8>, i: int, v: u8)
    requires
        0 <= i < s.len(),
        s[i] == 0,
        v != 0,
    ensures
        unvisited(s.update(i, v)) + 1 == unvisited(s),
    decreases s.len(),
{
    if i == s.len() - 1 {
        assert(s.update(i, v).drop_last() =~= s.drop_last());
    } else {
        lemma_unvisited_update(s.drop_last(), i, v);
        assert(s.update(i, v).drop_last() =~= s.drop_last().update(i, v));
    }
}

/// The memo of a pass over `w0`: finished slots (mark 2) hold their result
/// and have it written into `w`; every other slot is as in `w0`.
spec fn memo_ok(w0: UiWorld, w: UiWorld, marks: Seq<u8>, results: Seq<Option<Rect>>, screen: Rect) -> bool {
    &&& w.len() == w0.len()
    &&& marks.len() == w0.len()
    &&& results.len() == w0.len()
    &&& forall|k: int| 0 <= k < w0.len() ==> #[trigger] marks[k] <= 2
    &&& forall|k: int| 0 <= k < w0.len() && #[trigger] marks[k] == 2 ==> results[k] == resolved(w0, k, screen)
    &&& forall|k: int|
        #![trigger w.slot(k)]
        0 <= k < w0.len() ==> slot_after(w0.slot(k), w.slot(k), if marks[k] == 2 {
            results[k]
        } else {
            None
        })
}

/// The slots in progress (mark 1) are exactly those of `stack`, each the
/// child of the next.
spec fn stack_ok(w0: UiWorld, stack: Seq<int>, marks: Seq<u8>) -> bool {
    &&& forall|k: int| 0 <= k < stack.len() ==> 0 <= #[trigger] stack[k] < w0.len()
    &&& forall|k: int| 0 <= k < w0.len() ==> (#[trigger] marks[k] == 1 <==> stack.contains(k))
    &&& forall|k: int|
        0 <= k < stack.len() - 1 ==> w0.slot(#[trigger] stack[k]).parent == Some(handle(w0, stack[k + 1]))
            && live_index(w0, stack[k + 1])
}

proof fn lemma_memo_structure(w0: UiWorld, w: UiWorld, marks: Seq<u8>, results: Seq<Option<Rect>>, screen: Rect)
    requires
        memo_ok(w0, w, marks, results, screen),
    ensures
        same_structure(w0, w),
{
    assert forall|k: int| #![trigger w.slot(k)] 0 <= k < w0.len() implies {
        &&& w0.slot(k).alive == w.slot(k).alive
        &&& w0.slot(k).generation == w.slot(k).generation
        &&& w0.slot(k).parent == w.slot(k).parent
        &&& w0.slot(k).transform is Some == w.slot(k).transform is Some
        &&& (w0.slot(k).transform is Some ==> w0.slot(k).transform->0.layout()
            == w.slot(k).transform->0.layout())
    } by {
        assert(slot_after(w0.slot(k), w.slot(k), if marks[k] == 2 { results[k] } else { None }));
    }
}

fn solve_transform(
    world: &mut UiWorld,
    i: usize,
    screen: &Rect,
    marks: &mut Vec<u8>,
    results: &mut Vec<Option<Rect>>,
    Ghost(w0): Ghost<UiWorld>,
    Ghost(stack): Ghost<Seq<int>>,
) -> (r: Option<Rect>)
    requires
        wf(*old(world)),
        i < w0.len(),
        rect_within(*screen),
        memo_ok(w0, *old(world), old(marks)@, old(results)@, *screen),
        stack_ok(w0, stack, old(marks)@),
        stack.len() > 0 ==> w0.slot(stack[stack.len() - 1]).parent == Some(handle(w0, i as int))
            && live_index(w0, i as int),
    ensures
        wf(*final(world)),
        r == resolved(w0, i as int, *screen),
        memo_ok(w0, *final(world), final(marks)@, final(results)@, *screen),
        stack_ok(w0, stack, final(marks)@),
        final(marks)@[i as int] != 0,
        forall|k: int| 0 <= k < w0.len() && old(marks)@[k] == 2 ==> #[trigger] final(marks)@[k] == 2,
        forall|k: int| 0 <= k < w0.len() && old(marks)@[k] == 1 ==> #[trigger] final(marks)@[k] == 1,
        old(marks)@[i as int] != 1 ==> final(marks)@[i as int] == 2,
        old(marks)@[i as int] == 0 && live_index(w0, i as int) && w0.slot(i as int).transform is Some
            && w0.slot(i as int).parent is Some && live(w0, w0.slot(i as int).parent->0)
            && old(marks)@[w0.slot(i as int).parent->0.index as int] != 1
            ==> final(marks)@[w0.slot(i as int).parent->0.index as int] == 2,
    decreases unvisited(old(marks)@),
{
    if marks[i] == 2 {
        return results[i];
    }
    if marks[i] == 1 {
        proof {
            let m = choose|m: int| 0 <= m < stack.len() && stack[m] == i as int;
            let c = stack.subrange(m, stack.len() as int);
            lemma_cycle_unresolved(w0, *screen, c, 0);
            assert forall|f: nat| !(#[trigger] resolve_fuel(w0, i as int, *screen, f) is Some) by {
                assert(0 <= m < stack.len());
                lemma_cycle_unresolved(w0, *screen, c, f);
                assert(c[0] == i as int);
            }
        }
        return None;
    }
    proof {
        lemma_unvisited_update(marks@, i as int, 1);
        lemma_memo_structure(w0, *world, marks@, results@, *screen);
        lemma_resolved_unfold(w0, i as int, *screen);
    }
    marks.set(i, 1);
    let ghost inner = stack.push(i as int);
    proof {
        assert(stack_ok(w0, inner, marks@)) by {
            assert forall|k: int| 0 <= k < w0.len() implies (#[trigger] marks@[k] == 1 <==> inner.contains(k)) by {
                if k == i as int {
                    assert(inner[inner.len() - 1] == k);
                } else if stack.contains(k) {
                    let m = choose|m: int| 0 <= m < stack.len() && stack[m] == k;
                    assert(inner[m] == k);
                } else if inner.contains(k) {
                    let m = choose|m: int| 0 <= m < inner.len() && inner[m] == k;
                    assert(stack[m] == k);
                }
            }
        }
        assert(memo_ok(w0, *world, marks@, results@, *screen)) by {
            assert forall|k: int| #![trigger world.slot(k)] 0 <= k < w0.len() implies slot_after(w0.slot(k), world.slot(k), if marks@[k] == 2 {
                results@[k]
            } else {
                None
            }) by {
                assert(slot_after(w0.slot(k), world.slot(k), if old(marks)@[k] == 2 {
                    results@[k]
                } else {
                    None
                }));
            }
        }
    }
    let r = match world.layout_at(i) {
        None => None,
        Some(l) => match world.parent_at(i) {
            None => place_in(&l, screen),
            Some(p) => {
                if world.is_alive(p) {
                    let pi = p.index as usize;
                    let pr = solve_transform(world, pi, screen, marks, results, Ghost(w0), Ghost(inner));
                    proof {
                        lemma_resolved_within(w0, pi as int, *screen);
                    }
                    match pr {
                        Some(pr) => place_in(&l, &pr),
                        None => None,
                    }
                } else {
                    None
                }
            },
        },
    };
    let ghost mid_world = *world;
    let ghost mid_marks = marks@;
    marks.set(i, 2);
    results.set(i, r);
    proof {
        assert(!stack.contains(i as int));
    }
    match r {
        Some(rr) => {
            world.write_rect(i, rr);
        },
        None => {},
    }
    proof {
        assert forall|k: int| 0 <= k < w0.len() implies (#[trigger] marks@[k] == 1 <==> stack.contains(k)) by {
            if k != i as int {
                assert(mid_marks[k] == 1 <==> inner.contains(k));
                if inner.contains(k) && !stack.contains(k) {
                    let m = choose|m: int| 0 <= m < inner.len() && inner[m] == k;
                    if m < stack.len() {
                        assert(stack[m] == k);
                    }
                }
                if stack.contains(k) {
                    let m = choose|m: int| 0 <= m < stack.len() && stack[m] == k;
                    assert(inner[m] == k);
                }
            }
        }
        assert forall|k: int| #![trigger world.slot(k)] 0 <= k < w0.len() implies slot_after(w0.slot(k), world.slot(k), if marks@[k] == 2 {
            results@[k]
        } else {
            None
        }) by {
            if k != i as int {
                assert(slot_after(w0.slot(k), mid_world.slot(k), if mid_marks[k] == 2 {
                    results@[k]
                } else {
                    None
                }));
            }
        }
    }
    r
}

/// The layout nodes of `w` that do not resolve in the viewport `screen`: on
/// a parent cycle, below one, under a dead parent or a parent without a
/// transform, or out of the coordinate range.
pub open spec fn unresolved(w: UiWorld, k: int, screen: Rect) -> bool {
    live_index(w, k) && w.slot(k).transform is Some && resolved(w, k, screen) is None
}

/// Resolves every layout node, enumerating the slots in `order` (which must
/// name each layout node at least once, in any order); parents are
/// resolved on demand before their children, and each node once. Returns
/// the slots of the layout nodes that stay unresolved, in ascending order.
pub fn solve_transforms(world: &mut UiWorld, order: &Vec<usize>, screen_width: i64, screen_height: i64) -> (unresolved_slots: Vec<usize>)
    requires
        wf(*old(world)),
        within(screen_width as int),
        within(screen_height as int),
        forall|m: int| 0 <= m < order@.len() ==> #[trigger] order@[m] < old(world).len(),
        forall|k: usize| #![trigger order@.contains(k)]
            live_index(*old(world), k as int) && old(world).slot(k as int).transform is Some ==> order@.contains(k),
    ensures
        wf(*final(world)),
        resolution_of(*old(world), *final(world), root_rect(screen_width, screen_height)),
        forall|k: usize| #[trigger] unresolved_slots@.contains(k) <==> (k < old(world).len()
            && unresolved(*old(world), k as int, root_rect(screen_width, screen_height))),
        forall|a: int, b: int| 0 <= a < b < unresolved_slots@.len() ==> #[trigger] unresolved_slots@[a] < #[trigger] unresolved_slots@[b],
{
    let screen = Rect { x: 0, y: 0, z: 0, width: screen_width, height: screen_height };
    let ghost w0 = *world;
    let n = world.slot_count();
    let mut marks: Vec<u8> = Vec::new();
    let mut results: Vec<Option<Rect>> = Vec::new();
    let mut k: usize = 0;
    while k < n
        invariant
            0 <= k <= n,
            marks@.len() == k,
            results@.len() == k,
            forall|m: int| 0 <= m < k ==> #[trigger] marks@[m] == 0,
        decreases n - k,
    {
        marks.push(0);
        results.push(None);
        k += 1;
    }
    assert(memo_ok(w0, *world, marks@, results@, screen));
    let mut m: usize = 0;
    while m < order.len()
        invariant
            wf(*world),
            n == w0.len(),
            rect_within(screen),
            screen == root_rect(screen_width, screen_height),
            forall|q: int| 0 <= q < order@.len() ==> #[trigger] order@[q] < n,
            memo_ok(w0, *world, marks@, results@, screen),
            stack_ok(w0, Seq::empty(), marks@),
            0 <= m <= order@.len(),
            forall|q: int| 0 <= q < m ==> #[trigger] marks@[order@[q] as int] == 2,
        decreases order@.len() - m,
    {
        let i = order[m];
        solve_transform(world, i, &screen, &mut marks, &mut results, Ghost(w0), Ghost(Seq::empty()));
        proof {
            assert(!Seq::<int>::empty().contains(i as int));
        }
        m += 1;
    }
    proof {
        assert forall|k: int| #![trigger world.slot(k)] 0 <= k < w0.len() implies slot_after(w0.slot(k), world.slot(k), resolved(w0, k, screen)) by {
            lemma_resolved_unfold(w0, k, screen);
            assert(!Seq::<int>::empty().contains(k));
            if live_index(w0, k) && w0.slot(k).transform is Some {
                assert(order@.contains(k as usize));
                let q = choose|q: int| 0 <= q < order@.len() && order@[q] == k as usize;
                assert(marks@[order@[q] as int] == 2);
            } else {
                assert(marks@[k] != 1);
            }
        }
        lemma_memo_structure(w0, *world, marks@, results@, screen);
        assert forall|q: int| 0 <= q < n && live_index(w0, q) && w0.slot(q).transform is Some implies #[trigger] results@[q] == resolved(w0, q, screen) by {
            assert(order@.contains(q as usize));
            let r = choose|r: int| 0 <= r < order@.len() && order@[r] == q as usize;
            assert(marks@[order@[r] as int] == 2);
        }
    }
    let mut out: Vec<usize> = Vec::new();
    let mut k: usize = 0;
    while k < n
        invariant
            0 <= k <= n,
            n == w0.len(),
            same_structure(w0, *world),
            results@.len() == n,
            forall|q: int| 0 <= q < n && live_index(w0, q) && w0.slot(q).transform is Some ==> #[trigger] results@[q] == resolved(w0, q, screen),
            forall|x: usize| #[trigger] out@.contains(x) <==> (x < k && unresolved(w0, x as int, screen)),
            forall|a: int, b: int| 0 <= a < b < out@.len() ==> #[trigger] out@[a] < #[trigger] out@[b],
            forall|a: int| 0 <= a < out@.len() ==> #[trigger] out@[a] < k,
        decreases n - k,
    {
        let is_node = world.layout_at(k).is_some();
        let ghost before = out@;
        if is_node && results[k].is_none() {
            out.push(k);
            assert forall|x: usize| #[trigger] out@.contains(x) <==> (x < k + 1 && unresolved(w0, x as int, screen)) by {
                if before.contains(x) {
                    let r = choose|r: int| 0 <= r < before.len() && before[r] == x;
                    assert(out@[r] == x);
                }
                if out@.contains(x) && x != k {
                    let r = choose|r: int| 0 <= r < out@.len() && out@[r] == x;
                    assert(before[r] == x);
                }
                if x == k {
                    assert(out@[before.len() as int] == x);
                }
            }
        } else {
            assert forall|x: usize| #[trigger] out@.contains(x) <==> (x < k + 1 && unresolved(w0, x as int, screen)) by {
                if x == k && out@.contains(x) {
                    let r = choose|r: int| 0 <= r < out@.len() && out@[r] == x;
                }
            }
        }
        k += 1;
    }
    out
}

/// Two slots that differ at most in nothing: same components, same
/// layout, same resolved rectangle.
pub open spec fn same_geometry(a: SlotModel, b: SlotModel) -> bool {
    &&& a.transform is Some == b.transform is Some
    &&& b == SlotModel { transform: b.transform, ..a }
    &&& a.transform is Some ==> {
        &&& a.transform->0.layout() == b.transform->0.layout()
        &&& a.transform->0.rect() == b.transform->0.rect()
        &&& a.transform->0.id == b.transform->0.id
        &&& a.transform->0.opaque == b.transform->0.opaque
        &&& a.transform->0.transparent_target == b.transform->0.transparent_target
    }
}

pub(crate) proof fn lemma_resolution_structure(w: UiWorld, w2: UiWorld, screen: Rect)
    requires
        resolution_of(w, w2, screen),
    ensures
        same_structure(w, w2),
{
    assert forall|k: int| #![trigger w2.slot(k)] 0 <= k < w.len() implies {
        &&& w.slot(k).alive == w2.slot(k).alive
        &&& w.slot(k).generation == w2.slot(k).generation
        &&& w.slot(k).parent == w2.slot(k).parent
        &&& w.slot(k).transform is Some == w2.slot(k).transform is Some
        &&& (w.slot(k).transform is Some ==> w.slot(k).transform->0.layout()
            == w2.slot(k).transform->0.layout())
    } by {
        assert(slot_after(w.slot(k), w2.slot(k), resolved(w, k, screen)));
    }
}

/// Running the resolver a second time, with no edit in between, leaves
/// every derived field as the first run wrote it.
pub proof fn lemma_resolution_idempotent(w0: UiWorld, w1: UiWorld, w2: UiWorld, screen: Rect)
    requires
        resolution_of(w0, w1, screen),
        resolution_of(w1, w2, screen),
    ensures
        w2.len() == w1.len(),
        forall|k: int| 0 <= k < w1.len() ==> same_geometry(w1.slot(k), #[trigger] w2.slot(k)),
{
    lemma_resolution_structure(w0, w1, screen);
    assert forall|k: int| 0 <= k < w1.len() implies same_geometry(w1.slot(k), #[trigger] w2.slot(k)) by {
        lemma_resolved_frame(w0, w1, k, screen);
        assert(slot_after(w0.slot(k), w1.slot(k), resolved(w0, k, screen)));
        assert(slot_after(w1.slot(k), w2.slot(k), resolved(w1, k, screen)));
    }
}

/// Two resolution passes over the same store, whatever order each one
/// enumerated the nodes in, produce the same geometry.
pub proof fn lemma_resolution_order_independent(w: UiWorld, a: UiWorld, b: UiWorld, screen: Rect)
    requires
        resolution_of(w, a, screen),
        resolution_of(w, b, screen),
    ensures
        a.len() == b.len(),
        forall|k: int| 0 <= k < a.len() ==> same_geometry(a.slot(k), #[trigger] b.slot(k)),
{
    assert forall|k: int| 0 <= k < a.len() implies same_geometry(a.slot(k), #[trigger] b.slot(k)) by {
        assert(slot_after(w.slot(k), a.slot(k), resolved(w, k, screen)));
        assert(slot_after(w.slot(k), b.slot(k), resolved(w, k, screen)));
    }
}

/// With aspect-locked stretching in layout units, the resolved size keeps
/// the node's width:height ratio: one axis takes the available size and the
/// other is that ratio rounded down.
pub proof fn lemma_stretch_keeps_aspect(l: Layout, p: Rect)
    requires
        l.stretch matches Stretch::XY { keep_aspect_ratio: true, .. },
        l.scale_mode == ScaleMode::Pixel,
        l.width > 0,
        l.height > 0,
        place(l, p) is Some,
    ensures
        ({
            let r = place(l, p)->0;
            ||| (r.height * l.width <= l.height * r.width && l.height * r.width < (r.height + 1)
                * l.width)
            ||| (r.width * l.height <= l.width * r.height && l.width * r.height < (r.width + 1)
                * l.height)
        }),
{
    reveal(place);
    let w = l.width as int;
    let h = l.height as int;
    let (mx, my) = match l.stretch {
        Stretch::XY { x_margin, y_margin, .. } => (x_margin as int, y_margin as int),
        _ => (0, 0),
    };
    let aw = p.width - 2 * mx;
    let ah = p.height - 2 * my;
    let sz = aspect_fit(w, h, aw, ah);
    assert(stretched_size(l.stretch, w, h, p.width as int, p.height as int) == sz);
    assert(resolved_size(l, p.width as int, p.height as int) == sz);
    let r = place(l, p)->0;
    assert(r.width == sz.0 && r.height == sz.1);
    if aw * h <= ah * w {
        lemma_fundamental_div_mod(h * aw, w);
        lemma_mod_bound(h * aw, w);
        assert(sz.1 == (h * aw) / w);
        assert(h * aw == w * sz.1 + (h * aw) % w);
        assert(sz.1 * w <= h * aw) by (nonlinear_arith)
            requires
                h * aw == w * sz.1 + (h * aw) % w,
                0 <= (h * aw) % w,
        ;
        assert(h * aw < (sz.1 + 1) * w) by (nonlinear_arith)
            requires
                h * aw == w * sz.1 + (h * aw) % w,
                (h * aw) % w < w,
        ;
        assert(h * r.width == h * aw);
    } else {
        lemma_fundamental_div_mod(w * ah, h);
        lemma_mod_bound(w * ah, h);
        assert(sz.0 == (w * ah) / h);
        assert(sz.0 * h <= w * ah) by (nonlinear_arith)
            requires
                w * ah == h * sz.0 + (w * ah) % h,
                0 <= (w * ah) % h,
        ;
        assert(w * ah < (sz.0 + 1) * h) by (nonlinear_arith)
            requires
                w * ah == h * sz.0 + (w * ah) % h,
                (w * ah) % h < h,
        ;
        assert(w * r.height == w * ah);
    }
}

/// Resolves every layout node of the store, enumerating slots in index
/// order. Returns the slots of the layout nodes that stay unresolved (see
/// `unresolved`), in ascending order.
pub fn build_ui_transform_system(world: &mut UiWorld, screen_width: i64, screen_height: i64) -> (unresolved_slots: Vec<usize>)
    requires
        wf(*old(world)),
        within(screen_width as int),
        within(screen_height as int),
    ensures
        wf(*final(world)),
        resolution_of(*old(world), *final(world), root_rect(screen_width, screen_height)),
        forall|k: usize| #[trigger] unresolved_slots@.contains(k) <==> (k < old(world).len()
            && unresolved(*old(world), k as int, root_rect(screen_width, screen_height))),
        forall|a: int, b: int| 0 <= a < b < unresolved_slots@.len() ==> #[trigger] unresolved_slots@[a] < #[trigger] unresolved_slots@[b],
{
    let n = world.slot_count();
    let mut order: Vec<usize> = Vec::new();
    let mut k: usize = 0;
    while k < n
        invariant
            0 <= k <= n,
            n == world.len(),
            order@.len() == k,
            forall|m: int| 0 <= m < k ==> #[trigger] order@[m] == m,
        decreases n - k,
    {
        order.push(k);
        k += 1;
    }
    assert forall|q: usize| q < world.len() implies #[trigger] order@.contains(q) by {
        assert(order@[q as int] == q);
    }
    solve_transforms(world, &order, screen_width, screen_height)
}

/// The resolved size of the parent of `entity`, or the viewport's size
/// where it has no parent with a transform.
pub open spec fn parent_size(w: UiWorld, entity: Entity, screen_width: i64, screen_height: i64) -> (i64, i64) {
    let p = w.slot(entity.index as int).parent;
    if live(w, entity) && p is Some && live(w, p->0) && w.slot(p->0.index as int).transform is Some {
        let t = w.slot(p->0.index as int).transform->0;
        (t.rect().width, t.rect().height)
    } else {
        (screen_width, screen_height)
    }
}

/// The resolved size of the parent of `entity`, or the viewport's size
/// where it has no parent with a transform.
pub fn get_parent_pixel_size(entity: Entity, world: &UiWorld, screen_width: i64, screen_height: i64) -> (r: (i64, i64))
    ensures
        r == parent_size(*world, entity, screen_width, screen_height),
{
    match world.parent(entity) {
        Some(p) => match world.transform(p) {
            Some(t) => (t.pixel_width(), t.pixel_height()),
            None => (screen_width, screen_height),
        },
        None => (screen_width, screen_height),
    }
}

} // verus!
