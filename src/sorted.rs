use vstd::prelude::*;

use crate::entity::Entity;
use crate::hierarchy::{handle, visible, wf, UiWorld};

verus! {

/// The draw order: visible layout nodes with their depth, farthest first.
#[derive(Clone, Debug)]
pub struct SortedWidgets {
    widgets: Vec<(Entity, i64)>,
}

/// `a` comes before `b`: a smaller depth, or the same depth and a smaller
/// slot index.
pub open spec fn draws_before(a: (Entity, i64), b: (Entity, i64)) -> bool {
    a.1 < b.1 || (a.1 == b.1 && a.0.index < b.0.index)
}

/// `ws` is the draw order of `w`: each visible layout node once, with its
/// resolved depth, sorted by depth and, among equal depths, by slot index.
pub open spec fn is_draw_order(w: UiWorld, ws: Seq<(Entity, i64)>) -> bool {
    &&& forall|a: int, b: int| 0 <= a < b < ws.len() ==> draws_before(#[trigger] ws[a], #[trigger] ws[b])
    &&& forall|k: int|
        #![trigger ws[k]]
        0 <= k < ws.len() ==> {
            &&& visible(w, ws[k].0.index as int)
            &&& ws[k].0 == handle(w, ws[k].0.index as int)
            &&& ws[k].1 == w.slot(ws[k].0.index as int).transform->0.rect().z
        }
    &&& forall|i: int| #![trigger w.slot(i)] visible(w, i) ==> exists|k: int| 0 <= k < ws.len() && #[trigger] ws[k].0.index == i
}

impl SortedWidgets {
    pub closed spec fn view(&self) -> Seq<(Entity, i64)> {
        self.widgets@
    }

    pub fn new() -> (r: SortedWidgets)
        ensures
            r@ == Seq::<(Entity, i64)>::empty(),
    {
        SortedWidgets { widgets: Vec::new() }
    }

    /// The entries, each an entity and its depth.
    pub fn widgets(&self) -> (r: &[(Entity, i64)])
        ensures
            r@ == self@,
    {
        self.widgets.as_slice()
    }
}

/// Rebuilds the draw order from the resolved depths of all visible layout
/// nodes; nodes of equal depth keep the order of their slots.
pub fn build_ui_sorting_system(world: &UiWorld, sorted: &mut SortedWidgets)
    requires
        wf(*world),
    ensures
        is_draw_order(*world, final(sorted)@),
{
    let n = world.slot_count();
    let mut ws: Vec<(Entity, i64)> = Vec::new();
    let mut i: usize = 0;
    while i < n
        invariant
            0 <= i <= n,
            n == world.len(),
            wf(*world),
            forall|a: int, b: int| 0 <= a < b < ws@.len() ==> draws_before(#[trigger] ws@[a], #[trigger] ws@[b]),
            forall|k: int|
                #![trigger ws@[k]]
                0 <= k < ws@.len() ==> {
                    &&& visible(*world, ws@[k].0.index as int)
                    &&& ws@[k].0.index < i
                    &&& ws@[k].0 == handle(*world, ws@[k].0.index as int)
                    &&& ws@[k].1 == world.slot(ws@[k].0.index as int).transform->0.rect().z
                },
            forall|j: int| #![trigger world.slot(j)] 0 <= j < i && visible(*world, j) ==> exists|k: int| 0 <= k < ws@.len() && #[trigger] ws@[k].0.index == j,
        decreases n - i,
    {
        match world.draw_entry(i) {
            Some(entry) => {
                let z = entry.1;
                let mut pos: usize = 0;
                while pos < ws.len() && ws[pos].1 <= z
                    invariant
                        0 <= pos <= ws@.len(),
                        forall|k: int| 0 <= k < pos ==> #[trigger] ws@[k].1 <= z,
                    decreases ws@.len() - pos,
                {
                    pos += 1;
                }
                let ghost before = ws@;
                proof {
                    assert forall|k: int| pos <= k < before.len() implies #[trigger] before[k].1 > z by {
                        if k > pos {
                            assert(draws_before(before[pos as int], before[k]));
                        }
                    }
                }
                ws.insert(pos, entry);
                proof {
                    assert(ws@ == before.insert(pos as int, entry));
                    assert forall|a: int, b: int| 0 <= a < b < ws@.len() implies draws_before(#[trigger] ws@[a], #[trigger] ws@[b]) by {
                        if a < pos && b < pos {
                            assert(draws_before(before[a], before[b]));
                        } else if a < pos && b == pos {
                            assert(before[a].0.index < i);
                        } else if a < pos {
                            assert(draws_before(before[a], before[b - 1]));
                        } else if a == pos {
                            assert(before[b - 1].1 > z);
                        } else {
                            assert(draws_before(before[a - 1], before[b - 1]));
                        }
                    }
                    assert forall|j: int| #![trigger world.slot(j)] 0 <= j < i + 1 && visible(*world, j) implies exists|k: int| 0 <= k < ws@.len() && #[trigger] ws@[k].0.index == j by {
                        if j == i {
                            assert(ws@[pos as int].0.index == j);
                        } else {
                            let k = choose|k: int| 0 <= k < before.len() && #[trigger] before[k].0.index == j;
                            if k < pos {
                                assert(ws@[k].0.index == j);
                            } else {
                                assert(ws@[k + 1].0.index == j);
                            }
                        }
                    }
                }
            },
            None => {
                proof {
                    assert forall|j: int| #![trigger world.slot(j)] 0 <= j < i + 1 && visible(*world, j) implies exists|k: int| 0 <= k < ws@.len() && #[trigger] ws@[k].0.index == j by {
                        if j == i {
                            assert(!visible(*world, j));
                        }
                    }
                }
            },
        }
        i += 1;
    }
    sorted.widgets = ws;
}

} // verus!
