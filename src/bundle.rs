use vstd::prelude::*;

use crate::event::{get_targeted, mouse_world_position, pointer_step, targets, PointerView, UiEvent, UiMouseSystem};
use crate::hierarchy::{children_consistent, keeps_layout_parents, keeps_parent_at, wf, UiWorld};
use crate::misc::TransformBundle;
use crate::resolve::{
    build_ui_transform_system, lemma_resolution_structure, lemma_resolved_frame, resolution_of, resolved,
    slot_after,
};
use crate::sorted::{is_draw_order, build_ui_sorting_system, SortedWidgets};
use crate::transform::{root_rect, within, Rect};

verus! {

/// Resolution writes only rectangles, so it keeps `Children` consistent.
proof fn lemma_resolution_keeps_children(w: UiWorld, w2: UiWorld, screen: Rect)
    requires
        children_consistent(w),
        resolution_of(w, w2, screen),
    ensures
        children_consistent(w2),
{
    assert forall|k: int| 0 <= k < w.len() implies {
        &&& (#[trigger] w2.slot(k)).alive == w.slot(k).alive
        &&& w2.slot(k).generation == w.slot(k).generation
        &&& w2.slot(k).parent == w.slot(k).parent
        &&& w2.slot(k).children == w.slot(k).children
        &&& (w2.slot(k).transform is Some) == (w.slot(k).transform is Some)
    } by {
        assert(slot_after(w.slot(k), w2.slot(k), resolved(w, k, screen)));
    }
}

/// The per-frame pipeline: the draw order and the pointer state it keeps
/// between frames.
pub struct UiBundle {
    sorted: SortedWidgets,
    mouse: UiMouseSystem,
}

/// The pointer position in layout coordinates for a window position.
pub open spec fn world_point(p: (i64, i64), screen_width: i64, screen_height: i64) -> (int, int) {
    (p.0 - screen_width / 2, screen_height - p.1 - screen_height / 2)
}

impl UiBundle {
    pub closed spec fn draw_order(&self) -> Seq<(crate::entity::Entity, i64)> {
        self.sorted@
    }

    pub closed spec fn pointer(&self) -> PointerView {
        self.mouse@
    }

    pub fn new() -> (r: UiBundle)
        ensures
            r.draw_order() == Seq::<(crate::entity::Entity, i64)>::empty(),
            r.pointer() == (PointerView {
                mouse_was_down: false,
                click_started_on: Seq::empty(),
                last_targets: Seq::empty(),
            }),
    {
        UiBundle { sorted: SortedWidgets::new(), mouse: UiMouseSystem::new() }
    }

    /// The draw order of the last frame.
    pub fn sorted_widgets(&self) -> (r: &SortedWidgets)
        ensures
            r@ == self.draw_order(),
    {
        &self.sorted
    }

    /// Runs one frame: synchronises the hierarchy, resolves every layout
    /// node in the viewport, rebuilds the draw order, hit-tests the pointer
    /// (given in window pixels, `None` when outside the window) and returns
    /// the pointer events of the frame.
    pub fn run_frame(
        &mut self,
        world: &mut UiWorld,
        screen_width: i64,
        screen_height: i64,
        pointer: Option<(i64, i64)>,
        mouse_down: bool,
    ) -> (events: Vec<UiEvent>)
        requires
            wf(*old(world)),
            within(screen_width as int),
            within(screen_height as int),
            pointer matches Some(p) ==> within(p.0 as int) && within(p.1 as int),
        ensures
            wf(*final(world)),
            children_consistent(*final(world)),
            keeps_layout_parents(*old(world), *final(world)),
            is_draw_order(*final(world), final(self).draw_order()),
            forall|k: int|
                0 <= k < final(world).len() && #[trigger] resolved(*final(world), k, root_rect(screen_width, screen_height)) is Some
                    ==> final(world).slot(k).transform is Some && final(world).slot(k).transform->0.rect()
                    == resolved(*final(world), k, root_rect(screen_width, screen_height))->0,
            ({
                let t = match pointer {
                    Some(p) => Some(
                        targets(
                            *final(world),
                            final(self).draw_order(),
                            world_point(p, screen_width, screen_height).0,
                            world_point(p, screen_width, screen_height).1,
                        ),
                    ),
                    None => None,
                };
                let step = pointer_step(old(self).pointer(), t, mouse_down);
                &&& final(self).pointer() == step.0
                &&& events@ == step.1
            }),
    {
        let ghost w0 = *world;
        TransformBundle.run(world);
        let ghost synced = *world;
        build_ui_transform_system(world, screen_width, screen_height);
        proof {
            lemma_resolution_keeps_children(synced, *world, root_rect(screen_width, screen_height));
            lemma_resolution_structure(synced, *world, root_rect(screen_width, screen_height));
            assert forall|k: int|
                0 <= k < world.len() && #[trigger] resolved(*world, k, root_rect(screen_width, screen_height)) is Some
                    implies world.slot(k).transform is Some && world.slot(k).transform->0.rect()
                    == resolved(*world, k, root_rect(screen_width, screen_height))->0 by {
                lemma_resolved_frame(synced, *world, k, root_rect(screen_width, screen_height));
                assert(slot_after(synced.slot(k), world.slot(k), resolved(synced, k, root_rect(screen_width, screen_height))));
            }
            assert forall|k: int| #![trigger world.slot(k)] 0 <= k < w0.len() && keeps_parent_at(w0, k) implies world.slot(k).parent == w0.slot(k).parent by {
                assert(synced.slot(k).parent == w0.slot(k).parent);
            }
        }
        build_ui_sorting_system(world, &mut self.sorted);
        let hits = match pointer {
            Some(p) => {
                let (x, y) = mouse_world_position(p.0, p.1, screen_width, screen_height);
                Some(get_targeted(x, y, &self.sorted, world))
            },
            None => None,
        };
        self.mouse.step(hits, mouse_down)
    }
}

} // verus!
